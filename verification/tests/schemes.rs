use kscr_types::{
    add_io_basic_primitives, apply_constraint, apply_constraints, apply_scheme, assign_ty_var_names, entails_lacks, fmt_ty_prec, ftv_constraint,
    ftv_scheme, generalize_qual_with_env_ftv, instantiate, instantiate_qual, pretty_ty_pair, replace_vars, Constraint,
    InferCtx, Scheme, Subst, Ty,
};
use std::collections::{HashMap, HashSet};

fn con(name: &str) -> Ty {
    Ty::Con(name.to_string())
}

fn func(a: Ty, b: Ty) -> Ty {
    Ty::Func(Box::new(a), Box::new(b))
}

#[test]
fn scheme_display_renames_vars() {
    let s = Scheme {
        vars: vec![2],
        constraints: vec![],
        ty: Ty::List(Box::new(Ty::Var(2))),
    };
    assert_eq!(s.display(), "forall a. [a]");
}

#[test]
fn scheme_display_includes_single_constraint() {
    let s = Scheme {
        vars: vec![2],
        constraints: vec![Constraint::Show(Ty::Var(2))],
        ty: Ty::Func(
            Box::new(Ty::Var(2)),
            Box::new(Ty::Con("String".to_string())),
        ),
    };
    assert_eq!(s.display(), "forall a. Show a => a -> String");
}

#[test]
fn scheme_display_includes_multiple_constraints() {
    let s = Scheme {
        vars: vec![2, 3],
        constraints: vec![
            Constraint::Show(Ty::Var(2)),
            Constraint::Lacks {
                label: "x".to_string(),
                row: Ty::Var(3),
            },
        ],
        ty: Ty::Func(Box::new(Ty::Var(3)), Box::new(Ty::Var(3))),
    };
    assert_eq!(
        s.display(),
        "forall a b. (Show a, Lacks \"x\" b) => b -> b"
    );
}

#[test]
fn scheme_display_sorts_vars_and_class_constraints() {
    let s = Scheme {
        vars: vec![9, 4],
        constraints: vec![Constraint::Class { class: "Prelude.Show".to_string(), ty: Ty::Var(4) }],
        ty: func(Ty::Var(9), Ty::Var(4)),
    };
    assert_eq!(s.display(), "forall a b. Prelude.Show a => b -> a");
}

#[test]
fn scheme_display_mono() {
    let s = Scheme::mono(func(Ty::Var(12), con("Bool")));
    assert_eq!(s.display(), "t12 -> Bool");
    let q = Scheme {
        vars: vec![],
        constraints: vec![Constraint::Eq(Ty::Var(1))],
        ty: Ty::Var(1),
    };
    assert_eq!(q.display(), "Eq t1 => t1");
}

#[test]
fn type_display_precedence() {
    let t = func(func(con("A"), con("B")), con("C"));
    assert_eq!(t.display(), "(A -> B) -> C");
    let app = Ty::App { head: Box::new(con("Maybe")), args: vec![Ty::App { head: Box::new(con("List")), args: vec![con("A")] }] };
    assert_eq!(app.display(), "Maybe (List A)");
    let f = func(app.clone(), app);
    assert_eq!(f.display(), "Maybe (List A) -> Maybe (List A)");
    let r = Ty::RecordOpen(vec![("x".to_string(), con("Integer"))], Box::new(Ty::Var(3)));
    assert_eq!(r.display(), "{x: Integer, ...t3}");
    let r0 = Ty::RecordOpen(vec![], Box::new(Ty::Var(3)));
    assert_eq!(r0.display(), "{...t3}");
    let tup = Ty::Tuple(vec![con("A"), Ty::List(Box::new(con("B")))]);
    assert_eq!(tup.display(), "(A, [B])");
    let rec = Ty::Record(vec![("a".to_string(), con("A")), ("b".to_string(), con("B"))]);
    assert_eq!(rec.display(), "{a: A, b: B}");
}

#[test]
fn fmt_ty_prec_uses_given_names() {
    let mut names: HashMap<u32, String> = HashMap::new();
    names.insert(7, "x".to_string());
    let mut out = String::from("> ");
    fmt_ty_prec(&mut out, &func(Ty::Var(7), Ty::Var(8)), 1, &names);
    assert_eq!(out, "> (x -> t8)");
}

#[test]
fn var_names_in_order_of_occurrence() {
    let mut vars: HashMap<u32, String> = HashMap::new();
    assign_ty_var_names(&func(Ty::Var(5), Ty::Tuple(vec![Ty::Var(3), Ty::Var(5)])), &mut vars);
    assert_eq!(vars.get(&5), Some(&"a".to_string()));
    assert_eq!(vars.get(&3), Some(&"b".to_string()));
    assert_eq!(vars.len(), 2);
}

#[test]
fn var_names_beyond_the_alphabet() {
    let mut vars: HashMap<u32, String> = HashMap::new();
    let ts: Vec<Ty> = (0..28).map(Ty::Var).collect();
    assign_ty_var_names(&Ty::Tuple(ts), &mut vars);
    assert_eq!(vars.get(&25), Some(&"z".to_string()));
    assert_eq!(vars.get(&26), Some(&"a1".to_string()));
    assert_eq!(vars.get(&27), Some(&"b1".to_string()));
}

#[test]
fn pretty_pair_shares_names() {
    let (a, b) = pretty_ty_pair(&func(Ty::Var(10), Ty::Var(11)), &Ty::List(Box::new(Ty::Var(11))));
    assert_eq!(a, "a -> b");
    assert_eq!(b, "[b]");
}

#[test]
fn instantiate_gives_fresh_variables() {
    let mut cx = InferCtx::default();
    let _ = cx.fresh();
    let s = Scheme {
        vars: vec![2, 3],
        constraints: vec![Constraint::Show(Ty::Var(2))],
        ty: func(Ty::Var(2), func(Ty::Var(3), Ty::Var(9))),
    };
    let (cs, t) = instantiate_qual(&mut cx, &s);
    assert_eq!(t, func(Ty::Var(1), func(Ty::Var(2), Ty::Var(9))));
    assert_eq!(cs.len(), 1);
    assert!(matches!(&cs[0], Constraint::Show(Ty::Var(1))));
    let t2 = instantiate(&mut cx, &s);
    assert_eq!(t2, func(Ty::Var(3), func(Ty::Var(4), Ty::Var(9))));
    assert_eq!(cx.fresh(), Ty::Var(5));
}

#[test]
fn replace_vars_is_one_step() {
    let mut m: HashMap<u32, Ty> = HashMap::new();
    m.insert(0, Ty::Var(1));
    m.insert(1, con("A"));
    assert_eq!(replace_vars(&Ty::Tuple(vec![Ty::Var(0), Ty::Var(1), Ty::Var(2)]), &m), Ty::Tuple(vec![Ty::Var(1), con("A"), Ty::Var(2)]));
}

#[test]
fn free_variables_of_a_scheme() {
    let s = Scheme {
        vars: vec![1],
        constraints: vec![Constraint::Lacks { label: "a".to_string(), row: Ty::Var(4) }],
        ty: func(Ty::Var(1), Ty::Var(2)),
    };
    let expected: HashSet<u32> = [2, 4].into_iter().collect();
    assert_eq!(ftv_scheme(&s), expected);
}

fn var(v: u32) -> Ty {
    Ty::Var(v)
}

#[test]
fn free_vars_of_a_constraint() {
    let c = Constraint::Show(Ty::Func(Box::new(var(1)), Box::new(var(2))));
    assert_eq!(ftv_constraint(&c), [1u32, 2].into_iter().collect());
    let l = Constraint::Lacks { label: "x".to_string(), row: var(7) };
    assert_eq!(ftv_constraint(&l), [7u32].into_iter().collect());
}

#[test]
fn generalize_skips_environment_variables_and_sorts() {
    let env: HashSet<u32> = [1u32].into_iter().collect();
    let ty = Ty::Func(Box::new(var(9)), Box::new(Ty::Func(Box::new(var(1)), Box::new(var(3)))));
    let cs = vec![Constraint::Show(var(2)), Constraint::Eq(var(1))];
    let s = generalize_qual_with_env_ftv(&env, cs.clone(), ty.clone());
    assert_eq!(s.vars, vec![2, 3, 9]);
    assert_eq!(s.constraints, cs);
    assert_eq!(s.ty, ty);
    assert!(ftv_scheme(&s).is_subset(&env));
}

#[test]
fn apply_to_constraints() {
    let mut s = Subst::new();
    s.insert(1, Ty::Con("Integer".to_string()));
    let c = Constraint::Class { class: "Num".to_string(), ty: var(1) };
    assert_eq!(
        apply_constraint(&s, &c),
        Constraint::Class { class: "Num".to_string(), ty: Ty::Con("Integer".to_string()) }
    );
    let out = apply_constraints(&s, vec![Constraint::Eq(var(1)), Constraint::Show(var(2))]);
    assert_eq!(out, vec![Constraint::Eq(Ty::Con("Integer".to_string())), Constraint::Show(var(2))]);
}

#[test]
fn apply_scheme_leaves_quantified_variables() {
    let mut s = Subst::new();
    s.insert(1, Ty::Con("Integer".to_string()));
    s.insert(2, Ty::Con("Bool".to_string()));
    let sch = Scheme {
        vars: vec![1],
        constraints: vec![Constraint::Show(var(1)), Constraint::Eq(var(2))],
        ty: Ty::Func(Box::new(var(1)), Box::new(var(2))),
    };
    let r = apply_scheme(&s, &sch);
    assert_eq!(r.vars, vec![1]);
    assert_eq!(r.ty, Ty::Func(Box::new(var(1)), Box::new(Ty::Con("Bool".to_string()))));
    assert_eq!(r.constraints, vec![Constraint::Show(var(1)), Constraint::Eq(Ty::Con("Bool".to_string()))]);
    let mono = Scheme { vars: vec![], constraints: vec![], ty: var(1) };
    assert_eq!(apply_scheme(&s, &mono).ty, Ty::Con("Integer".to_string()));
}

#[test]
fn lacks_on_rows() {
    assert_eq!(
        entails_lacks("x", &var(5)).unwrap(),
        vec![Constraint::Lacks { label: "x".to_string(), row: var(5) }]
    );
    let closed = Ty::Record(vec![("y".to_string(), Ty::Con("Integer".to_string()))]);
    assert!(entails_lacks("x", &closed).unwrap().is_empty());
    let open = Ty::RecordOpen(vec![("y".to_string(), Ty::Con("Integer".to_string()))], Box::new(var(3)));
    assert_eq!(
        entails_lacks("x", &open).unwrap(),
        vec![Constraint::Lacks { label: "x".to_string(), row: var(3) }]
    );
}

#[test]
fn lacks_fails_on_present_field_or_non_row() {
    let has_x = Ty::Record(vec![("x".to_string(), Ty::Con("Integer".to_string()))]);
    assert_eq!(
        entails_lacks("x", &has_x).unwrap_err(),
        "cannot satisfy constraint: Lacks x {x: Integer}"
    );
    let open = Ty::RecordOpen(vec![("x".to_string(), Ty::Con("Bool".to_string()))], Box::new(var(3)));
    assert_eq!(
        entails_lacks("x", &open).unwrap_err(),
        "cannot satisfy constraint: Lacks x {x: Bool, ...t3}"
    );
    assert_eq!(
        entails_lacks("x", &Ty::Con("Integer".to_string())).unwrap_err(),
        "cannot satisfy constraint: Lacks x Integer"
    );
}

#[test]
fn io_primitives_are_added_in_order() {
    let mut env: Vec<(String, Scheme)> = vec![("x".to_string(), Scheme::mono(var(0)))];
    add_io_basic_primitives(&mut env);
    let names: Vec<&str> = env.iter().map(|(n, _)| n.as_str()).collect();
    assert_eq!(
        names,
        vec!["x", "stdoutWrite", "stdinReadLine", "readLine", "print", "putStrLn", "getArgs", "readFile", "writeFile"]
    );
    assert!(env.iter().skip(1).all(|(_, s)| s.vars.is_empty() && s.constraints.is_empty()));
    assert_eq!(env[8].1.ty.display(), "[Char] -> [Char] -> IO Unit");
    assert_eq!(env[6].1.ty.display(), "IO [[Char]]");
    assert_eq!(env[2].1.ty.display(), "IO [Char]");
}

#[test]
fn simplify_lacks_rejects_present_label() {
    let row = Ty::Record(vec![("a".to_string(), Ty::Con("Integer".to_string()))]);
    assert!(entails_lacks("a", &row).is_err());
}
