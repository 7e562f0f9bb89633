use kscr_types::{detect_superclass_cycles, reject_ambiguous_method_names, validate_superclass_preds, ClassEnv, SuperPred, SynType};

fn tv(s: &str) -> SynType {
    SynType::Var(s.to_string())
}

fn env(params: &[(&str, &str)], supers: Vec<(&str, Vec<SuperPred>)>, methods: &[(&str, &[&str])]) -> ClassEnv {
    ClassEnv {
        class_params: params.iter().map(|(c, p)| (c.to_string(), p.to_string())).collect(),
        class_supers: supers.into_iter().map(|(c, ps)| (c.to_string(), ps)).collect(),
        method_classes: methods
            .iter()
            .map(|(m, cs)| (m.to_string(), cs.iter().map(|c| c.to_string()).collect()))
            .collect(),
    }
}

#[test]
fn superclass_predicates_on_the_parameter_of_known_classes_pass() {
    let e = env(
        &[("Semigroup", "a"), ("Monoid", "m")],
        vec![("Monoid", vec![SuperPred::Class("Semigroup".to_string(), tv("m")), SuperPred::Eq(tv("m"))])],
        &[],
    );
    assert_eq!(validate_superclass_preds(&e), Ok(()));
}

#[test]
fn superclass_errors_name_the_problem() {
    let unknown = env(&[("Monoid", "m")], vec![("Monoid", vec![SuperPred::Class("Semigroup".to_string(), tv("m"))])], &[]);
    assert_eq!(
        validate_superclass_preds(&unknown),
        Err("unknown superclass `Semigroup` in class `Monoid`".to_string())
    );
    let shape = env(&[("Monoid", "m")], vec![("Monoid", vec![SuperPred::Show(tv("a"))])], &[]);
    assert_eq!(
        validate_superclass_preds(&shape),
        Err("MVP: superclass constraints must be of the form `C m`".to_string())
    );
    let missing = env(&[], vec![("Monoid", vec![])], &[]);
    assert_eq!(validate_superclass_preds(&missing), Err("internal: missing class param".to_string()));
}

#[test]
fn ambiguous_method_names_are_rejected() {
    let ok = env(&[], vec![], &[("show", &["Show"]), ("eq", &["Eq"])]);
    assert_eq!(reject_ambiguous_method_names(&ok), Ok(()));
    let bad = env(&[], vec![], &[("show", &["Show"]), ("pretty", &["Pretty", "Doc"])]);
    assert_eq!(
        reject_ambiguous_method_names(&bad),
        Err("ambiguous method name: pretty (defined in classes: Pretty, Doc)".to_string())
    );
}

fn sup(c: &str, v: &str) -> SuperPred {
    SuperPred::Class(c.to_string(), tv(v))
}

#[test]
fn superclass_cycles_are_reported_with_their_path() {
    let cyc = env(
        &[("A", "a"), ("B", "b"), ("C", "c")],
        vec![("A", vec![sup("B", "a")]), ("B", vec![SuperPred::Eq(tv("b")), sup("A", "b")]), ("C", vec![])],
        &[],
    );
    assert_eq!(detect_superclass_cycles(&cyc), Err("cyclic superclass constraints: A => B => A".to_string()));
    let selfloop = env(&[("C", "c")], vec![("C", vec![sup("C", "c")])], &[]);
    assert_eq!(detect_superclass_cycles(&selfloop), Err("cyclic superclass constraints: C => C".to_string()));
    let from_second = env(
        &[("X", "x"), ("P", "p"), ("Q", "q")],
        vec![("P", vec![sup("Q", "p")]), ("Q", vec![sup("P", "q")])],
        &[],
    );
    assert_eq!(detect_superclass_cycles(&from_second), Err("cyclic superclass constraints: P => Q => P".to_string()));
}

#[test]
fn acyclic_superclasses_pass_even_when_shared() {
    let dag = env(
        &[("Monoid", "m"), ("Semigroup", "a"), ("Group", "g")],
        vec![
            ("Monoid", vec![sup("Semigroup", "m")]),
            ("Group", vec![sup("Monoid", "g"), sup("Semigroup", "g")]),
        ],
        &[],
    );
    assert_eq!(detect_superclass_cycles(&dag), Ok(()));
    assert_eq!(detect_superclass_cycles(&env(&[], vec![], &[])), Ok(()));
}

fn decl(name: &str, def_module: Option<&str>, param: &str, supers: Vec<SuperPred>, methods: &[&str], defaults: &[&str]) -> kscr_types::SynClassDecl {
    kscr_types::SynClassDecl {
        name: name.to_string(),
        def_module: def_module.map(|m| m.to_string()),
        param: param.to_string(),
        supers,
        methods: methods.iter().map(|m| m.to_string()).collect(),
        default_methods: defaults
            .iter()
            .map(|d| kscr_types::SynBinding {
                pat: kscr_types::SynPat::Var(d.to_string()),
                expr: kscr_types::SynExpr::Var(format!("{}_impl", d)),
            })
            .collect(),
    }
}

#[test]
fn class_declarations_are_collected_under_qualified_names() {
    let mut e = env(&[], vec![], &[]);
    let decls = vec![
        decl("Show", Some("Prelude"), "a", vec![], &["show", "showList"], &["showList"]),
        decl("Pretty", None, "p", vec![sup("Prelude.Show", "p")], &["show"], &[]),
    ];
    let info = kscr_types::collect_class_decls(decls, &mut e).unwrap();
    assert_eq!(e.class_params, vec![("Prelude.Show".to_string(), "a".to_string()), ("Pretty".to_string(), "p".to_string())]);
    assert_eq!(e.class_supers[1].0, "Pretty");
    assert_eq!(
        e.method_classes,
        vec![
            ("show".to_string(), vec!["Prelude.Show".to_string(), "Pretty".to_string()]),
            ("showList".to_string(), vec!["Prelude.Show".to_string()]),
        ]
    );
    assert_eq!(
        info.method_names,
        vec![
            ("Prelude.Show".to_string(), vec!["show".to_string(), "showList".to_string()]),
            ("Pretty".to_string(), vec!["show".to_string()]),
        ]
    );
    assert_eq!(info.defaults.len(), 1);
    assert_eq!(info.defaults[0].0, ("Prelude.Show".to_string(), "showList".to_string()));
    assert_eq!(
        reject_ambiguous_method_names(&e),
        Err("ambiguous method name: show (defined in classes: Prelude.Show, Pretty)".to_string())
    );
}

#[test]
fn class_declaration_errors() {
    let mut e = env(&[], vec![], &[]);
    let dup = vec![decl("A", None, "a", vec![], &[], &[]), decl("A", None, "b", vec![], &[], &[])];
    assert_eq!(kscr_types::collect_class_decls(dup, &mut e).err(), Some("duplicate class".to_string()));
    let mut e2 = env(&[], vec![], &[]);
    let twice = vec![decl("B", None, "b", vec![], &["f"], &["f", "f"])];
    assert_eq!(
        kscr_types::collect_class_decls(twice, &mut e2).err(),
        Some("duplicate class default method".to_string())
    );
    let mut e3 = env(&[], vec![], &[]);
    let mut bad = decl("C", None, "c", vec![], &["g"], &[]);
    bad.default_methods.push(kscr_types::SynBinding {
        pat: kscr_types::SynPat::Wildcard,
        expr: kscr_types::SynExpr::Var("x".to_string()),
    });
    assert_eq!(
        kscr_types::collect_class_decls(vec![bad], &mut e3).err(),
        Some("MVP: class default methods must be simple variable bindings".to_string())
    );
}

#[test]
fn class_environments_merge_and_are_checked() {
    let a = env(&[("A", "a")], vec![("A", vec![])], &[("f", &["A"])]);
    let b = env(&[("A", "a"), ("B", "b")], vec![("A", vec![SuperPred::Eq(tv("a"))]), ("B", vec![sup("A", "b")])], &[("g", &["B"]), ("f", &["A"])]);
    let m = kscr_types::merge_class_envs(vec![a, b]).unwrap();
    assert_eq!(m.class_params, vec![("A".to_string(), "a".to_string()), ("B".to_string(), "b".to_string())]);
    assert_eq!(m.class_supers.len(), 2);
    assert_eq!(m.class_supers[0], ("A".to_string(), vec![]));
    assert_eq!(
        m.method_classes,
        vec![("f".to_string(), vec!["A".to_string()]), ("g".to_string(), vec!["B".to_string()])]
    );
}

#[test]
fn class_environment_merge_errors() {
    let a = env(&[("A", "a")], vec![], &[]);
    let a2 = env(&[("A", "x")], vec![], &[]);
    assert_eq!(
        kscr_types::merge_class_envs(vec![a, a2]).err(),
        Some("conflicting class param for class A".to_string())
    );
    let p = env(&[("P", "p")], vec![], &[("show", &["P"])]);
    let q = env(&[("Q", "q")], vec![], &[("show", &["Q"])]);
    assert_eq!(
        kscr_types::merge_class_envs(vec![q, p]).err(),
        Some("ambiguous method name: show (defined in classes: P, Q)".to_string())
    );
    let c = env(&[("C", "c")], vec![("C", vec![sup("C", "c")])], &[]);
    assert_eq!(
        kscr_types::merge_class_envs(vec![c]).err(),
        Some("cyclic superclass constraints: C => C".to_string())
    );
}
