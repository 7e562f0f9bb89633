use kscr_types::{
    adt_head_type_name, check_case_primitive_exhaustive, collect_unify_def_hints, ctx_param_name, dict_param_name,
    eq_primitives, format_unify_name_hints, format_unknown_ctor_name_hint, instance_head_key_ty, instance_head_key_ty_for_class, mangle_ident,
    normalize_string_alts, normalize_ty_for_instance_key, show_primitives, stdlib_derives_eq, stdlib_derives_show,
    super_field_name, ty_has_list_char, ty_has_unqualified_type_ctor, unify_def_evidence, unify_goal_message,
    unify_instance_head, unify_instance_head_ground, DefHint,
    unqual_name_last_segment, DefHintKind, ModuleName, NameHints, QualName, Ty, UnifyError, UnqualName,
};

fn con(name: &str) -> Ty {
    Ty::Con(name.to_string())
}

fn app(h: &str, args: Vec<Ty>) -> Ty {
    Ty::App { head: Box::new(con(h)), args }
}

fn func(a: Ty, b: Ty) -> Ty {
    Ty::Func(Box::new(a), Box::new(b))
}

fn qual(m: &str, n: &str) -> QualName {
    QualName { module: ModuleName(m.to_string()), name: UnqualName(n.to_string()) }
}

#[test]
fn instance_head_matches_ground_types() {
    assert!(unify_instance_head(&app("Maybe", vec![Ty::Var(0)]), &app("Maybe", vec![con("Integer")])).is_some());
    assert!(unify_instance_head(&app("Maybe", vec![Ty::Var(0)]), &app("List", vec![con("Integer")])).is_none());
    let pair = Ty::Tuple(vec![Ty::Var(0), Ty::Var(0)]);
    assert!(unify_instance_head(&pair, &Ty::Tuple(vec![con("A"), con("A")])).is_some());
    assert!(unify_instance_head(&pair, &Ty::Tuple(vec![con("A"), con("B")])).is_none());
    assert!(unify_instance_head(&con("Integer"), &con("i64")).is_none());
    let rp = Ty::Record(vec![("b".to_string(), Ty::Var(1)), ("a".to_string(), con("A"))]);
    let rc = Ty::Record(vec![("a".to_string(), con("A")), ("b".to_string(), con("B"))]);
    assert!(unify_instance_head(&rp, &rc).is_some());
    let open = Ty::RecordOpen(vec![("a".to_string(), Ty::Var(1))], Box::new(Ty::Var(2)));
    assert!(unify_instance_head(&open, &rc).is_some());
    let open_bad = Ty::RecordOpen(vec![("z".to_string(), Ty::Var(1))], Box::new(Ty::Var(2)));
    assert!(unify_instance_head(&open_bad, &rc).is_none());
    assert!(unify_instance_head(&func(Ty::Var(0), Ty::Var(0)), &func(con("A"), con("A"))).is_some());
    assert!(unify_instance_head(&Ty::List(Box::new(Ty::Var(0))), &con("A")).is_none());
}

#[test]
fn instance_keys() {
    assert_eq!(instance_head_key_ty(&con("Integer")).unwrap(), "Integer");
    assert_eq!(instance_head_key_ty(&app("Maybe", vec![con("Integer")])).unwrap(), "Maybe_Integer");
    assert_eq!(instance_head_key_ty(&Ty::List(Box::new(con("Char")))).unwrap(), "List_Char");
    assert_eq!(instance_head_key_ty(&Ty::Tuple(vec![con("A"), con("B")])).unwrap(), "Tuple2_A_B");
    let r = Ty::Record(vec![
        ("b".to_string(), con("X")),
        ("a".to_string(), con("Y")),
        ("b".to_string(), con("Z")),
    ]);
    assert_eq!(instance_head_key_ty(&r).unwrap(), "Recorda_b");
    assert_eq!(instance_head_key_ty(&Ty::RecordOpen(vec![], Box::new(Ty::Var(0)))).unwrap(), "RecordOpen");
    assert_eq!(instance_head_key_ty(&func(con("A"), con("B"))).unwrap(), "Func_A_B");
    assert_eq!(
        instance_head_key_ty(&app("Maybe", vec![Ty::Var(3)])).unwrap_err(),
        "MVP: class constraints support only constructor/app instance heads"
    );
}

#[test]
fn string_alias_in_instance_keys() {
    assert_eq!(normalize_ty_for_instance_key(&Ty::List(Box::new(con("Char")))), con("String"));
    assert_eq!(
        normalize_ty_for_instance_key(&Ty::List(Box::new(con("Bool")))),
        Ty::List(Box::new(con("Bool")))
    );
}

#[test]
fn mangled_identifiers() {
    assert_eq!(mangle_ident("+"), "plus");
    assert_eq!(mangle_ident(">>="), "bind");
    assert_eq!(mangle_ident("&"), "ampersand");
    assert_eq!(mangle_ident("foo'"), "foo_27");
    assert_eq!(mangle_ident("a.b"), "a_2eb");
    assert_eq!(mangle_ident("\u{e9}"), "_e9");
    assert_eq!(super_field_name("Show"), "__super_Show");
    assert_eq!(super_field_name("=="), "__super_eq");
    assert_eq!(dict_param_name("Prelude.Eq"), "__dict_Prelude.Eq");
    assert_eq!(ctx_param_name(12), "__ctx_dict_12");
}

#[test]
fn qualified_names() {
    let q = QualName::parse("Prelude.Maybe").unwrap();
    assert_eq!(q, qual("Prelude", "Maybe"));
    assert_eq!(q.as_key(), "Prelude.Maybe");
    assert_eq!(QualName::parse("A.B.C").unwrap(), qual("A.B", "C"));
    assert!(QualName::parse("Maybe").is_none());
    assert_eq!(UnqualName("x".to_string()).as_str(), "x");
    assert_eq!(unqual_name_last_segment("A.B.c"), "c");
    assert_eq!(unqual_name_last_segment("plain"), "plain");
}

#[test]
fn primitive_name_sets() {
    assert!(show_primitives("Integer") && show_primitives("Unit"));
    assert!(!show_primitives("Float64"));
    assert!(eq_primitives("Float64") && eq_primitives("Char"));
    assert!(!eq_primitives("String"));
    assert!(stdlib_derives_show("Rational") && stdlib_derives_eq("Rational"));
    assert!(!stdlib_derives_show("Maybe"));
}

#[test]
fn type_shapes_for_diagnostics() {
    assert!(ty_has_list_char(&Ty::List(Box::new(con("Char")))));
    assert!(!ty_has_list_char(&Ty::List(Box::new(con("Bool")))));
    let t = func(con("a"), Ty::Tuple(vec![con("Prelude.Maybe"), app("Either", vec![con("Int")])]));
    assert_eq!(ty_has_unqualified_type_ctor(&t), Some("Either".to_string()));
    assert_eq!(ty_has_unqualified_type_ctor(&Ty::Var(0)), None);
    assert_eq!(adt_head_type_name(&app("Maybe", vec![])), Some("Maybe".to_string()));
    assert_eq!(adt_head_type_name(&con("Bool")), Some("Bool".to_string()));
    assert_eq!(adt_head_type_name(&Ty::Var(1)), None);
}

#[test]
fn primitive_case_exhaustiveness() {
    let alts = |xs: &[&str]| xs.iter().map(|s| s.to_string()).collect::<Vec<String>>();
    assert_eq!(check_case_primitive_exhaustive(&con("Bool"), &alts(&["bool:true", "bool:false"])).unwrap(), Some(Ok(())));
    assert_eq!(
        check_case_primitive_exhaustive(&con("Bool"), &alts(&["bool:true"])).unwrap(),
        Some(Err("non-exhaustive case: missing Bool branch (add `_ -> ...`)".to_string()))
    );
    assert_eq!(check_case_primitive_exhaustive(&con("Unit"), &alts(&["unit"])).unwrap(), Some(Ok(())));
    assert_eq!(
        check_case_primitive_exhaustive(&Ty::List(Box::new(Ty::Var(0))), &alts(&["list:nil"])).unwrap(),
        Some(Err("non-exhaustive case on List: missing `[]` or `(_:_)` (add `_ -> ...`)".to_string()))
    );
    assert_eq!(
        check_case_primitive_exhaustive(&con("Integer"), &alts(&[])).unwrap(),
        Some(Err("non-exhaustive case on Integer (add `_ -> ...`)".to_string()))
    );
    assert_eq!(check_case_primitive_exhaustive(&Ty::Var(0), &alts(&[])).unwrap(), Some(Ok(())));
    assert_eq!(check_case_primitive_exhaustive(&con("Maybe"), &alts(&[])).unwrap(), None);
}

#[test]
fn alternatives_sorted_once() {
    let mut v = vec!["ctor:B".to_string(), "ctor:A".to_string(), "ctor:B".to_string(), "bool:true".to_string()];
    normalize_string_alts(&mut v);
    assert_eq!(v, vec!["bool:true".to_string(), "ctor:A".to_string(), "ctor:B".to_string()]);
}

#[test]
fn unify_name_hints() {
    let hints = NameHints {
        type_ctor: vec![
            (UnqualName("Maybe".to_string()), qual("Prelude", "Maybe")),
            (UnqualName("Either".to_string()), qual("Data", "Either")),
            (UnqualName("Maybe".to_string()), qual("Data.Maybe", "Maybe")),
        ],
        ..NameHints::default()
    };
    assert_eq!(
        format_unify_name_hints(&con("Bool2"), &app("Maybe", vec![]), &hints),
        " (hint: type ctor `Maybe` resolves to `Data.Maybe.Maybe`)"
    );
    assert_eq!(format_unify_name_hints(&con("x"), &con("y"), &hints), "");
    assert_eq!(format_unknown_ctor_name_hint("A.B", &hints), " (hint: check qualified imports / aliasing)");
    assert_eq!(
        format_unknown_ctor_name_hint("Either", &hints),
        " (hint: `Either` resolves to `Data.Either`)"
    );
    assert_eq!(format_unknown_ctor_name_hint("either", &hints), "");
    let hs = collect_unify_def_hints(&app("Maybe", vec![]), &con("Either"), &hints);
    assert_eq!(hs.len(), 2);
    assert_eq!(hs[0].kind, DefHintKind::TypeCtor);
    assert_eq!(hs[0].unqualified, UnqualName("Either".to_string()));
    assert_eq!(hs[1].qualified, qual("Data.Maybe", "Maybe"));
    assert_eq!(collect_unify_def_hints(&con("Either"), &con("Either"), &hints).len(), 1);
}

#[test]
fn unify_goal_messages() {
    let m = unify_goal_message(
        UnifyError::CannotUnify,
        "in binding x",
        &func(Ty::Var(4), con("Bool")),
        &Ty::Var(4),
        " (hint)",
        "",
    );
    assert_eq!(m, "cannot unify (unify goal: in binding x: here = a -> Bool, other = a) (hint)");
}

#[test]
fn higher_kinded_class_keys_by_head_constructor() {
    assert_eq!(instance_head_key_ty_for_class(true, &app("Maybe", vec![Ty::Var(3)])).unwrap(), "Maybe");
    assert_eq!(instance_head_key_ty_for_class(true, &con("Maybe")).unwrap(), "Maybe");
    assert_eq!(
        instance_head_key_ty_for_class(true, &Ty::List(Box::new(Ty::Var(1)))).unwrap_err(),
        "MVP: class constraints support only constructor/app instance heads"
    );
    assert_eq!(
        instance_head_key_ty_for_class(false, &app("Maybe", vec![con("Integer")])).unwrap(),
        "Maybe_Integer"
    );
    assert_eq!(
        instance_head_key_ty_for_class(false, &app("Maybe", vec![Ty::Var(3)])).unwrap_err(),
        "MVP: class constraints support only constructor/app instance heads"
    );
}

fn hint(kind: DefHintKind, n: &str, q: QualName) -> DefHint {
    DefHint { kind, unqualified: UnqualName(n.to_string()), qualified: q }
}

#[test]
fn unify_evidence_orders_ctors_then_aliases_once_each() {
    let hints = NameHints {
        type_ctor: vec![(UnqualName("Foo".to_string()), qual("M", "Foo"))],
        ..NameHints::default()
    };
    let seen = vec![
        (UnqualName("Text".to_string()), qual("Main", "Text")),
        (UnqualName("Text".to_string()), qual("Main", "Text")),
    ];
    let ev = unify_def_evidence(&con("Foo"), &Ty::List(Box::new(con("Char"))), &hints, &seen);
    assert_eq!(
        ev,
        vec![
            hint(DefHintKind::TypeCtor, "Foo", qual("M", "Foo")),
            hint(DefHintKind::TypeAlias, "String", qual("Prelude", "String")),
            hint(DefHintKind::TypeAlias, "Text", qual("Main", "Text")),
        ]
    );
}

#[test]
fn unify_evidence_uses_the_string_alias_in_scope() {
    let hints = NameHints {
        type_alias: vec![(UnqualName("String".to_string()), qual("Base", "String"))],
        ..NameHints::default()
    };
    let ev = unify_def_evidence(&Ty::List(Box::new(con("Char"))), &con("Integer"), &hints, &vec![]);
    assert_eq!(ev, vec![hint(DefHintKind::TypeAlias, "String", qual("Base", "String"))]);
    assert!(unify_def_evidence(&con("Integer"), &con("Bool"), &NameHints::default(), &vec![]).is_empty());
}

#[test]
fn ground_instance_head_matching() {
    let pat = app("Maybe", vec![Ty::Var(0)]);
    assert_eq!(unify_instance_head_ground(&pat, &app("Maybe", vec![con("Integer")])), Some(Some(())));
    assert_eq!(unify_instance_head_ground(&pat, &app("List", vec![con("Integer")])), Some(None));
    assert_eq!(unify_instance_head_ground(&pat, &app("Maybe", vec![Ty::Var(3)])), None);
    let twice = Ty::Tuple(vec![Ty::Var(0), Ty::Var(0)]);
    assert_eq!(unify_instance_head_ground(&twice, &Ty::Tuple(vec![con("A"), con("A")])), Some(Some(())));
    assert_eq!(unify_instance_head_ground(&twice, &Ty::Tuple(vec![con("A"), con("B")])), Some(None));
}
