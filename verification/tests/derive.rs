use kscr_types::{generate_semigroup_monoid_instance, SynArm, SynCtor, SynDataDecl, SynExpr, SynName, SynPat, SynType};

fn unresolved(s: &str) -> SynName {
    SynName::Unresolved(s.to_string())
}

fn var(s: &str) -> SynExpr {
    SynExpr::Var(s.to_string())
}

fn pair_decl() -> SynDataDecl {
    SynDataDecl {
        name: "Pair".to_string(),
        params: vec!["a".to_string(), "b".to_string()],
        ctors: vec![SynCtor {
            name: "MkPair".to_string(),
            args: vec![SynType::Var("a".to_string()), SynType::Var("b".to_string())],
        }],
    }
}

fn append_expr(ctor: &str, n: usize) -> SynExpr {
    let pat = |p: &str| {
        SynPat::Ctor(unresolved(ctor), (0..n).map(|i| SynPat::Var(format!("{}{}", p, i))).collect())
    };
    let fields = (0..n)
        .map(|i| {
            SynExpr::Apply(
                Box::new(SynExpr::Apply(Box::new(var("<>")), vec![var(&format!("__a{}", i))])),
                vec![var(&format!("__b{}", i))],
            )
        })
        .collect();
    SynExpr::Lambda(
        vec!["__x".to_string(), "__y".to_string()],
        Box::new(SynExpr::Case(
            Box::new(SynExpr::Tuple(vec![var("__x"), var("__y")])),
            vec![SynArm {
                pat: SynPat::Tuple(vec![pat("__a"), pat("__b")]),
                guard: None,
                body: SynExpr::Apply(Box::new(SynExpr::Ctor(unresolved(ctor))), fields),
            }],
        )),
    )
}

#[test]
fn semigroup_instance_combines_fields() {
    let inst = generate_semigroup_monoid_instance(&pair_decl(), "Semigroup").unwrap();
    assert_eq!(inst.class, "Semigroup");
    assert_eq!(
        inst.preds,
        vec![
            ("Semigroup".to_string(), SynType::Var("a".to_string())),
            ("Semigroup".to_string(), SynType::Var("b".to_string())),
        ]
    );
    assert_eq!(
        inst.ty,
        SynType::App(
            Box::new(SynType::Var("Pair".to_string())),
            vec![SynType::Var("a".to_string()), SynType::Var("b".to_string())]
        )
    );
    assert_eq!(inst.methods, vec![("<>".to_string(), append_expr("MkPair", 2))]);
}

#[test]
fn monoid_instance_has_mempty_and_append() {
    let d = SynDataDecl {
        name: "Unit".to_string(),
        params: vec![],
        ctors: vec![SynCtor { name: "MkUnit".to_string(), args: vec![] }],
    };
    let inst = generate_semigroup_monoid_instance(&d, "Monoid").unwrap();
    assert!(inst.preds.is_empty());
    assert_eq!(inst.ty, SynType::Var("Unit".to_string()));
    assert_eq!(
        inst.methods,
        vec![
            ("mempty".to_string(), SynExpr::Apply(Box::new(SynExpr::Ctor(unresolved("MkUnit"))), vec![])),
            ("<>".to_string(), append_expr("MkUnit", 0)),
        ]
    );
    let inst2 = generate_semigroup_monoid_instance(&pair_decl(), "Monoid").unwrap();
    assert_eq!(
        inst2.methods[0].1,
        SynExpr::Apply(Box::new(SynExpr::Ctor(unresolved("MkPair"))), vec![var("mempty"), var("mempty")])
    );
}

#[test]
fn other_class_gets_no_methods() {
    let inst = generate_semigroup_monoid_instance(&pair_decl(), "Show").unwrap();
    assert!(inst.methods.is_empty());
    assert_eq!(inst.preds.len(), 2);
}
