use kscr_types::{
    desugar_qualified_ref, module_qual_env, resolve_ctor_names_to_module_ids, ModuleIds, SynArm, SynBinding, SynExpr,
    SuperPred, SynClassDecl, SynImport, SynItem, SynModule, SynName, SynPat, SynType,
};

fn un(s: &str) -> SynName {
    SynName::Unresolved(s.to_string())
}

fn res(id: usize, q: &str, n: &str) -> SynName {
    SynName::Resolved { module: id, module_name: q.to_string(), name: n.to_string() }
}

fn import(m: &str, as_name: Option<&str>, qualified: bool) -> SynItem {
    SynItem::Import(SynImport { module: m.to_string(), as_name: as_name.map(|a| a.to_string()), qualified, import_spec: None })
}

fn sample(names: [SynName; 5]) -> Vec<SynItem> {
    let [a, b, c, d, e] = names;
    vec![
        import("Data.Maybe", Some("M"), true),
        import("Prelude", None, false),
        SynItem::Binding(SynBinding {
            pat: SynPat::Var("x".to_string()),
            expr: SynExpr::Apply(Box::new(SynExpr::Ctor(a)), vec![SynExpr::Ctor(b)]),
        }),
        SynItem::InstanceDecl {
            class: "Show".to_string(),
            methods: vec![SynBinding {
                pat: SynPat::Var("show".to_string()),
                expr: SynExpr::Case(
                    Box::new(SynExpr::Var("v".to_string())),
                    vec![SynArm {
                        pat: SynPat::Ctor(c, vec![SynPat::Wildcard]),
                        guard: Some(SynExpr::Ctor(d)),
                        body: SynExpr::Lit("\"j\"".to_string()),
                    }],
                ),
            }],
        },
        SynItem::ClassDecl(SynClassDecl {
            name: "C".to_string(),
            def_module: None,
            param: "c".to_string(),
            supers: vec![SuperPred::Eq(SynType::Var("c".to_string()))],
            methods: vec!["m".to_string()],
            default_methods: vec![SynBinding { pat: SynPat::Var("m".to_string()), expr: SynExpr::Ctor(e) }],
        }),
        SynItem::Other,
    ]
}

#[test]
fn qualified_ctor_names_resolve_to_numbered_modules() {
    let mut m = SynModule {
        name: Some("Main".to_string()),
        export_specs: None,
        items: sample([un("M.Just"), un("Prelude.Nothing"), un("Data.Maybe.Just"), un("Main.Foo"), un("X.Bar")]),
    };
    let mut ids = ModuleIds::new();
    resolve_ctor_names_to_module_ids(&mut m, &mut ids).unwrap();
    let want = sample([
        res(1, "M", "Just"),
        res(2, "Prelude", "Nothing"),
        res(1, "Data.Maybe", "Just"),
        res(3, "Main", "Foo"),
        un("X.Bar"),
    ]);
    assert_eq!(m.items, want);
    assert_eq!(m.name, Some("Main".to_string()));
    assert_eq!(ids.intern("Prelude"), 2);
    assert_eq!(ids.intern("Other"), 4);
}

#[test]
fn unqualified_and_resolved_names_are_left_alone() {
    let items = vec![SynItem::Binding(SynBinding {
        pat: SynPat::Ctor(un("Just"), vec![]),
        expr: SynExpr::List(vec![SynExpr::Ctor(res(7, "Q", "K")), SynExpr::Ctor(un("Nothing"))]),
    })];
    let mut m = SynModule { name: None, export_specs: None, items };
    let mut ids = ModuleIds::new();
    resolve_ctor_names_to_module_ids(&mut m, &mut ids).unwrap();
    let want = vec![SynItem::Binding(SynBinding {
        pat: SynPat::Ctor(un("Just"), vec![]),
        expr: SynExpr::List(vec![SynExpr::Ctor(res(7, "Q", "K")), SynExpr::Ctor(un("Nothing"))]),
    })];
    assert_eq!(m.items, want);
    assert_eq!(ids.intern("A"), 1);
}

#[test]
fn module_qualifiers_come_from_name_and_imports() {
    let m = SynModule {
        name: Some("Main".to_string()),
        export_specs: None,
        items: vec![import("Data.Maybe", Some("M"), true), import("Data.List", None, false)],
    };
    let env = module_qual_env(&m);
    assert_eq!(desugar_qualified_ref("M.fromJust", &env), Ok("M.fromJust".to_string()));
    assert_eq!(desugar_qualified_ref("Data.Maybe.x", &env), Ok("Data.Maybe.x".to_string()));
    assert_eq!(desugar_qualified_ref("Main.y", &env), Ok("Main.y".to_string()));
    assert_eq!(desugar_qualified_ref("Data.List.z", &env), Ok("Data.List.z".to_string()));
    assert!(desugar_qualified_ref("Q.z", &env).is_err());
    assert_eq!(env.canonical_module("M"), Some(&"Data.Maybe".to_string()));
    assert_eq!(env.canonical_module("Q"), None);
}

#[test]
fn imports_need_their_environments() {
    let m = SynModule { name: Some("Main".to_string()), export_specs: None, items: vec![SynItem::Other, import("Data.List", None, false)] };
    assert_eq!(
        kscr_types::check_imports_supplied(&m, false),
        Err("imports require typecheck_file".to_string())
    );
    assert_eq!(kscr_types::check_imports_supplied(&m, true), Ok(()));
    let plain = SynModule { name: None, export_specs: None, items: vec![SynItem::Other] };
    assert_eq!(kscr_types::check_imports_supplied(&plain, false), Ok(()));
}

#[test]
fn implicit_prelude_import_is_added_where_missing() {
    let plain = SynModule { name: Some("Main".to_string()), export_specs: None, items: vec![SynItem::Other] };
    let m = kscr_types::ensure_implicit_prelude_import(plain);
    assert_eq!(m.items.len(), 2);
    assert_eq!(m.items[0], import("Prelude", None, false));
    let with_import = SynModule {
        name: Some("Main".to_string()),
        export_specs: None,
        items: vec![import("Data.List", None, false)],
    };
    let m2 = kscr_types::ensure_implicit_prelude_import(with_import);
    assert_eq!(
        m2.items[0],
        SynItem::Import(SynImport {
            module: "Prelude".to_string(),
            as_name: None,
            qualified: false,
            import_spec: Some(kscr_types::SynImportSpec::Hiding(vec![
                kscr_types::SynExportSpec::Type { name: "Maybe".to_string(), ctors: kscr_types::SynExportCtors::All },
                kscr_types::SynExportSpec::Type { name: "Either".to_string(), ctors: kscr_types::SynExportCtors::All },
            ])),
        })
    );
    let prelude = SynModule { name: Some("Prelude".to_string()), export_specs: None, items: vec![] };
    assert!(kscr_types::ensure_implicit_prelude_import(prelude).items.is_empty());
    let already = SynModule {
        name: None,
        export_specs: None,
        items: vec![import("Prelude", Some("P"), true)],
    };
    assert_eq!(kscr_types::ensure_implicit_prelude_import(already).items.len(), 1);
}
