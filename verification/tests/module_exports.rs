use kscr_types::{
    module_exported_names, SymbolKind, SynBinding, SynCtor, SynDataDecl, SynExportCtors, SynExportSpec, SynExpr, SynImport,
    SynItem, SynModule, SynPat, SynType, SynTypeAlias,
};

fn binding(name: &str, lit: &str) -> SynItem {
    SynItem::Binding(SynBinding { pat: SynPat::Var(name.to_string()), expr: SynExpr::Lit(lit.to_string()) })
}

fn maybe_decl() -> SynDataDecl {
    SynDataDecl {
        name: "Maybe".to_string(),
        params: vec!["a".to_string()],
        ctors: vec![
            SynCtor { name: "Just".to_string(), args: vec![SynType::Var("a".to_string())] },
            SynCtor { name: "Nothing".to_string(), args: vec![] },
        ],
    }
}

#[test]
fn module_exported_names_no_export_decl() {
    let module = SynModule {
        name: Some("Test".to_string()),
        export_specs: None,
        items: vec![
            binding("foo", "42"),
            SynItem::TypeAlias(SynTypeAlias {
                name: "MyInt".to_string(),
                params: vec![],
                ty: SynType::Var("Integer".to_string()),
            }),
        ],
    };
    let table = module_exported_names(&module, &vec![]).unwrap();
    let names = table.as_name_set();
    assert_eq!(names.len(), 2);
    assert!(names.contains("foo"));
    assert!(names.contains("MyInt"));
}

#[test]
fn module_exported_names_with_data_decl() {
    let module = SynModule {
        name: Some("Test".to_string()),
        export_specs: None,
        items: vec![SynItem::DataDecl(maybe_decl())],
    };
    let table = module_exported_names(&module, &vec![]).unwrap();
    let names = table.as_name_set();
    assert_eq!(names.len(), 3);
    assert!(names.contains("Maybe"));
    assert!(names.contains("Just"));
    assert!(names.contains("Nothing"));
}

#[test]
fn module_exported_names_with_explicit_exports() {
    let module = SynModule {
        name: Some("Test".to_string()),
        export_specs: None,
        items: vec![
            binding("foo", "42"),
            binding("bar", "43"),
            SynItem::Export(vec![SynExportSpec::Name("foo".to_string())]),
        ],
    };
    let table = module_exported_names(&module, &vec![]).unwrap();
    let names = table.as_name_set();
    assert_eq!(names.len(), 1);
    assert!(names.contains("foo"));
    assert!(!names.contains("bar"));
}

#[test]
fn module_exported_names_with_module_header_export_specs() {
    let module = SynModule {
        name: Some("M".to_string()),
        export_specs: Some(vec![SynExportSpec::Name("foo".to_string()), SynExportSpec::Name("bar".to_string())]),
        items: vec![binding("foo", "1"), binding("bar", "2"), binding("baz", "3")],
    };
    let table = module_exported_names(&module, &vec![]).unwrap();
    let names = table.as_name_set();
    assert_eq!(names.len(), 2, "Should export only foo and bar");
    assert!(names.contains("foo"));
    assert!(names.contains("bar"));
    assert!(!names.contains("baz"), "baz should NOT be exported");
}

#[test]
fn exported_types_bring_their_constructors_and_kinds() {
    let module = SynModule {
        name: Some("M".to_string()),
        export_specs: Some(vec![
            SynExportSpec::Type { name: "Maybe".to_string(), ctors: SynExportCtors::Listed(vec!["Just".to_string()]) },
            SynExportSpec::Name("Nothing".to_string()),
            SynExportSpec::Type { name: "Opt".to_string(), ctors: SynExportCtors::All },
        ]),
        items: vec![
            SynItem::Import(SynImport { module: "Prelude".to_string(), as_name: None, qualified: false, import_spec: None }),
            SynItem::DataDecl(maybe_decl()),
            SynItem::TypeAlias(SynTypeAlias {
                name: "Opt".to_string(),
                params: vec!["a".to_string()],
                ty: SynType::App(Box::new(SynType::Var("Prelude.Option".to_string())), vec![SynType::Var("a".to_string())]),
            }),
        ],
    };
    let prelude_items = vec![SynItem::DataDecl(SynDataDecl {
        name: "Option".to_string(),
        params: vec!["a".to_string()],
        ctors: vec![
            SynCtor { name: "Some".to_string(), args: vec![] },
            SynCtor { name: "None".to_string(), args: vec![] },
        ],
    })];
    let imported = vec![("Prelude".to_string(), prelude_items)];
    let table = module_exported_names(&module, &imported).unwrap();
    let mut expected = kscr_types::ExportTable::new();
    expected.insert("Maybe".to_string(), SymbolKind::Type);
    expected.insert("Just".to_string(), SymbolKind::Ctor);
    expected.insert("Nothing".to_string(), SymbolKind::Ctor);
    expected.insert("Opt".to_string(), SymbolKind::Type);
    expected.insert("Some".to_string(), SymbolKind::Ctor);
    expected.insert("None".to_string(), SymbolKind::Ctor);
    assert_eq!(table, expected);
}

#[test]
fn exporting_an_unknown_constructor_is_an_error() {
    let module = SynModule {
        name: Some("M".to_string()),
        export_specs: Some(vec![SynExportSpec::Type {
            name: "Maybe".to_string(),
            ctors: SynExportCtors::Listed(vec!["Just".to_string(), "Other".to_string()]),
        }]),
        items: vec![SynItem::DataDecl(maybe_decl())],
    };
    assert_eq!(
        module_exported_names(&module, &vec![]).err(),
        Some("export list references unknown constructor: Maybe(Other)".to_string())
    );
}
