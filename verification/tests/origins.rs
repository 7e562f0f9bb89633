use kscr_types::{
    collect_unqualified_name_hints_from_imported, format_unknown_ctor_name_hint, HintItem, HintModule, ModuleName,
    QualName, UnqualName,
};

fn alias(name: &str, rhs: Option<&str>) -> HintItem {
    HintItem::TypeAlias { name: name.to_string(), rhs: rhs.map(|r| r.to_string()) }
}

fn data(name: &str, ctors: &[&str]) -> HintItem {
    HintItem::DataDecl { name: name.to_string(), ctors: ctors.iter().map(|c| c.to_string()).collect() }
}

fn entry(k: &str, m: &str, n: &str) -> (UnqualName, QualName) {
    (
        UnqualName(k.to_string()),
        QualName { module: ModuleName(m.to_string()), name: UnqualName(n.to_string()) },
    )
}

fn sample_module() -> HintModule {
    HintModule {
        name: Some("Data.Foo".to_string()),
        items: vec![
            alias("Maybe", Some("Prelude.Maybe")),
            alias("Text", Some("String")),
            alias("id", Some("Util.id")),
            HintItem::Other,
            data("Prelude.Either", &["Prelude.Left", "Right"]),
            data("Box", &[]),
            data("Other.Maybe", &[]),
        ],
    }
}

#[test]
fn module_items_give_name_hints() {
    let hints = collect_unqualified_name_hints_from_imported(&sample_module(), None);
    assert_eq!(
        hints.type_ctor,
        vec![
            entry("Maybe", "Prelude", "Maybe"),
            entry("Either", "Prelude", "Either"),
            entry("Box", "Data.Foo", "Box"),
        ]
    );
    assert_eq!(
        hints.type_alias,
        vec![
            entry("Maybe", "Data.Foo", "Maybe"),
            entry("Text", "Data.Foo", "Text"),
            entry("id", "Util", "id"),
        ]
    );
    assert_eq!(hints.value_ctor, vec![entry("Left", "Prelude", "Left")]);
    assert_eq!(
        hints.type_alias_rhs_unqual,
        vec![(UnqualName("Text".to_string()), UnqualName("String".to_string()))]
    );
}

#[test]
fn prelude_hints_fill_only_missing_names() {
    let prelude = HintModule {
        name: Some("Prelude".to_string()),
        items: vec![data("Bool", &["True"]), data("Box", &[]), alias("Maybe", Some("Prelude.Maybe"))],
    };
    let hints = collect_unqualified_name_hints_from_imported(&sample_module(), Some(&prelude));
    assert_eq!(
        hints.type_ctor,
        vec![
            entry("Maybe", "Prelude", "Maybe"),
            entry("Either", "Prelude", "Either"),
            entry("Box", "Data.Foo", "Box"),
            entry("Bool", "Prelude", "Bool"),
        ]
    );
    assert_eq!(hints.value_ctor, vec![entry("Left", "Prelude", "Left")]);
    assert_eq!(
        format_unknown_ctor_name_hint("Either", &hints),
        " (hint: `Either` resolves to `Prelude.Either`)"
    );
}

#[test]
fn unnamed_module_is_main_and_prelude_entries_replace() {
    let m = HintModule { name: None, items: vec![data("Pair", &[]), data("Pair", &[])] };
    let hints = collect_unqualified_name_hints_from_imported(&m, None);
    assert_eq!(hints.type_ctor, vec![entry("Pair", "Main", "Pair")]);
    let p = HintModule { name: Some("Prelude".to_string()), items: vec![data("Pair", &[]), data("Pair", &[])] };
    let hints = collect_unqualified_name_hints_from_imported(&p, None);
    assert_eq!(
        hints.type_ctor,
        vec![entry("Pair", "Prelude", "Pair"), entry("Pair", "Prelude", "Pair")]
    );
}
