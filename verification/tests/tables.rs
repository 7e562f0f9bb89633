use kscr_types::{
    get_ksif_rebuild_policy, hex_lower, ksif_rebuild_after_validation, ksif_rebuild_check, set_ksif_rebuild_policy,
    ksif_step, sha256_hex, ExportTable, KsifAction, KsifCheck, KsifEvent, KsifRebuildPolicy, KsifState, SymbolKind,
};

#[test]
fn export_table_as_name_set_works() {
    let mut table = ExportTable::new();
    table.insert("foo".to_string(), SymbolKind::Value);
    table.insert("Bar".to_string(), SymbolKind::Type);
    table.insert("Baz".to_string(), SymbolKind::Ctor);

    let names = table.as_name_set();
    assert_eq!(names.len(), 3);
    assert!(names.contains("foo"));
    assert!(names.contains("Bar"));
    assert!(names.contains("Baz"));
}

#[test]
fn export_table_insert_replaces_kind() {
    let mut table = ExportTable::new();
    table.insert("foo".to_string(), SymbolKind::Value);
    table.insert("foo".to_string(), SymbolKind::Class);
    table.extend(vec![("bar".to_string(), SymbolKind::TypeAlias), ("foo".to_string(), SymbolKind::Instance)]);
    let names = table.as_name_set();
    assert_eq!(names.len(), 2);
    assert!(names.contains("foo"));
    assert!(names.contains("bar"));
    assert!(ExportTable::new().as_name_set().is_empty());
}

#[test]
fn rebuild_policy_read_after_write() {
    let mut slot = KsifRebuildPolicy::default();
    assert!(!slot.force_rebuild && !slot.suppress_recursive_rebuild);
    let p = KsifRebuildPolicy { force_rebuild: true, suppress_recursive_rebuild: false };
    set_ksif_rebuild_policy(&mut slot, p);
    assert_eq!(get_ksif_rebuild_policy(&slot), p);
}

#[test]
fn hex_encoding() {
    assert_eq!(hex_lower(&[0x00, 0x0f, 0xa5, 0xff]), "000fa5ff");
    assert_eq!(hex_lower(&[]), "");
}

#[test]
fn sha256_of_known_inputs() {
    assert_eq!(
        sha256_hex(b""),
        "e3b0c44298fc1c149afbf4c8996fb92427ae41e4649b934ca495991b7852b855"
    );
    assert_eq!(
        sha256_hex(b"abc"),
        "ba7816bf8f01cfea414140de5dae2223b00361a396177a9cb410ff61f20015ad"
    );
}

#[test]
fn ksif_rebuild_decisions() {
    let default = KsifRebuildPolicy::default();
    let forced = KsifRebuildPolicy { force_rebuild: true, suppress_recursive_rebuild: false };
    let trusted = KsifRebuildPolicy { force_rebuild: false, suppress_recursive_rebuild: true };
    assert_eq!(ksif_rebuild_check(false, false, trusted), KsifCheck::Rebuild);
    assert_eq!(ksif_rebuild_check(true, true, trusted), KsifCheck::Rebuild);
    assert_eq!(ksif_rebuild_check(true, false, forced), KsifCheck::Rebuild);
    assert_eq!(ksif_rebuild_check(true, false, trusted), KsifCheck::Keep);
    assert_eq!(ksif_rebuild_check(true, false, default), KsifCheck::ValidateDependencies);
    assert!(!ksif_rebuild_after_validation(Some(true)));
    assert!(ksif_rebuild_after_validation(Some(false)));
    assert!(ksif_rebuild_after_validation(None));
}

#[test]
fn ksif_walk_detects_cycles_and_skips_finished_modules() {
    let st = KsifState::new();
    let (st, a) = ksif_step(&st, KsifEvent::Ensure("A".to_string()));
    assert_eq!(a, KsifAction::Visit("A".to_string()));
    let (st, a) = ksif_step(&st, KsifEvent::Ensure("B".to_string()));
    assert_eq!(a, KsifAction::Visit("B".to_string()));
    let (st, a) = ksif_step(&st, KsifEvent::Ensure("A".to_string()));
    assert_eq!(a, KsifAction::Fail("cyclic imports: A".to_string()));
    let (st, a) = ksif_step(&st, KsifEvent::Finish("B".to_string()));
    assert_eq!(a, KsifAction::Nothing);
    let (st, a) = ksif_step(&st, KsifEvent::Ensure("B".to_string()));
    assert_eq!(a, KsifAction::Nothing);
    let (st, _) = ksif_step(&st, KsifEvent::MarkDone("C".to_string()));
    let (_, a) = ksif_step(&st, KsifEvent::Ensure("C".to_string()));
    assert_eq!(a, KsifAction::Nothing);
}

#[test]
fn interface_file_walk_decisions() {
    use_ksif_decisions();
}

fn use_ksif_decisions() {
    assert_eq!(kscr_types::module_file_rel("Data.List.Extra"), "Data/List/Extra.ks");
    assert_eq!(kscr_types::module_file_rel("Main"), "Main.ks");
    assert_eq!(
        kscr_types::dep_ksif_candidates("Data.List"),
        vec![
            (true, "Data.List.ksif".to_string()),
            (false, "Data/List.ksif".to_string()),
            (false, "Data.List.ksif".to_string()),
            (false, "ksif_Data.List.ksif".to_string()),
        ]
    );
    assert_eq!(kscr_types::check_module_name("A.B", Some("A.B")), Ok(()));
    assert_eq!(
        kscr_types::check_module_name("A.B", Some("A.C")),
        Err("module name mismatch: import A.B but file declares module A.C".to_string())
    );
    assert_eq!(
        kscr_types::check_module_name("A.B", None),
        Err("module name mismatch: import A.B but file declares module <missing>".to_string())
    );
    assert_eq!(kscr_types::check_dependency_ksif("Lib", true, false), Ok(()));
    assert_eq!(kscr_types::check_dependency_ksif("Prelude", false, true), Ok(()));
    assert_eq!(
        kscr_types::check_dependency_ksif("Lib", false, false),
        Err("missing dependency ksif for import Lib (expected Lib.ksif); build it first or run without --no-ksif-rebuild-deps".to_string())
    );
}

#[test]
fn export_tables_compare_by_their_entries() {
    let mut a = ExportTable::new();
    a.insert("map".to_string(), SymbolKind::Value);
    a.insert("Maybe".to_string(), SymbolKind::Type);
    let mut b = ExportTable::new();
    b.insert("Maybe".to_string(), SymbolKind::Type);
    b.insert("map".to_string(), SymbolKind::Value);
    assert_eq!(a, b);
    let c = a.clone();
    assert_eq!(c, b);
    b.insert("map".to_string(), SymbolKind::Ctor);
    assert_ne!(a, b);
}
