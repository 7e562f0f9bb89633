use kscr_types::{check_case_adt_exhaustive, def_loc, local_alias_notes, Ty};

fn data_env() -> Vec<(String, Vec<String>)> {
    vec![
        ("Color".to_string(), vec!["Red".to_string(), "Green".to_string(), "Blue".to_string()]),
        ("Prelude.Maybe".to_string(), vec!["Prelude.Nothing".to_string(), "Prelude.Just".to_string()]),
        ("Maybe".to_string(), vec!["Prelude.Nothing".to_string(), "Prelude.Just".to_string()]),
    ]
}

fn alts(xs: &[&str]) -> Vec<String> {
    xs.iter().map(|x| x.to_string()).collect()
}

#[test]
fn adt_case_reports_missing_constructors_in_order() {
    let t = Ty::Con("Color".to_string());
    let r = check_case_adt_exhaustive(&data_env(), &t, &alts(&["ctor:Green"])).unwrap();
    assert_eq!(r, Some(Err("non-exhaustive case on Color: missing constructors: Red, Blue".to_string())));
    let ok = check_case_adt_exhaustive(&data_env(), &t, &alts(&["ctor:Blue", "ctor:Red", "ctor:Green"])).unwrap();
    assert_eq!(ok, Some(Ok(())));
}

#[test]
fn adt_case_matches_qualified_constructors_by_last_segment() {
    let t = Ty::App { head: Box::new(Ty::Con("Prelude.Maybe".to_string())), args: vec![Ty::Var(0)] };
    let r = check_case_adt_exhaustive(&data_env(), &t, &alts(&["ctor:Just"])).unwrap();
    assert_eq!(r, Some(Err("non-exhaustive case on Prelude.Maybe: missing constructors: Prelude.Nothing".to_string())));
}

#[test]
fn adt_case_is_lenient_where_it_cannot_tell() {
    let unqualified = Ty::Con("Maybe".to_string());
    assert_eq!(check_case_adt_exhaustive(&data_env(), &unqualified, &alts(&[])).unwrap(), Some(Ok(())));
    let unknown = Ty::Con("Tree".to_string());
    assert_eq!(check_case_adt_exhaustive(&data_env(), &unknown, &alts(&[])).unwrap(), Some(Ok(())));
    let var_head = Ty::App { head: Box::new(Ty::Var(3)), args: vec![] };
    assert_eq!(check_case_adt_exhaustive(&data_env(), &var_head, &alts(&[])).unwrap(), Some(Ok(())));
    let list = Ty::List(Box::new(Ty::Var(0)));
    assert_eq!(check_case_adt_exhaustive(&data_env(), &list, &alts(&[])).unwrap(), None);
}

#[test]
fn def_loc_counts_lines_and_characters() {
    assert_eq!(def_loc("ab\ncd\nxyz", 7), (3, 2));
    assert_eq!(def_loc("ab\ncd\nxyz", 0), (1, 1));
    assert_eq!(def_loc("ab\ncd\nxyz", 3), (2, 1));
    let s = "é\nαβγ";
    assert_eq!(def_loc(s, 7), (2, 3));
    assert_eq!(def_loc(s, 100), (2, 4));
    assert_eq!(def_loc("", 5), (1, 1));
}

#[test]
fn local_alias_notes_scan_lines() {
    let src = "module Main\n  type Name = String\ntype  Pair a = (a, a)\r\ntype X.Y = Z\ntype = bad\n\ttype Text = [Char]\n";
    let notes = local_alias_notes(&[("Main.ks".to_string(), src.to_string())]);
    assert_eq!(
        notes,
        "\nnote: type alias `Name` is defined locally at Main.ks:2:3\
         \nnote: type alias `Pair a` is defined locally at Main.ks:3:1\
         \nnote: type alias `Text` is defined locally at Main.ks:6:2"
    );
}

#[test]
fn local_alias_notes_number_repeated_lines_by_first_and_join_sources() {
    let a = ("A.ks".to_string(), "type A = B\nx\ntype A = B".to_string());
    let b = ("B.ks".to_string(), "typeC = D\ntype C=D".to_string());
    assert_eq!(
        local_alias_notes(&[a, b]),
        "\nnote: type alias `A` is defined locally at A.ks:1:1\
         \nnote: type alias `A` is defined locally at A.ks:1:1\
         \nnote: type alias `C` is defined locally at B.ks:2:1"
    );
    assert_eq!(local_alias_notes(&[]), "");
    assert_eq!(local_alias_notes(&[("E.ks".to_string(), "no aliases\n".to_string())]), "");
}

fn hints_with(type_alias: &[(&str, &str, &str)], rhs: &[(&str, &str)]) -> kscr_types::NameHints {
    let mut h = kscr_types::NameHints::default();
    h.type_alias = type_alias
        .iter()
        .map(|(k, m, n)| {
            (
                kscr_types::UnqualName(k.to_string()),
                kscr_types::QualName {
                    module: kscr_types::ModuleName(m.to_string()),
                    name: kscr_types::UnqualName(n.to_string()),
                },
            )
        })
        .collect();
    h.type_alias_rhs_unqual = rhs
        .iter()
        .map(|(a, b)| (kscr_types::UnqualName(a.to_string()), kscr_types::UnqualName(b.to_string())))
        .collect();
    h
}

#[test]
fn string_alias_chain_notes() {
    let h = hints_with(&[], &[("Text", "String"), ("Num", "Integer"), ("Name", "String")]);
    assert_eq!(
        kscr_types::string_alias_chain_note(&h, None),
        "\nnote: type alias `Text` expands to `Prelude.String`\nnote: type alias `Name` expands to `Prelude.String`"
    );
    let h2 = hints_with(&[("String", "Main", "String")], &[("Text", "String")]);
    assert_eq!(
        kscr_types::string_alias_chain_note(&h2, Some(("std/Prelude.ks", 12, 1))),
        "\nnote: type alias `Text` expands to `Prelude.String`\nnote: type alias `String` resolves to `Prelude.String` at std/Prelude.ks:12:1"
    );
    let h3 = hints_with(&[("String", "Base", "String")], &[("Text", "String")]);
    assert_eq!(
        kscr_types::string_alias_chain_note(&h3, None),
        "\nnote: type alias `Text` expands to `Base.String`"
    );
    assert_eq!(kscr_types::string_alias_chain_note(&hints_with(&[], &[]), None), "");
}

#[test]
fn string_alias_definition_line() {
    let src = "module Prelude\n\ntype Text = String\n  type String = [Char]\ntype String = X\n";
    assert_eq!(kscr_types::string_alias_def_line(src), Some((4, 3)));
    assert_eq!(kscr_types::string_alias_def_line("type Strings = [Char]\n"), None);
}
