use kscr_types::{
    unify_dbg, unify_goal_message, DefEvidence, ModuleName, NameHints, QualName, Ty, UnifyError, UnqualName,
};

fn con(s: &str) -> Ty {
    Ty::Con(s.to_string())
}

fn qn(m: &str, n: &str) -> QualName {
    QualName { module: ModuleName(m.to_string()), name: UnqualName(n.to_string()) }
}

#[test]
fn unify_dbg_passes_success_through() {
    let h = NameHints::default();
    let s = unify_dbg(Ty::Var(0), con("Integer"), "ctx", &h, &vec![], None, None).unwrap();
    assert_eq!(s.get(&0), Some(&con("Integer")));
}

#[test]
fn unify_dbg_reports_goal_without_evidence() {
    let h = NameHints::default();
    let e = unify_dbg(con("Integer"), con("Bool"), "infer_expr_if:cond", &h, &vec![], None, None).unwrap_err();
    assert_eq!(
        e,
        unify_goal_message(UnifyError::CannotUnify, "infer_expr_if:cond", &con("Integer"), &con("Bool"), "", "")
    );
    assert!(e.contains("(unify goal: infer_expr_if:cond: here = Integer, other = Bool)"));
}

#[test]
fn unify_dbg_points_at_definition_sites() {
    let mut h = NameHints::default();
    h.type_ctor.push((UnqualName("Maybe".to_string()), qn("Prelude", "Maybe")));
    let ev = DefEvidence {
        type_ctor: vec![("Prelude.Maybe".to_string(), ("std/Prelude.ks".to_string(), 5))],
        type_alias: vec![],
        sources: vec![("std/Prelude.ks".to_string(), "data\nMaybe a = Nothing | Just a\n".to_string())],
    };
    let e = unify_dbg(con("Maybe"), con("Bool"), "g", &h, &vec![], Some(&ev), None).unwrap_err();
    let want = unify_goal_message(
        UnifyError::CannotUnify,
        "g",
        &con("Maybe"),
        &con("Bool"),
        " (hint: type ctor `Maybe` resolves to `Prelude.Maybe`)",
        "\nnote: type ctor `Maybe` resolves to `Prelude.Maybe` at std/Prelude.ks:2:1",
    );
    assert_eq!(e, want);
}

#[test]
fn unify_dbg_falls_back_to_local_aliases_and_prelude_scan() {
    let mut h = NameHints::default();
    h.type_alias_rhs_unqual.push((UnqualName("Text".to_string()), UnqualName("String".to_string())));
    let ev = DefEvidence {
        type_ctor: vec![],
        type_alias: vec![],
        sources: vec![("A.ks".to_string(), "type Text = String\n".to_string())],
    };
    let a = Ty::List(Box::new(con("Char")));
    let prelude = Some(("std/Prelude.ks", "module Prelude\ntype String = [Char]\n"));
    let e = unify_dbg(a.clone(), con("Integer"), "g", &h, &vec![], Some(&ev), prelude).unwrap_err();
    let want = unify_goal_message(
        UnifyError::CannotUnify,
        "g",
        &a,
        &con("Integer"),
        "",
        "\nnote: type alias `Text` is defined locally at A.ks:1:1\
         \nnote: type alias `Text` expands to `Prelude.String`\
         \nnote: type alias `String` resolves to `Prelude.String` at std/Prelude.ks:2:1",
    );
    assert_eq!(e, want);
}
