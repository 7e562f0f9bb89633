use kscr_types::{apply, compose, ftv_ty, unify, InferCtx, Subst, Ty, UnifyError};
use std::collections::HashSet;

fn con(name: &str) -> Ty {
    Ty::Con(name.to_string())
}

fn func(a: Ty, b: Ty) -> Ty {
    Ty::Func(Box::new(a), Box::new(b))
}

fn rec(fields: &[(&str, Ty)]) -> Vec<(String, Ty)> {
    fields.iter().map(|(k, t)| (k.to_string(), t.clone())).collect()
}

#[test]
fn unify_var_with_con() {
    let mut cx = InferCtx::default();
    let a = cx.fresh();
    let subst = unify(a.clone(), Ty::Con("Integer".to_string())).unwrap();
    assert_eq!(apply(&subst, a), Ty::Con("Integer".to_string()));
}

#[test]
fn unify_func() {
    let mut cx = InferCtx::default();
    let a = cx.fresh();
    let b = cx.fresh();

    let t1 = Ty::Func(Box::new(a.clone()), Box::new(Ty::Con("Bool".to_string())));
    let t2 = Ty::Func(
        Box::new(Ty::Con("Integer".to_string())),
        Box::new(b.clone()),
    );

    let subst = unify(t1, t2).unwrap();
    assert_eq!(apply(&subst, a), Ty::Con("Integer".to_string()));
    assert_eq!(apply(&subst, b), Ty::Con("Bool".to_string()));
}

#[test]
fn occurs_check_rejects_recursive() {
    let mut cx = InferCtx::default();
    let a = cx.fresh();
    let t = Ty::List(Box::new(a.clone()));
    assert!(unify(a, t).is_err());
}

#[test]
fn fresh_variables_count_up() {
    let mut cx = InferCtx::default();
    assert_eq!(cx.fresh(), Ty::Var(0));
    assert_eq!(cx.fresh(), Ty::Var(1));
    assert_eq!(cx.fresh(), Ty::Var(2));
}

#[test]
fn unify_applied_sides_are_equal() {
    let t1 = func(Ty::Var(0), Ty::List(Box::new(Ty::Var(1))));
    let t2 = func(Ty::Var(1), Ty::List(Box::new(con("Char"))));
    let s = unify(t1.clone(), t2.clone()).unwrap();
    let r1 = apply(&s, t1);
    let r2 = apply(&s, t2);
    assert_eq!(r1, r2);
    assert_eq!(r1, func(con("Char"), Ty::List(Box::new(con("Char")))));
}

#[test]
fn unify_same_variable_binds_nothing() {
    let s = unify(Ty::Var(3), Ty::Var(3)).unwrap();
    assert!(s.is_empty());
}

#[test]
fn unify_identical_types_binds_nothing() {
    let t = func(con("Integer"), Ty::Tuple(vec![con("Bool"), con("Char")]));
    let s = unify(t.clone(), t).unwrap();
    assert!(s.is_empty());
}

#[test]
fn unify_numeric_backend_names() {
    assert!(unify(con("Integer"), con("i64")).is_ok());
    assert!(unify(con("i8"), con("Prelude.i32")).is_ok());
    assert!(unify(con("Float64"), con("f32")).is_ok());
    assert_eq!(unify(con("f32"), con("f64")).unwrap_err(), UnifyError::CannotUnify);
    assert!(unify(con("i32"), con("i64")).is_ok());
    assert!(unify(con("f32"), con("f32")).is_ok());
    assert_eq!(unify(con("Integer"), con("f64")).unwrap_err(), UnifyError::CannotUnify);
    assert_eq!(unify(con("i"), con("Integer")).unwrap_err(), UnifyError::CannotUnify);
    assert_eq!(unify(con("i65536"), con("Integer")).unwrap_err(), UnifyError::CannotUnify);
    assert!(unify(con("i65535"), con("Integer")).is_ok());
}

#[test]
fn unify_error_kinds() {
    assert_eq!(
        unify(Ty::Tuple(vec![con("A")]), Ty::Tuple(vec![con("A"), con("B")])).unwrap_err(),
        UnifyError::TupleArity
    );
    assert_eq!(
        unify(Ty::Record(rec(&[("x", con("A"))])), Ty::Record(vec![])).unwrap_err(),
        UnifyError::RecordArity
    );
    assert_eq!(
        unify(Ty::Record(rec(&[("x", con("A"))])), Ty::Record(rec(&[("y", con("A"))]))).unwrap_err(),
        UnifyError::RecordFieldMismatch
    );
    let app1 = Ty::App { head: Box::new(con("Maybe")), args: vec![con("A")] };
    let app2 = Ty::App { head: Box::new(con("Maybe")), args: vec![] };
    assert_eq!(unify(app1, app2).unwrap_err(), UnifyError::AppArity);
    assert_eq!(
        unify(Ty::Var(0), func(Ty::Var(0), con("A"))).unwrap_err(),
        UnifyError::OccursCheck
    );
    assert_eq!(unify(con("A"), con("B")).unwrap_err(), UnifyError::CannotUnify);
    assert_eq!(unify(con("A"), Ty::List(Box::new(con("A")))).unwrap_err(), UnifyError::CannotUnify);
}

#[test]
fn unify_error_messages() {
    assert_eq!(UnifyError::TupleArity.message(), "tuple arity mismatch");
    assert_eq!(UnifyError::RecordArity.message(), "record arity mismatch");
    assert_eq!(UnifyError::RecordFieldMismatch.message(), "record field mismatch");
    assert_eq!(UnifyError::AppArity.message(), "type application arity mismatch");
    assert_eq!(UnifyError::OccursCheck.message(), "occurs check");
    assert_eq!(UnifyError::CannotUnify.message(), "cannot unify");
}

#[test]
fn unify_records_by_field_name() {
    let a = Ty::Record(rec(&[("x", Ty::Var(0)), ("y", con("Bool"))]));
    let b = Ty::Record(rec(&[("y", Ty::Var(1)), ("x", con("Integer"))]));
    let s = unify(a.clone(), b.clone()).unwrap();
    assert_eq!(apply(&s, Ty::Var(0)), con("Integer"));
    assert_eq!(apply(&s, Ty::Var(1)), con("Bool"));
}

#[test]
fn unify_open_record_takes_rest() {
    let open = Ty::RecordOpen(rec(&[("a", Ty::Var(0))]), Box::new(Ty::Var(1)));
    let closed = Ty::Record(rec(&[("c", con("Char")), ("a", con("Integer")), ("b", con("Bool"))]));
    let s = unify(open, closed).unwrap();
    assert_eq!(apply(&s, Ty::Var(0)), con("Integer"));
    assert_eq!(
        apply(&s, Ty::Var(1)),
        Ty::Record(rec(&[("b", con("Bool")), ("c", con("Char"))]))
    );
}

#[test]
fn unify_open_record_missing_field() {
    let open = Ty::RecordOpen(rec(&[("z", Ty::Var(0))]), Box::new(Ty::Var(1)));
    let closed = Ty::Record(rec(&[("a", con("Integer"))]));
    assert_eq!(unify(closed, open).unwrap_err(), UnifyError::RecordFieldMismatch);
}

#[test]
fn unify_two_open_records() {
    let a = Ty::RecordOpen(rec(&[("a", Ty::Var(0)), ("b", con("Bool"))]), Box::new(Ty::Var(5)));
    let b = Ty::RecordOpen(rec(&[("a", con("Char")), ("c", con("Unit"))]), Box::new(Ty::Var(6)));
    let s = unify(a, b).unwrap();
    assert_eq!(apply(&s, Ty::Var(0)), con("Char"));
    assert_eq!(apply(&s, Ty::Var(5)), Ty::Var(6));
}

#[test]
fn apply_follows_chains() {
    let mut s: Subst = Subst::new();
    s.insert(0, Ty::List(Box::new(Ty::Var(1))));
    s.insert(1, con("Char"));
    assert_eq!(apply(&s, Ty::Var(0)), Ty::List(Box::new(con("Char"))));
    assert_eq!(apply(&s, Ty::Var(2)), Ty::Var(2));
}

#[test]
fn apply_twice_is_apply_once() {
    let mut s: Subst = Subst::new();
    s.insert(0, func(Ty::Var(1), Ty::Var(2)));
    s.insert(2, con("Bool"));
    let t = Ty::Tuple(vec![Ty::Var(0), Ty::Var(1)]);
    let once = apply(&s, t);
    assert_eq!(apply(&s, once.clone()), once);
}

#[test]
fn compose_applies_first_to_second() {
    let mut s1: Subst = Subst::new();
    s1.insert(1, con("Bool"));
    let mut s2: Subst = Subst::new();
    s2.insert(0, Ty::List(Box::new(Ty::Var(1))));
    s2.insert(1, con("Char"));
    let c = compose(&s1, &s2);
    assert_eq!(c.len(), 2);
    assert_eq!(c.get(&0), Some(&Ty::List(Box::new(con("Bool")))));
    assert_eq!(c.get(&1), Some(&con("Bool")));
}

#[test]
fn free_type_variables() {
    let t = Ty::App {
        head: Box::new(Ty::Var(7)),
        args: vec![
            Ty::Record(rec(&[("x", Ty::Var(1))])),
            Ty::RecordOpen(vec![], Box::new(Ty::Var(2))),
            func(con("A"), Ty::Var(1)),
        ],
    };
    let expected: HashSet<u32> = [7, 1, 2].into_iter().collect();
    assert_eq!(ftv_ty(&t), expected);
    assert!(ftv_ty(&con("A")).is_empty());
}

#[test]
fn unifier_makes_plain_types_equal() {
    let a = Ty::List(Box::new(func(Ty::Var(0), con("Integer"))));
    let b = Ty::List(Box::new(func(con("Bool"), Ty::Var(1))));
    let s = unify(a.clone(), b.clone()).unwrap();
    assert_eq!(apply(&s, a.clone()), apply(&s, b.clone()));
    assert_eq!(
        apply(&s, a),
        Ty::List(Box::new(func(con("Bool"), con("Integer"))))
    );
    let c = Ty::Tuple(vec![Ty::Var(2), Ty::Var(2)]);
    let d = Ty::Tuple(vec![con("Char"), Ty::Var(3)]);
    let s2 = unify(c.clone(), d.clone()).unwrap();
    assert_eq!(apply(&s2, c), apply(&s2, d));
}

#[test]
fn unify_in_only_adds_bindings() {
    use_unify_in();
}

fn use_unify_in() {
    let mut s: Subst = Subst::new();
    kscr_types::unify_in(&mut s, Ty::Var(0), con("Integer")).unwrap();
    let before = s.clone();
    kscr_types::unify_in(&mut s, func(Ty::Var(1), Ty::Var(0)), func(con("Bool"), Ty::Var(2))).unwrap();
    for (k, v) in before.iter() {
        assert_eq!(s.get(k), Some(v));
    }
    assert_eq!(apply(&s, Ty::Var(1)), con("Bool"));
    assert_eq!(apply(&s, Ty::Var(2)), con("Integer"));
    assert_eq!(kscr_types::unify_in(&mut s, Ty::Var(1), con("Char")), Err(UnifyError::CannotUnify));
}
