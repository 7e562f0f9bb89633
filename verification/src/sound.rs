//! Soundness of unification: a substitution that unification returns makes
//! the two types agree.
use vstd::prelude::*;
use crate::numeric::numeric_compatible_spec;
use crate::agree::{
    agree, agree_lookup, agree_seq, lemma_agree_lift, lemma_agree_lookup_index, lemma_agree_refl,
    lemma_agree_seq_index, lookup_ok,
};
use crate::fields::{
    dedup_last, has_key, last_val, lemma_dedup_entries, lemma_dedup_map, lemma_dedup_sub, lemma_has_key_map,
    lemma_residual_map, residual,
};
use crate::subst::{
    apply_fields_v, apply_fn, apply_seq_v, apply_v, lemma_apply_compose, lemma_apply_idempotent, lemma_apply_unfold,
    lemma_apply_resolved_id, lemma_apply_v_fuel, lemma_ftv_reach, lemma_occurs_fuel, lemma_wf_insert, lemma_wf_resolvable, resolvable,
    resolved, settle_fuel, wf, SubstV,
};
use crate::ty::{field_sizes, ftv, lemma_field_sizes_elem, lemma_size_pos, lemma_sizes_elem, size, sizes, FieldsV, TyV};
use crate::unify::{and_then_f, bind_v, lemma_unify_fuel, unify_f, unify_lookup_f, unify_seq_f, unify_v, UnifyError};

verus! {

/// When `r` is a success from `s`, it extends `s` and makes `a` and `b`
/// agree.
pub open spec fn sound_result(s: SubstV, r: Option<Result<SubstV, UnifyError>>, a: TyV, b: TyV) -> bool {
    match r {
        Some(Ok(s2)) => wf(s2) && s.submap_of(s2) && agree(apply_v(s2, a), apply_v(s2, b)),
        _ => true,
    }
}

/// When `r` is a success from `s`, it extends `s` and makes the elements of
/// `xs` and `ys` agree pairwise.
pub open spec fn seq_sound(s: SubstV, r: Option<Result<SubstV, UnifyError>>, xs: Seq<TyV>, ys: Seq<TyV>) -> bool {
    match r {
        Some(Ok(s2)) => wf(s2) && s.submap_of(s2) && forall|i: int|
            0 <= i < xs.len() && i < ys.len() ==> #[trigger] agree(apply_v(s2, xs[i]), apply_v(s2, ys[i])),
        _ => true,
    }
}

/// Under `s2`, the field `e` agrees with the last field of its name in `ys`
/// (which must exist when `strict`).
pub open spec fn entry_sound(s2: SubstV, e: (Seq<char>, TyV), ys: FieldsV, strict: bool) -> bool {
    &&& strict ==> has_key(ys, e.0)
    &&& has_key(ys, e.0) ==> agree(apply_v(s2, e.1), apply_v(s2, last_val(ys, e.0)))
}

pub open spec fn lookup_sound(s: SubstV, r: Option<Result<SubstV, UnifyError>>, xs: FieldsV, ys: FieldsV, strict: bool) -> bool {
    match r {
        Some(Ok(s2)) => wf(s2) && s.submap_of(s2) && forall|i: int|
            0 <= i < xs.len() ==> #[trigger] entry_sound(s2, xs[i], ys, strict),
        _ => true,
    }
}

proof fn lemma_submap_trans(a: SubstV, b: SubstV, c: SubstV)
    requires
        a.submap_of(b),
        b.submap_of(c),
    ensures
        a.submap_of(c),
{
    assert forall|k: u32| #[trigger] a.dom().contains(k) implies c.dom().contains(k) && a[k] == c[k] by {
        assert(b.dom().contains(k));
    }
}

/// Binding the variable that `x` resolves to under `s` to what `y` resolves
/// to makes them equal.
proof fn lemma_sound_bind(s: SubstV, x: TyV, y: TyV)
    requires
        wf(s),
        apply_v(s, x) is Var,
        resolved(s, apply_v(s, x)),
        resolved(s, apply_v(s, y)),
    ensures
        match bind_v(s, apply_v(s, x)->Var_0, apply_v(s, y)) {
            Ok(s2) => wf(s2) && s.submap_of(s2) && apply_v(s2, x) == apply_v(s2, y),
            Err(_) => true,
        },
{
    let v = apply_v(s, x)->Var_0;
    let t = apply_v(s, y);
    if bind_v(s, v, t) is Ok {
        if t == TyV::Var(v) {
            assert(s.submap_of(s));
        } else {
            assert(ftv(TyV::Var(v)).contains(v));
            assert(!s.contains_key(v));
            lemma_wf_resolvable(s, t);
            lemma_occurs_fuel(s, settle_fuel(s, t), v, t);
            if ftv(t).contains(v) {
                lemma_ftv_reach(s, settle_fuel(s, t), v, t);
            }
            lemma_wf_insert(s, v, t);
            let s2 = s.insert(v, t);
            assert(s.submap_of(s2));
            lemma_apply_compose(s, s2, x);
            lemma_apply_compose(s, s2, y);
            lemma_wf_resolvable(s2, TyV::Var(v));
            lemma_apply_unfold(s2, TyV::Var(v));
        }
    }
}

/// Expresses `apply_v(s2, t)` through what `t` resolves to under `s`.
proof fn lemma_reapply(s: SubstV, s2: SubstV, t: TyV)
    requires
        wf(s),
        wf(s2),
        s.submap_of(s2),
    ensures
        apply_v(s2, t) == apply_v(s2, apply_v(s, t)),
        resolvable(s2, apply_v(s, t)),
{
    lemma_apply_compose(s, s2, t);
    lemma_wf_resolvable(s2, apply_v(s, t));
}

/// Unification from a well-formed substitution, when it succeeds, returns a
/// well-formed extension of it under which the two sides agree.
pub proof fn lemma_unify_f_sound(f: nat, s: SubstV, a: TyV, b: TyV)
    requires
        wf(s),
    ensures
        sound_result(s, unify_f(f, s, a, b), a, b),
    decreases f, 2nat,
{
    if f > 0 {
        lemma_wf_resolvable(s, a);
        lemma_wf_resolvable(s, b);
        lemma_apply_idempotent(s, a);
        lemma_apply_idempotent(s, b);
        let a1 = apply_v(s, a);
        let b1 = apply_v(s, b);
        if a1 is Var {
            lemma_sound_bind(s, a, b);
            if let Ok(s2) = bind_v(s, a1->Var_0, b1) {
                lemma_agree_refl(apply_v(s2, a));
            }
        } else if b1 is Var {
            lemma_sound_bind(s, b, a);
            if let Ok(s2) = bind_v(s, b1->Var_0, a1) {
                lemma_agree_refl(apply_v(s2, a));
            }
        } else {
            match (a1, b1) {
                (TyV::Con(x), TyV::Con(y)) => {
                    assert(s.submap_of(s));
                },
                (TyV::List(_), TyV::List(_)) => {
                    lemma_sound_list(f, s, a, b);
                },
                (TyV::Tuple(_), TyV::Tuple(_)) => {
                    lemma_sound_tuple(f, s, a, b);
                },
                (TyV::Record(_), TyV::Record(_)) => {
                    lemma_sound_records(f, s, a, b);
                },
                (TyV::RecordOpen(req, rest), TyV::Record(act)) => {
                    lemma_sound_open_closed(f, s, req, *rest, act);
                    lemma_sound_open_closed_sides(f, s, a, b, req, *rest, act);
                },
                (TyV::Record(act), TyV::RecordOpen(req, rest)) => {
                    lemma_sound_open_closed(f, s, req, *rest, act);
                    lemma_sound_open_closed_sides(f, s, b, a, req, *rest, act);
                },
                (TyV::RecordOpen(_, _), TyV::RecordOpen(_, _)) => {
                    lemma_sound_open_open(f, s, a, b);
                },
                (TyV::App(_, _), TyV::App(_, _)) => {
                    lemma_sound_app(f, s, a, b);
                },
                (TyV::Func(_, _), TyV::Func(_, _)) => {
                    lemma_sound_func(f, s, a, b);
                },
                _ => {},
            }
        }
    }
}

proof fn lemma_sound_list(f: nat, s: SubstV, a: TyV, b: TyV)
    requires
        f > 0,
        wf(s),
        apply_v(s, a) is List,
        apply_v(s, b) is List,
        unify_f(f, s, a, b) == unify_f((f - 1) as nat, s, *apply_v(s, a)->List_0, *apply_v(s, b)->List_0),
    ensures
        sound_result(s, unify_f(f, s, a, b), a, b),
    decreases f, 1nat,
{
    let x = *apply_v(s, a)->List_0;
    let y = *apply_v(s, b)->List_0;
    lemma_unify_f_sound((f - 1) as nat, s, x, y);
    if let Some(Ok(s2)) = unify_f((f - 1) as nat, s, x, y) {
        lemma_reapply(s, s2, a);
        lemma_apply_unfold(s2, apply_v(s, a));
        lemma_reapply(s, s2, b);
        lemma_apply_unfold(s2, apply_v(s, b));
    }
}

proof fn lemma_sound_tuple(f: nat, s: SubstV, a: TyV, b: TyV)
    requires
        f > 0,
        wf(s),
        apply_v(s, a) is Tuple,
        apply_v(s, b) is Tuple,
        unify_f(f, s, a, b) == (if apply_v(s, a)->Tuple_0.len() != apply_v(s, b)->Tuple_0.len() {
            Some(Err(UnifyError::TupleArity))
        } else {
            unify_seq_f((f - 1) as nat, s, apply_v(s, a)->Tuple_0, apply_v(s, b)->Tuple_0)
        }),
    ensures
        sound_result(s, unify_f(f, s, a, b), a, b),
    decreases f, 1nat,
{
    let xs = apply_v(s, a)->Tuple_0;
    let ys = apply_v(s, b)->Tuple_0;
    if xs.len() == ys.len() {
        lemma_unify_seq_f_sound((f - 1) as nat, s, xs, ys);
        if let Some(Ok(s2)) = unify_seq_f((f - 1) as nat, s, xs, ys) {
            lemma_reapply(s, s2, a);
            lemma_apply_unfold(s2, apply_v(s, a));
            lemma_reapply(s, s2, b);
            lemma_apply_unfold(s2, apply_v(s, b));
            lemma_agree_seq_index(apply_seq_v(s2, xs), apply_seq_v(s2, ys));
            assert forall|i: int| 0 <= i < xs.len() implies #[trigger] agree(
                apply_seq_v(s2, xs)[i],
                apply_seq_v(s2, ys)[i],
            ) by {
                assert(agree(apply_v(s2, xs[i]), apply_v(s2, ys[i])));
            }
        }
    }
}

/// Lookups that succeeded give agreement of the mapped fields.
proof fn lemma_entries_agree(s2: SubstV, xs: FieldsV, ys: FieldsV, strict: bool)
    requires
        forall|i: int| 0 <= i < xs.len() ==> #[trigger] entry_sound(s2, xs[i], ys, strict),
    ensures
        agree_lookup(apply_fields_v(s2, xs), apply_fields_v(s2, ys), strict),
{
    let xs2 = apply_fields_v(s2, xs);
    let ys2 = apply_fields_v(s2, ys);
    lemma_agree_lookup_index(xs2, ys2, strict);
    assert forall|i: int| 0 <= i < xs2.len() implies lookup_ok(#[trigger] xs2[i], ys2, strict) by {
        assert(entry_sound(s2, xs[i], ys, strict));
        lemma_has_key_map(ys, apply_fn(s2), xs[i].0);
    }
}

proof fn lemma_sound_records(f: nat, s: SubstV, a: TyV, b: TyV)
    requires
        f > 0,
        wf(s),
        apply_v(s, a) is Record,
        apply_v(s, b) is Record,
        unify_f(f, s, a, b) == ({
            let xs = apply_v(s, a)->Record_0;
            let ys = apply_v(s, b)->Record_0;
            if xs.len() != ys.len() {
                Some(Err(UnifyError::RecordArity))
            } else if dedup_last(xs).len() != dedup_last(ys).len() {
                Some(Err(UnifyError::RecordFieldMismatch))
            } else {
                unify_lookup_f((f - 1) as nat, s, dedup_last(xs), ys, true)
            }
        }),
    ensures
        sound_result(s, unify_f(f, s, a, b), a, b),
    decreases f, 1nat,
{
    let xs = apply_v(s, a)->Record_0;
    let ys = apply_v(s, b)->Record_0;
    if xs.len() == ys.len() && dedup_last(xs).len() == dedup_last(ys).len() {
        lemma_unify_lookup_f_sound((f - 1) as nat, s, dedup_last(xs), ys, true);
        if let Some(Ok(s2)) = unify_lookup_f((f - 1) as nat, s, dedup_last(xs), ys, true) {
            lemma_reapply(s, s2, a);
            lemma_apply_unfold(s2, apply_v(s, a));
            lemma_reapply(s, s2, b);
            lemma_apply_unfold(s2, apply_v(s, b));
            lemma_dedup_map(xs, apply_fn(s2));
            lemma_dedup_map(ys, apply_fn(s2));
            lemma_entries_agree(s2, dedup_last(xs), ys, true);
        }
    }
}

/// An open record `RecordOpen(req, rest)` against a record `Record(act)`.
proof fn lemma_sound_open_closed(f: nat, s: SubstV, req: FieldsV, rest: TyV, act: FieldsV)
    requires
        f > 0,
        wf(s),
    ensures
        match and_then_f(
            (f - 1) as nat,
            unify_lookup_f((f - 1) as nat, s, req, act, true),
            rest,
            TyV::Record(residual(act, req)),
        ) {
            Some(Ok(s2)) => wf(s2) && s.submap_of(s2) && agree_lookup(
                apply_fields_v(s2, req),
                apply_fields_v(s2, act),
                true,
            ) && agree(apply_v(s2, rest), TyV::Record(residual(apply_fields_v(s2, act), apply_fields_v(s2, req)))),
            _ => true,
        },
    decreases f, 1nat,
{
    let g = (f - 1) as nat;
    lemma_unify_lookup_f_sound(g, s, req, act, true);
    if let Some(Ok(s1)) = unify_lookup_f(g, s, req, act, true) {
        let rr = TyV::Record(residual(act, req));
        lemma_unify_f_sound(g, s1, rest, rr);
        if let Some(Ok(s2)) = unify_f(g, s1, rest, rr) {
            lemma_submap_trans(s, s1, s2);
            assert forall|i: int| 0 <= i < req.len() implies #[trigger] entry_sound(s2, req[i], act, true) by {
                assert(entry_sound(s1, req[i], act, true));
                if has_key(act, req[i].0) {
                    lemma_agree_lift(s1, s2, req[i].1, last_val(act, req[i].0));
                }
            }
            lemma_entries_agree(s2, req, act, true);
            lemma_wf_resolvable(s2, rr);
            lemma_apply_unfold(s2, rr);
            lemma_residual_map(act, apply_fn(s2), req, apply_fn(s2));
        }
    }
}

/// From the parts of an open record and a record to the sides themselves.
proof fn lemma_sound_open_closed_sides(f: nat, s: SubstV, o: TyV, c: TyV, req: FieldsV, rest: TyV, act: FieldsV)
    requires
        f > 0,
        wf(s),
        apply_v(s, o) == TyV::RecordOpen(req, Box::new(rest)),
        apply_v(s, c) == TyV::Record(act),
        unify_f(f, s, o, c) == unify_f(f, s, c, o),
        unify_f(f, s, o, c) == and_then_f(
            (f - 1) as nat,
            unify_lookup_f((f - 1) as nat, s, req, act, true),
            rest,
            TyV::Record(residual(act, req)),
        ),
        match unify_f(f, s, o, c) {
            Some(Ok(s2)) => wf(s2) && s.submap_of(s2) && agree_lookup(
                apply_fields_v(s2, req),
                apply_fields_v(s2, act),
                true,
            ) && agree(apply_v(s2, rest), TyV::Record(residual(apply_fields_v(s2, act), apply_fields_v(s2, req)))),
            _ => true,
        },
    ensures
        sound_result(s, unify_f(f, s, o, c), o, c),
        sound_result(s, unify_f(f, s, c, o), c, o),
{
    if let Some(Ok(s2)) = unify_f(f, s, o, c) {
        lemma_reapply(s, s2, o);
        lemma_apply_unfold(s2, apply_v(s, o));
        lemma_reapply(s, s2, c);
        lemma_apply_unfold(s2, apply_v(s, c));
    }
}

proof fn lemma_sound_open_open(f: nat, s: SubstV, a: TyV, b: TyV)
    requires
        f > 0,
        wf(s),
        apply_v(s, a) is RecordOpen,
        apply_v(s, b) is RecordOpen,
        unify_f(f, s, a, b) == and_then_f(
            (f - 1) as nat,
            unify_lookup_f(
                (f - 1) as nat,
                s,
                dedup_last(apply_v(s, a)->RecordOpen_0),
                apply_v(s, b)->RecordOpen_0,
                false,
            ),
            *apply_v(s, a)->RecordOpen_1,
            *apply_v(s, b)->RecordOpen_1,
        ),
    ensures
        sound_result(s, unify_f(f, s, a, b), a, b),
    decreases f, 1nat,
{
    let g = (f - 1) as nat;
    let xs = apply_v(s, a)->RecordOpen_0;
    let ys = apply_v(s, b)->RecordOpen_0;
    let rx = *apply_v(s, a)->RecordOpen_1;
    let ry = *apply_v(s, b)->RecordOpen_1;
    lemma_unify_lookup_f_sound(g, s, dedup_last(xs), ys, false);
    if let Some(Ok(s1)) = unify_lookup_f(g, s, dedup_last(xs), ys, false) {
        lemma_unify_f_sound(g, s1, rx, ry);
        if let Some(Ok(s2)) = unify_f(g, s1, rx, ry) {
            lemma_submap_trans(s, s1, s2);
            assert forall|i: int| 0 <= i < dedup_last(xs).len() implies #[trigger] entry_sound(
                s2,
                dedup_last(xs)[i],
                ys,
                false,
            ) by {
                assert(entry_sound(s1, dedup_last(xs)[i], ys, false));
                if has_key(ys, dedup_last(xs)[i].0) {
                    lemma_agree_lift(s1, s2, dedup_last(xs)[i].1, last_val(ys, dedup_last(xs)[i].0));
                }
            }
            lemma_entries_agree(s2, dedup_last(xs), ys, false);
            lemma_dedup_map(xs, apply_fn(s2));
            lemma_reapply(s, s2, a);
            lemma_apply_unfold(s2, apply_v(s, a));
            lemma_reapply(s, s2, b);
            lemma_apply_unfold(s2, apply_v(s, b));
        }
    }
}

proof fn lemma_sound_app(f: nat, s: SubstV, a: TyV, b: TyV)
    requires
        f > 0,
        wf(s),
        apply_v(s, a) is App,
        apply_v(s, b) is App,
        unify_f(f, s, a, b) == (if apply_v(s, a)->App_1.len() != apply_v(s, b)->App_1.len() {
            Some(Err(UnifyError::AppArity))
        } else {
            match unify_f((f - 1) as nat, s, *apply_v(s, a)->App_0, *apply_v(s, b)->App_0) {
                Some(Ok(s1)) => unify_seq_f((f - 1) as nat, s1, apply_v(s, a)->App_1, apply_v(s, b)->App_1),
                r => r,
            }
        }),
    ensures
        sound_result(s, unify_f(f, s, a, b), a, b),
    decreases f, 1nat,
{
    let g = (f - 1) as nat;
    let ha = *apply_v(s, a)->App_0;
    let hb = *apply_v(s, b)->App_0;
    let xs = apply_v(s, a)->App_1;
    let ys = apply_v(s, b)->App_1;
    if xs.len() == ys.len() {
        lemma_unify_f_sound(g, s, ha, hb);
        if let Some(Ok(s1)) = unify_f(g, s, ha, hb) {
            lemma_unify_seq_f_sound(g, s1, xs, ys);
            if let Some(Ok(s2)) = unify_seq_f(g, s1, xs, ys) {
                lemma_submap_trans(s, s1, s2);
                lemma_agree_lift(s1, s2, ha, hb);
                lemma_reapply(s, s2, a);
                lemma_apply_unfold(s2, apply_v(s, a));
                lemma_reapply(s, s2, b);
                lemma_apply_unfold(s2, apply_v(s, b));
                lemma_agree_seq_index(apply_seq_v(s2, xs), apply_seq_v(s2, ys));
                assert forall|i: int| 0 <= i < xs.len() implies #[trigger] agree(
                    apply_seq_v(s2, xs)[i],
                    apply_seq_v(s2, ys)[i],
                ) by {
                    assert(agree(apply_v(s2, xs[i]), apply_v(s2, ys[i])));
                }
            }
        }
    }
}

proof fn lemma_sound_func(f: nat, s: SubstV, a: TyV, b: TyV)
    requires
        f > 0,
        wf(s),
        apply_v(s, a) is Func,
        apply_v(s, b) is Func,
        unify_f(f, s, a, b) == and_then_f(
            (f - 1) as nat,
            unify_f((f - 1) as nat, s, *apply_v(s, a)->Func_0, *apply_v(s, b)->Func_0),
            *apply_v(s, a)->Func_1,
            *apply_v(s, b)->Func_1,
        ),
    ensures
        sound_result(s, unify_f(f, s, a, b), a, b),
    decreases f, 1nat,
{
    let g = (f - 1) as nat;
    let a1 = *apply_v(s, a)->Func_0;
    let a2 = *apply_v(s, a)->Func_1;
    let b1 = *apply_v(s, b)->Func_0;
    let b2 = *apply_v(s, b)->Func_1;
    lemma_unify_f_sound(g, s, a1, b1);
    if let Some(Ok(s1)) = unify_f(g, s, a1, b1) {
        lemma_unify_f_sound(g, s1, a2, b2);
        if let Some(Ok(s2)) = unify_f(g, s1, a2, b2) {
            lemma_submap_trans(s, s1, s2);
            lemma_agree_lift(s1, s2, a1, b1);
            lemma_reapply(s, s2, a);
            lemma_apply_unfold(s2, apply_v(s, a));
            lemma_reapply(s, s2, b);
            lemma_apply_unfold(s2, apply_v(s, b));
        }
    }
}

proof fn lemma_unify_seq_f_sound(f: nat, s: SubstV, xs: Seq<TyV>, ys: Seq<TyV>)
    requires
        wf(s),
    ensures
        seq_sound(s, unify_seq_f(f, s, xs, ys), xs, ys),
    decreases f, xs.len() + 3,
{
    if xs.len() == 0 || ys.len() == 0 {
        assert(s.submap_of(s));
    } else {
        lemma_unify_f_sound(f, s, xs[0], ys[0]);
        if let Some(Ok(s1)) = unify_f(f, s, xs[0], ys[0]) {
            lemma_unify_seq_f_sound(f, s1, xs.drop_first(), ys.drop_first());
            if let Some(Ok(s2)) = unify_seq_f(f, s1, xs.drop_first(), ys.drop_first()) {
                lemma_submap_trans(s, s1, s2);
                lemma_agree_lift(s1, s2, xs[0], ys[0]);
                assert forall|i: int| 0 <= i < xs.len() && i < ys.len() implies #[trigger] agree(
                    apply_v(s2, xs[i]),
                    apply_v(s2, ys[i]),
                ) by {
                    if i > 0 {
                        assert(xs.drop_first()[i - 1] == xs[i]);
                        assert(ys.drop_first()[i - 1] == ys[i]);
                        assert(agree(apply_v(s2, xs.drop_first()[i - 1]), apply_v(s2, ys.drop_first()[i - 1])));
                    }
                }
            }
        }
    }
}

proof fn lemma_unify_lookup_f_sound(f: nat, s: SubstV, xs: FieldsV, ys: FieldsV, strict: bool)
    requires
        wf(s),
    ensures
        lookup_sound(s, unify_lookup_f(f, s, xs, ys, strict), xs, ys, strict),
    decreases f, xs.len() + 3,
{
    if xs.len() == 0 {
        assert(s.submap_of(s));
    } else if has_key(ys, xs[0].0) {
        let lv = last_val(ys, xs[0].0);
        lemma_unify_f_sound(f, s, xs[0].1, lv);
        if let Some(Ok(s1)) = unify_f(f, s, xs[0].1, lv) {
            lemma_unify_lookup_f_sound(f, s1, xs.drop_first(), ys, strict);
            if let Some(Ok(s2)) = unify_lookup_f(f, s1, xs.drop_first(), ys, strict) {
                lemma_submap_trans(s, s1, s2);
                lemma_agree_lift(s1, s2, xs[0].1, lv);
                assert forall|i: int| 0 <= i < xs.len() implies #[trigger] entry_sound(s2, xs[i], ys, strict) by {
                    if i > 0 {
                        assert(xs.drop_first()[i - 1] == xs[i]);
                        assert(entry_sound(s2, xs.drop_first()[i - 1], ys, strict));
                    }
                }
            }
        }
    } else if !strict {
        lemma_unify_lookup_f_sound(f, s, xs.drop_first(), ys, strict);
        if let Some(Ok(s2)) = unify_lookup_f(f, s, xs.drop_first(), ys, strict) {
            assert forall|i: int| 0 <= i < xs.len() implies #[trigger] entry_sound(s2, xs[i], ys, strict) by {
                if i > 0 {
                    assert(xs.drop_first()[i - 1] == xs[i]);
                    assert(entry_sound(s2, xs.drop_first()[i - 1], ys, strict));
                }
            }
        }
    }
}


pub(crate) proof fn lemma_apply_empty(t: TyV)
    ensures
        apply_v(Map::empty(), t) == t,
{
    lemma_apply_resolved_id(Map::empty(), 0, t);
    lemma_apply_v_fuel(Map::empty(), 0, t);
}

proof fn lemma_unify_refl_f(f: nat, t: TyV)
    requires
        f > size(t),
    ensures
        unify_f(f, Map::empty(), t, t) == Some(Ok::<SubstV, UnifyError>(Map::empty())),
    decreases size(t), 0nat,
{
    let e = Map::<u32, TyV>::empty();
    lemma_apply_empty(t);
    let g = (f - 1) as nat;
    match t {
        TyV::Var(v) => {
            assert(bind_v(e, v, t) == Ok::<SubstV, UnifyError>(e));
        },
        TyV::Con(_) => {},
        TyV::List(a) => {
            lemma_unify_refl_f(g, *a);
        },
        TyV::Tuple(ts) => {
            lemma_unify_seq_refl_f(g, ts);
            assert(unify_f(f, e, t, t) == unify_seq_f(g, e, ts, ts));
        },
        TyV::Record(fs) => {
            lemma_dedup_sub(fs);
            lemma_dedup_entries(fs);
            lemma_unify_lookup_refl_f(g, dedup_last(fs), fs, true);
        },
        TyV::RecordOpen(fs, r) => {
            lemma_dedup_sub(fs);
            lemma_dedup_entries(fs);
            lemma_unify_lookup_refl_f(g, dedup_last(fs), fs, false);
            lemma_unify_refl_f(g, *r);
            assert(and_then_f(g, Some(Ok::<SubstV, UnifyError>(e)), *r, *r) == unify_f(g, e, *r, *r));
        },
        TyV::App(h, args) => {
            lemma_unify_refl_f(g, *h);
            lemma_unify_seq_refl_f(g, args);
        },
        TyV::Func(a, b) => {
            lemma_unify_refl_f(g, *a);
            lemma_unify_refl_f(g, *b);
            assert(and_then_f(g, Some(Ok::<SubstV, UnifyError>(e)), *b, *b) == unify_f(g, e, *b, *b));
        },
    }
}

proof fn lemma_unify_seq_refl_f(f: nat, ts: Seq<TyV>)
    requires
        f > sizes(ts),
    ensures
        unify_seq_f(f, Map::empty(), ts, ts) == Some(Ok::<SubstV, UnifyError>(Map::empty())),
    decreases sizes(ts), 1nat,
{
    if ts.len() > 0 {
        lemma_sizes_elem(ts, 0);
        lemma_unify_refl_f(f, ts[0]);
        lemma_sizes_drop_first(ts);
        lemma_size_pos(ts[0]);
        lemma_unify_seq_refl_f(f, ts.drop_first());
    }
}

proof fn lemma_unify_lookup_refl_f(f: nat, xs: FieldsV, fs: FieldsV, strict: bool)
    requires
        f > field_sizes(xs),
        forall|i: int| 0 <= i < xs.len() ==> has_key(fs, (#[trigger] xs[i]).0) && xs[i].1 == last_val(fs, xs[i].0),
    ensures
        unify_lookup_f(f, Map::empty(), xs, fs, strict) == Some(Ok::<SubstV, UnifyError>(Map::empty())),
    decreases field_sizes(xs), 1nat,
{
    if xs.len() > 0 {
        lemma_field_sizes_elem(xs, 0);
        assert(has_key(fs, xs[0].0) && xs[0].1 == last_val(fs, xs[0].0));
        lemma_unify_refl_f(f, xs[0].1);
        lemma_field_sizes_drop_first(xs);
        assert forall|i: int| 0 <= i < xs.drop_first().len() implies has_key(fs, (#[trigger] xs.drop_first()[i]).0)
            && xs.drop_first()[i].1 == last_val(fs, xs.drop_first()[i].0) by {
            assert(xs.drop_first()[i] == xs[i + 1]);
        }
        lemma_size_pos(xs[0].1);
        lemma_unify_lookup_refl_f(f, xs.drop_first(), fs, strict);
    }
}

proof fn lemma_sizes_drop_first(ts: Seq<TyV>)
    requires
        ts.len() > 0,
    ensures
        sizes(ts) == size(ts[0]) + sizes(ts.drop_first()),
    decreases ts.len(),
{
    if ts.len() > 1 {
        lemma_sizes_drop_first(ts.drop_last());
        assert(ts.drop_last().drop_first() =~= ts.drop_first().drop_last());
        assert(ts.drop_first().last() == ts.last());
    } else {
        assert(ts.drop_first() =~= Seq::<TyV>::empty());
        assert(ts.drop_last() =~= Seq::<TyV>::empty());
    }
}

proof fn lemma_field_sizes_drop_first(fs: FieldsV)
    requires
        fs.len() > 0,
    ensures
        field_sizes(fs) == size(fs[0].1) + field_sizes(fs.drop_first()),
    decreases fs.len(),
{
    if fs.len() > 1 {
        lemma_field_sizes_drop_first(fs.drop_last());
        assert(fs.drop_last().drop_first() =~= fs.drop_first().drop_last());
        assert(fs.drop_first().last() == fs.last());
    } else {
        assert(fs.drop_first() =~= FieldsV::empty());
        assert(fs.drop_last() =~= FieldsV::empty());
    }
}

/// Unifying a type with itself succeeds and binds nothing.
pub proof fn law_unify_refl(t: TyV)
    ensures
        unify_v(Map::empty(), t, t) == Some(Ok::<SubstV, UnifyError>(Map::empty())),
{
    lemma_unify_refl_f(size(t) + 1, t);
    lemma_unify_fuel(size(t) + 1, Map::empty(), t, t);
}


/// A unification step from any well-formed substitution only adds
/// bindings: on success the result is well formed, keeps every binding it
/// started from (so each new key was unbound before), and makes the two
/// types agree.
pub proof fn law_unify_step_extends(s0: SubstV, a: TyV, b: TyV)
    requires
        wf(s0),
    ensures
        match unify_v(s0, a, b) {
            Some(Ok(s)) => wf(s) && s0.submap_of(s) && agree(apply_v(s, a), apply_v(s, b)),
            _ => true,
        },
{
    lemma_unify_f_sound(crate::unify::unify_fuel(s0, a, b), s0, a, b);
}


/// `t` has no records, and every constructor name in it is in `names`.
pub open spec fn plain_in(t: TyV, names: Set<Seq<char>>) -> bool
    decreases t,
{
    match t {
        TyV::Var(_) => true,
        TyV::Con(n) => names.contains(n),
        TyV::List(a) => plain_in(*a, names),
        TyV::Tuple(ts) => forall|i: int| 0 <= i < ts.len() ==> plain_in(#[trigger] ts[i], names),
        TyV::App(h, args) => plain_in(*h, names) && forall|i: int| 0 <= i < args.len() ==> plain_in(#[trigger] args[i], names),
        TyV::Func(a, b) => plain_in(*a, names) && plain_in(*b, names),
        _ => false,
    }
}

/// No two different names of `names` are numerically compatible.
pub open spec fn numerically_separated(names: Set<Seq<char>>) -> bool {
    forall|x: Seq<char>, y: Seq<char>|
        #[trigger] names.contains(x) && #[trigger] names.contains(y) && x != y ==> !numeric_compatible_spec(x, y)
}

proof fn lemma_agree_seq_plain(xs: Seq<TyV>, ys: Seq<TyV>, names: Set<Seq<char>>)
    requires
        forall|i: int| 0 <= i < xs.len() ==> plain_in(#[trigger] xs[i], names),
        forall|i: int| 0 <= i < ys.len() ==> plain_in(#[trigger] ys[i], names),
        numerically_separated(names),
        agree_seq(xs, ys),
    ensures
        xs == ys,
    decreases sizes(xs) + sizes(ys), 1nat,
{
    if xs.len() > 0 && ys.len() > 0 {
        lemma_size_pos(xs.last());
        lemma_size_pos(ys.last());
        lemma_agree_seq_plain(xs.drop_last(), ys.drop_last(), names);
        law_agree_plain_equal(xs.last(), ys.last(), names);
        assert(xs =~= xs.drop_last().push(xs.last()));
        assert(ys =~= ys.drop_last().push(ys.last()));
    } else {
        assert(xs =~= ys);
    }
}

/// Without records, and with no two different constructor names that are
/// numerically compatible, types that agree are equal: there the agreement
/// that unification establishes is plain equality.
pub proof fn law_agree_plain_equal(x: TyV, y: TyV, names: Set<Seq<char>>)
    requires
        plain_in(x, names),
        plain_in(y, names),
        numerically_separated(names),
        agree(x, y),
    ensures
        x == y,
    decreases size(x) + size(y), 0nat,
{
    match x {
        TyV::List(a) => match y {
            TyV::List(b) => law_agree_plain_equal(*a, *b, names),
            _ => {},
        },
        TyV::Tuple(xs) => match y {
            TyV::Tuple(ys) => lemma_agree_seq_plain(xs, ys, names),
            _ => {},
        },
        TyV::App(ha, xs) => match y {
            TyV::App(hb, ys) => {
                law_agree_plain_equal(*ha, *hb, names);
                lemma_agree_seq_plain(xs, ys, names);
            },
            _ => {},
        },
        TyV::Func(a1, a2) => match y {
            TyV::Func(b1, b2) => {
                law_agree_plain_equal(*a1, *b1, names);
                law_agree_plain_equal(*a2, *b2, names);
            },
            _ => {},
        },
        _ => {},
    }
}

/// Every binding of `s` is plain over `names`.
pub open spec fn bindings_plain(s: SubstV, names: Set<Seq<char>>) -> bool {
    forall|v: u32| #[trigger] s.contains_key(v) ==> plain_in(s[v], names)
}

proof fn lemma_apply_f_plain(s: SubstV, n: nat, t: TyV, names: Set<Seq<char>>)
    requires
        bindings_plain(s, names),
        plain_in(t, names),
    ensures
        plain_in(crate::subst::apply_f(s, n, t), names),
    decreases n, t,
{
    match t {
        TyV::Var(v) => {
            if s.contains_key(v) && n > 0 {
                lemma_apply_f_plain(s, (n - 1) as nat, s[v], names);
            }
        },
        TyV::List(a) => lemma_apply_f_plain(s, n, *a, names),
        TyV::Tuple(ts) => {
            crate::subst::lemma_apply_seq_f(s, n, ts);
            assert forall|i: int| 0 <= i < crate::subst::apply_seq_f(s, n, ts).len() implies plain_in(
                #[trigger] crate::subst::apply_seq_f(s, n, ts)[i],
                names,
            ) by {
                lemma_apply_f_plain(s, n, ts[i], names);
            }
        },
        TyV::App(h, args) => {
            lemma_apply_f_plain(s, n, *h, names);
            crate::subst::lemma_apply_seq_f(s, n, args);
            assert forall|i: int| 0 <= i < crate::subst::apply_seq_f(s, n, args).len() implies plain_in(
                #[trigger] crate::subst::apply_seq_f(s, n, args)[i],
                names,
            ) by {
                lemma_apply_f_plain(s, n, args[i], names);
            }
        },
        TyV::Func(a, b) => {
            lemma_apply_f_plain(s, n, *a, names);
            lemma_apply_f_plain(s, n, *b, names);
        },
        _ => {},
    }
}

/// Applying a substitution with plain bindings keeps a type plain.
proof fn lemma_apply_plain(s: SubstV, t: TyV, names: Set<Seq<char>>)
    requires
        wf(s),
        bindings_plain(s, names),
        plain_in(t, names),
    ensures
        plain_in(apply_v(s, t), names),
{
    lemma_wf_resolvable(s, t);
    lemma_apply_f_plain(s, crate::subst::settle_fuel(s, t), t, names);
}

/// Unifying plain types from plain bindings gives plain bindings.
proof fn lemma_unify_f_plain(f: nat, s: SubstV, a: TyV, b: TyV, names: Set<Seq<char>>)
    requires
        wf(s),
        bindings_plain(s, names),
        plain_in(a, names),
        plain_in(b, names),
    ensures
        unify_f(f, s, a, b) matches Some(Ok(s2)) ==> bindings_plain(s2, names),
    decreases f, 0nat,
{
    if f > 0 {
        let g = (f - 1) as nat;
        let a1 = apply_v(s, a);
        let b1 = apply_v(s, b);
        lemma_apply_plain(s, a, names);
        lemma_apply_plain(s, b, names);
        if a1 is Var {
            assert(unify_f(f, s, a, b) == Some(bind_v(s, a1->Var_0, b1)));
        } else if b1 is Var {
            assert(unify_f(f, s, a, b) == Some(bind_v(s, b1->Var_0, a1)));
        } else {
            match (a1, b1) {
                (TyV::List(x), TyV::List(y)) => {
                    assert(unify_f(f, s, a, b) == unify_f(g, s, *x, *y));
                    lemma_unify_f_plain(g, s, *x, *y, names);
                },
                (TyV::Tuple(xs), TyV::Tuple(ys)) => {
                    if xs.len() == ys.len() {
                        assert(unify_f(f, s, a, b) == unify_seq_f(g, s, xs, ys));
                        lemma_unify_seq_f_plain(g, s, xs, ys, names);
                    }
                },
                (TyV::App(ha, xs), TyV::App(hb, ys)) => {
                    if xs.len() == ys.len() {
                        assert(unify_f(f, s, a, b) == match unify_f(g, s, *ha, *hb) {
                            Some(Ok(s1)) => unify_seq_f(g, s1, xs, ys),
                            r => r,
                        });
                        lemma_unify_f_plain(g, s, *ha, *hb, names);
                        lemma_unify_f_sound(g, s, *ha, *hb);
                        if let Some(Ok(s1)) = unify_f(g, s, *ha, *hb) {
                            lemma_unify_seq_f_plain(g, s1, xs, ys, names);
                        }
                    }
                },
                (TyV::Func(x1, x2), TyV::Func(y1, y2)) => {
                    assert(unify_f(f, s, a, b) == and_then_f(g, unify_f(g, s, *x1, *y1), *x2, *y2));
                    lemma_unify_f_plain(g, s, *x1, *y1, names);
                    lemma_unify_f_sound(g, s, *x1, *y1);
                    if let Some(Ok(s1)) = unify_f(g, s, *x1, *y1) {
                        lemma_unify_f_plain(g, s1, *x2, *y2, names);
                    }
                },
                _ => {},
            }
        }
    }
}

proof fn lemma_unify_seq_f_plain(f: nat, s: SubstV, xs: Seq<TyV>, ys: Seq<TyV>, names: Set<Seq<char>>)
    requires
        wf(s),
        bindings_plain(s, names),
        forall|i: int| 0 <= i < xs.len() ==> plain_in(#[trigger] xs[i], names),
        forall|i: int| 0 <= i < ys.len() ==> plain_in(#[trigger] ys[i], names),
    ensures
        unify_seq_f(f, s, xs, ys) matches Some(Ok(s2)) ==> bindings_plain(s2, names),
    decreases f, xs.len() + 2,
{
    if xs.len() > 0 && ys.len() > 0 {
        lemma_unify_f_plain(f, s, xs[0], ys[0], names);
        lemma_unify_f_sound(f, s, xs[0], ys[0]);
        if let Some(Ok(s1)) = unify_f(f, s, xs[0], ys[0]) {
            let xt = xs.drop_first();
            let yt = ys.drop_first();
            assert forall|i: int| 0 <= i < xt.len() implies plain_in(#[trigger] xt[i], names) by {
                assert(xt[i] == xs[i + 1]);
            }
            assert forall|i: int| 0 <= i < yt.len() implies plain_in(#[trigger] yt[i], names) by {
                assert(yt[i] == ys[i + 1]);
            }
            lemma_unify_seq_f_plain(f, s1, xt, yt, names);
        }
    }
}

/// Soundness as plain equality: two types without records, whose different
/// constructor names are never numerically compatible, are made equal by the
/// substitution that unifies them.
pub proof fn law_unify_plain_sound(a: TyV, b: TyV, names: Set<Seq<char>>)
    requires
        numerically_separated(names),
        plain_in(a, names),
        plain_in(b, names),
    ensures
        match unify_v(Map::empty(), a, b) {
            Some(Ok(s)) => wf(s) && apply_v(s, a) == apply_v(s, b),
            _ => true,
        },
{
    crate::unify::law_unify_sound(a, b);
    crate::unify::lemma_wf_empty();
    assert(bindings_plain(Map::empty(), names));
    lemma_unify_f_plain(crate::unify::unify_fuel(Map::empty(), a, b), Map::empty(), a, b, names);
    if let Some(Ok(s)) = unify_v(Map::empty(), a, b) {
        lemma_apply_plain(s, a, names);
        lemma_apply_plain(s, b, names);
        law_agree_plain_equal(apply_v(s, a), apply_v(s, b), names);
    }
}

} // verus!
