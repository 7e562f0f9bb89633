//! Unification of types.
use vstd::prelude::*;
use std::collections::HashMap;
use crate::fields::{
    dedup_fields, dedup_last, find_last, has_key, last_val, lemma_dedup_sub, lemma_last_val_in,
    lemma_residual_sub, residual, residual_vec, sub_fields,
};
use crate::agree::agree;
use crate::numeric::{numeric_compatible, numeric_compatible_spec};
use crate::sound::lemma_unify_f_sound;
use crate::subst::{
    apply, apply_v, lemma_apply_idempotent, lemma_apply_resolved_id, lemma_apply_v_fuel, lemma_ftv_apply,
    lemma_ftv_reach, lemma_occurs_fuel, lemma_rng_finite, lemma_wf_insert, lemma_wf_resolvable, occurs,
    occurs_v, resolvable, resolved, rng, settle_fuel, subst_view, wf, bindings_settle, Subst, SubstV,
};
use crate::ty::{
    field_sizes, ftv, ftv_fields, lemma_field_sizes_elem, lemma_ftv_finite, lemma_sizes_elem, lemma_view_fields,
    lemma_view_seq, size, sizes, ty_clone, view_fields, view_seq, FieldsV, Ty, TyV,
};

verus! {

/// Why two types do not unify.
#[derive(Debug, Clone, Copy, PartialEq, Eq, Structural)]
pub enum UnifyError {
    TupleArity,
    RecordArity,
    RecordFieldMismatch,
    AppArity,
    OccursCheck,
    CannotUnify,
}

/// Binding `v` to `t`: nothing to do when `t` is `v` itself; refused when `v`
/// occurs in `t`.
pub open spec fn bind_v(s: SubstV, v: u32, t: TyV) -> Result<SubstV, UnifyError> {
    if t == TyV::Var(v) {
        Ok(s)
    } else if occurs_v(s, v, t) {
        Err(UnifyError::OccursCheck)
    } else {
        Ok(s.insert(v, t))
    }
}

/// Unification of `a` and `b` under `s`, with at most `fuel` nested steps;
/// `None` when the fuel runs out.
pub open spec fn unify_f(fuel: nat, s: SubstV, a: TyV, b: TyV) -> Option<Result<SubstV, UnifyError>>
    decreases fuel, 0nat,
{
    if fuel == 0 {
        None
    } else {
        let f = (fuel - 1) as nat;
        let a1 = apply_v(s, a);
        let b1 = apply_v(s, b);
        if a1 is Var {
            Some(bind_v(s, a1->Var_0, b1))
        } else if b1 is Var {
            Some(bind_v(s, b1->Var_0, a1))
        } else {
            match (a1, b1) {
                (TyV::Con(x), TyV::Con(y)) => if x == y || numeric_compatible_spec(x, y) {
                    Some(Ok(s))
                } else {
                    Some(Err(UnifyError::CannotUnify))
                },
                (TyV::List(x), TyV::List(y)) => unify_f(f, s, *x, *y),
                (TyV::Tuple(xs), TyV::Tuple(ys)) => if xs.len() != ys.len() {
                    Some(Err(UnifyError::TupleArity))
                } else {
                    unify_seq_f(f, s, xs, ys)
                },
                (TyV::Record(xs), TyV::Record(ys)) => if xs.len() != ys.len() {
                    Some(Err(UnifyError::RecordArity))
                } else if dedup_last(xs).len() != dedup_last(ys).len() {
                    Some(Err(UnifyError::RecordFieldMismatch))
                } else {
                    unify_lookup_f(f, s, dedup_last(xs), ys, true)
                },
                (TyV::RecordOpen(req, rest), TyV::Record(act)) =>
                    and_then_f(f, unify_lookup_f(f, s, req, act, true), *rest, TyV::Record(residual(act, req))),
                (TyV::Record(act), TyV::RecordOpen(req, rest)) =>
                    and_then_f(f, unify_lookup_f(f, s, req, act, true), *rest, TyV::Record(residual(act, req))),
                (TyV::RecordOpen(xs, rx), TyV::RecordOpen(ys, ry)) =>
                    and_then_f(f, unify_lookup_f(f, s, dedup_last(xs), ys, false), *rx, *ry),
                (TyV::App(ha, xs), TyV::App(hb, ys)) => if xs.len() != ys.len() {
                    Some(Err(UnifyError::AppArity))
                } else {
                    match unify_f(f, s, *ha, *hb) {
                        Some(Ok(s1)) => unify_seq_f(f, s1, xs, ys),
                        r => r,
                    }
                },
                (TyV::Func(a1, a2), TyV::Func(b1, b2)) => and_then_f(f, unify_f(f, s, *a1, *b1), *a2, *b2),
                _ => Some(Err(UnifyError::CannotUnify)),
            }
        }
    }
}

/// Continues with `x` and `y` after a step that succeeded.
pub open spec fn and_then_f(
    f: nat,
    r: Option<Result<SubstV, UnifyError>>,
    x: TyV,
    y: TyV,
) -> Option<Result<SubstV, UnifyError>>
    decreases f, 1nat,
{
    match r {
        Some(Ok(s1)) => unify_f(f, s1, x, y),
        other => other,
    }
}

/// Unifies `xs[i]` with `ys[i]` in order.
pub open spec fn unify_seq_f(f: nat, s: SubstV, xs: Seq<TyV>, ys: Seq<TyV>) -> Option<Result<SubstV, UnifyError>>
    decreases f, xs.len() + 2,
{
    if xs.len() == 0 || ys.len() == 0 {
        Some(Ok(s))
    } else {
        match unify_f(f, s, xs[0], ys[0]) {
            Some(Ok(s1)) => unify_seq_f(f, s1, xs.drop_first(), ys.drop_first()),
            r => r,
        }
    }
}

/// Unifies each field of `xs` with the last field of `ys` of the same name,
/// in order; a name missing from `ys` is an error when `strict`, and skipped
/// otherwise.
pub open spec fn unify_lookup_f(f: nat, s: SubstV, xs: FieldsV, ys: FieldsV, strict: bool) -> Option<
    Result<SubstV, UnifyError>,
>
    decreases f, xs.len() + 2,
{
    if xs.len() == 0 {
        Some(Ok(s))
    } else if has_key(ys, xs[0].0) {
        match unify_f(f, s, xs[0].1, last_val(ys, xs[0].0)) {
            Some(Ok(s1)) => unify_lookup_f(f, s1, xs.drop_first(), ys, strict),
            r => r,
        }
    } else if strict {
        Some(Err(UnifyError::RecordFieldMismatch))
    } else {
        unify_lookup_f(f, s, xs.drop_first(), ys, strict)
    }
}

/// Unification of `a` and `b` under `s` runs to an end.
pub open spec fn unify_terminates(s: SubstV, a: TyV, b: TyV) -> bool {
    exists|fuel: nat| #[trigger] unify_f(fuel, s, a, b) is Some
}

pub open spec fn unify_fuel(s: SubstV, a: TyV, b: TyV) -> nat {
    choose|fuel: nat| #[trigger] unify_f(fuel, s, a, b) is Some
}

/// The outcome of unifying `a` and `b` under `s`: the extended substitution,
/// or the error met.
pub open spec fn unify_v(s: SubstV, a: TyV, b: TyV) -> Option<Result<SubstV, UnifyError>> {
    unify_f(unify_fuel(s, a, b), s, a, b)
}

/// More fuel than needed changes nothing.
pub proof fn lemma_unify_mono(f: nat, g: nat, s: SubstV, a: TyV, b: TyV)
    requires
        f <= g,
        unify_f(f, s, a, b) is Some,
    ensures
        unify_f(g, s, a, b) == unify_f(f, s, a, b),
    decreases f, 0nat,
{
    let a1 = apply_v(s, a);
    let b1 = apply_v(s, b);
    let f1 = (f - 1) as nat;
    let g1 = (g - 1) as nat;
    if a1 is Var || b1 is Var {
    } else {
        match (a1, b1) {
            (TyV::List(x), TyV::List(y)) => {
                lemma_unify_mono(f1, g1, s, *x, *y);
            },
            (TyV::Tuple(xs), TyV::Tuple(ys)) => {
                if xs.len() == ys.len() {
                    lemma_unify_seq_mono(f1, g1, s, xs, ys);
                }
            },
            (TyV::Record(xs), TyV::Record(ys)) => {
                if xs.len() == ys.len() && dedup_last(xs).len() == dedup_last(ys).len() {
                    lemma_unify_lookup_mono(f1, g1, s, dedup_last(xs), ys, true);
                }
            },
            (TyV::RecordOpen(req, rest), TyV::Record(act)) => {
                if unify_lookup_f(f1, s, req, act, true) is Some {
                    lemma_unify_lookup_mono(f1, g1, s, req, act, true);
                }
                lemma_and_then_mono(f1, g1, unify_lookup_f(f1, s, req, act, true), *rest, TyV::Record(residual(act, req)));
            },
            (TyV::Record(act), TyV::RecordOpen(req, rest)) => {
                if unify_lookup_f(f1, s, req, act, true) is Some {
                    lemma_unify_lookup_mono(f1, g1, s, req, act, true);
                }
                lemma_and_then_mono(f1, g1, unify_lookup_f(f1, s, req, act, true), *rest, TyV::Record(residual(act, req)));
            },
            (TyV::RecordOpen(xs, rx), TyV::RecordOpen(ys, ry)) => {
                if unify_lookup_f(f1, s, dedup_last(xs), ys, false) is Some {
                    lemma_unify_lookup_mono(f1, g1, s, dedup_last(xs), ys, false);
                }
                lemma_and_then_mono(f1, g1, unify_lookup_f(f1, s, dedup_last(xs), ys, false), *rx, *ry);
            },
            (TyV::App(ha, xs), TyV::App(hb, ys)) => {
                if xs.len() == ys.len() {
                    lemma_unify_mono(f1, g1, s, *ha, *hb);
                    if let Some(Ok(s1)) = unify_f(f1, s, *ha, *hb) {
                        lemma_unify_seq_mono(f1, g1, s1, xs, ys);
                    }
                }
            },
            (TyV::Func(x1, x2), TyV::Func(y1, y2)) => {
                if unify_f(f1, s, *x1, *y1) is Some {
                    lemma_unify_mono(f1, g1, s, *x1, *y1);
                }
                lemma_and_then_mono(f1, g1, unify_f(f1, s, *x1, *y1), *x2, *y2);
            },
            _ => {},
        }
    }
}

pub proof fn lemma_and_then_mono(f: nat, g: nat, r: Option<Result<SubstV, UnifyError>>, x: TyV, y: TyV)
    requires
        f <= g,
        and_then_f(f, r, x, y) is Some,
    ensures
        and_then_f(g, r, x, y) == and_then_f(f, r, x, y),
    decreases f, 1nat,
{
    if let Some(Ok(s1)) = r {
        lemma_unify_mono(f, g, s1, x, y);
    }
}

pub proof fn lemma_unify_seq_mono(f: nat, g: nat, s: SubstV, xs: Seq<TyV>, ys: Seq<TyV>)
    requires
        f <= g,
        unify_seq_f(f, s, xs, ys) is Some,
    ensures
        unify_seq_f(g, s, xs, ys) == unify_seq_f(f, s, xs, ys),
    decreases f, xs.len() + 2,
{
    if xs.len() > 0 && ys.len() > 0 {
        lemma_unify_mono(f, g, s, xs[0], ys[0]);
        if let Some(Ok(s1)) = unify_f(f, s, xs[0], ys[0]) {
            lemma_unify_seq_mono(f, g, s1, xs.drop_first(), ys.drop_first());
        }
    }
}

pub proof fn lemma_unify_lookup_mono(f: nat, g: nat, s: SubstV, xs: FieldsV, ys: FieldsV, strict: bool)
    requires
        f <= g,
        unify_lookup_f(f, s, xs, ys, strict) is Some,
    ensures
        unify_lookup_f(g, s, xs, ys, strict) == unify_lookup_f(f, s, xs, ys, strict),
    decreases f, xs.len() + 2,
{
    if xs.len() > 0 {
        if has_key(ys, xs[0].0) {
            lemma_unify_mono(f, g, s, xs[0].1, last_val(ys, xs[0].0));
            if let Some(Ok(s1)) = unify_f(f, s, xs[0].1, last_val(ys, xs[0].0)) {
                lemma_unify_lookup_mono(f, g, s1, xs.drop_first(), ys, strict);
            }
        } else if !strict {
            lemma_unify_lookup_mono(f, g, s, xs.drop_first(), ys, strict);
        }
    }
}

/// Any two fuels that both suffice give the same outcome.
pub proof fn lemma_unify_fuel(f: nat, s: SubstV, a: TyV, b: TyV)
    requires
        unify_f(f, s, a, b) is Some,
    ensures
        unify_terminates(s, a, b),
        unify_v(s, a, b) == unify_f(f, s, a, b),
{
    let k = unify_fuel(s, a, b);
    assert(unify_f(k, s, a, b) is Some);
    if k <= f {
        lemma_unify_mono(k, f, s, a, b);
    } else {
        lemma_unify_mono(f, k, s, a, b);
    }
}


/// The variables a unification problem can ever bind or mention.
pub open spec fn universe(s: SubstV, a: TyV, b: TyV) -> Set<u32> {
    ftv(a).union(ftv(b)).union(s.dom()).union(rng(s))
}

/// How many variables of the problem are still unbound.
pub open spec fn measure_vars(s: SubstV, a: TyV, b: TyV) -> int {
    universe(s, a, b).len() as int - s.dom().len() as int
}

/// The size of the problem once `s` is applied.
pub open spec fn measure_size(s: SubstV, a: TyV, b: TyV) -> nat {
    size(apply_v(s, a)) + size(apply_v(s, b))
}

pub proof fn lemma_universe_finite(s: SubstV, a: TyV, b: TyV)
    requires
        s.dom().finite(),
    ensures
        universe(s, a, b).finite(),
        s.dom().subset_of(universe(s, a, b)),
        s.dom().len() <= universe(s, a, b).len(),
        measure_vars(s, a, b) >= 0,
{
    lemma_ftv_finite(a);
    lemma_ftv_finite(b);
    lemma_rng_finite(s);
    vstd::set_lib::lemma_len_subset(s.dom(), universe(s, a, b));
}

/// A step from the problem `(pa, pb)` under `s0` to the problem `(x, y)` under
/// an extension `s1`, where `x` and `y` come from the resolved problem and are
/// together smaller, brings the measure down.
pub proof fn lemma_measure_step(s0: SubstV, s1: SubstV, pa: TyV, pb: TyV, x: TyV, y: TyV)
    requires
        wf(s0),
        wf(s1),
        s0.submap_of(s1),
        s1.dom().subset_of(universe(s0, pa, pb)),
        rng(s1).subset_of(universe(s0, pa, pb)),
        resolved(s0, x),
        resolved(s0, y),
        ftv(x).subset_of(ftv(apply_v(s0, pa)).union(ftv(apply_v(s0, pb)))),
        ftv(y).subset_of(ftv(apply_v(s0, pa)).union(ftv(apply_v(s0, pb)))),
        size(x) + size(y) < measure_size(s0, pa, pb),
    ensures
        universe(s1, x, y).subset_of(universe(s0, pa, pb)),
        0 <= measure_vars(s1, x, y),
        measure_vars(s1, x, y) < measure_vars(s0, pa, pb) || (measure_vars(s1, x, y) == measure_vars(s0, pa, pb)
            && measure_size(s1, x, y) < measure_size(s0, pa, pb)),
{
    lemma_wf_resolvable(s0, pa);
    lemma_wf_resolvable(s0, pb);
    lemma_ftv_apply(s0, settle_fuel(s0, pa), pa);
    lemma_ftv_apply(s0, settle_fuel(s0, pb), pb);
    let u0 = universe(s0, pa, pb);
    let u1 = universe(s1, x, y);
    assert(u1.subset_of(u0));
    lemma_universe_finite(s0, pa, pb);
    lemma_universe_finite(s1, x, y);
    vstd::set_lib::lemma_len_subset(u1, u0);
    if s1.dom() =~= s0.dom() {
        assert(s1 =~= s0);
        lemma_apply_resolved_id(s0, 0, x);
        lemma_apply_resolved_id(s0, 0, y);
        lemma_apply_v_fuel(s0, 0, x);
        lemma_apply_v_fuel(s0, 0, y);
    } else {
        let k = choose|k: u32| s1.dom().contains(k) && !s0.dom().contains(k);
        assert(s0.dom().subset_of(s1.dom().remove(k)));
        vstd::set_lib::lemma_len_subset(s0.dom(), s1.dom().remove(k));
    }
}


/// The outcome of a unification step as a model.
pub open spec fn outcome(r: Result<(), UnifyError>, s: SubstV) -> Result<SubstV, UnifyError> {
    match r {
        Ok(_) => Ok(s),
        Err(e) => Err(e),
    }
}

/// What a step keeps of the substitution it started from: well-formedness,
/// the bindings already made, and new bindings only among the variables of
/// the problem `(pa, pb)` under `s0`.
pub open spec fn step_kept(s0: SubstV, s: SubstV, pa: TyV, pb: TyV) -> bool {
    &&& wf(s)
    &&& s0.submap_of(s)
    &&& s.dom().subset_of(universe(s0, pa, pb))
    &&& rng(s).subset_of(universe(s0, pa, pb))
}

/// The parts `x` of a problem `(pa, pb)` resolved under `s0`.
pub open spec fn part_of(s0: SubstV, pa: TyV, pb: TyV, x: TyV) -> bool {
    &&& resolved(s0, x)
    &&& ftv(x).subset_of(ftv(apply_v(s0, pa)).union(ftv(apply_v(s0, pb))))
}

proof fn lemma_sub_resolved(s: SubstV, t: TyV, x: TyV)
    requires
        resolved(s, t),
        ftv(x).subset_of(ftv(t)),
    ensures
        resolved(s, x),
{
    assert forall|w: u32| #[trigger] ftv(x).contains(w) implies !s.contains_key(w) by {
        assert(ftv(t).contains(w));
    }
}

/// Binds `v` to `t` unless `t` is `v` itself, refusing when `v` occurs in `t`.
fn bind_var(subst: &mut Subst, v: u32, t: Ty) -> (r: Result<(), UnifyError>)
    requires
        wf(subst_view(old(subst)@)),
    ensures
        outcome(r, subst_view(final(subst)@)) == bind_v(subst_view(old(subst)@), v, t@),
        r is Err ==> final(subst)@ == old(subst)@,
{
    if let Ty::Var(v2) = t {
        if v == v2 {
            return Ok(());
        }
    }
    if occurs(subst, v, &t) {
        return Err(UnifyError::OccursCheck);
    }
    let ghost before = subst@;
    subst.insert(v, t);
    assert(subst_view(subst@) =~= subst_view(before).insert(v, t@));
    Ok(())
}

fn var_of(t: &Ty) -> (r: Option<u32>)
    ensures
        r matches Some(v) ==> t@ == TyV::Var(v),
        r is None ==> !(t@ is Var),
{
    match t {
        Ty::Var(v) => Some(*v),
        _ => None,
    }
}

proof fn lemma_bind_kept(s0: SubstV, a: TyV, b: TyV, v: u32, t: TyV)
    requires
        wf(s0),
        ftv(apply_v(s0, a)).union(ftv(apply_v(s0, b))).contains(v),
        resolved(s0, TyV::Var(v)),
        resolved(s0, t),
        ftv(t).subset_of(ftv(apply_v(s0, a)).union(ftv(apply_v(s0, b)))),
        bind_v(s0, v, t) is Ok,
    ensures
        step_kept(s0, bind_v(s0, v, t)->Ok_0, a, b),
{
    lemma_wf_resolvable(s0, a);
    lemma_wf_resolvable(s0, b);
    lemma_ftv_apply(s0, settle_fuel(s0, a), a);
    lemma_ftv_apply(s0, settle_fuel(s0, b), b);
    assert(ftv(TyV::Var(v)).contains(v));
    let s1 = bind_v(s0, v, t)->Ok_0;
    if t == TyV::Var(v) {
        assert(s1 == s0);
    } else {
        lemma_wf_resolvable(s0, t);
        lemma_occurs_fuel(s0, settle_fuel(s0, t), v, t);
        if ftv(t).contains(v) {
            lemma_ftv_reach(s0, settle_fuel(s0, t), v, t);
        }
        lemma_wf_insert(s0, v, t);
        assert forall|w: u32| rng(s1).contains(w) implies universe(s0, a, b).contains(w) by {
            let u = choose|u: u32| s1.contains_key(u) && #[trigger] ftv(s1[u]).contains(w);
            if u != v {
                assert(s0.contains_key(u) && ftv(s0[u]).contains(w));
            }
        }
    }
}

/// The common ground of the shape cases: `va` and `vb` are `a` and `b`
/// resolved under `s0`, and neither is a variable.
pub open spec fn shapes_ready(s0: SubstV, a: TyV, b: TyV, va: TyV, vb: TyV) -> bool {
    &&& wf(s0)
    &&& va == apply_v(s0, a)
    &&& vb == apply_v(s0, b)
    &&& resolved(s0, va)
    &&& resolved(s0, vb)
    &&& !(va is Var)
    &&& !(vb is Var)
    &&& measure_vars(s0, a, b) >= 0
}

/// Unifies `a` with `b` under `subst`, extending it.
pub fn unify_in(subst: &mut Subst, a: Ty, b: Ty) -> (r: Result<(), UnifyError>)
    requires
        wf(subst_view(old(subst)@)),
    ensures
        step_kept(subst_view(old(subst)@), subst_view(final(subst)@), a@, b@),
        unify_terminates(subst_view(old(subst)@), a@, b@),
        unify_v(subst_view(old(subst)@), a@, b@) == Some(outcome(r, subst_view(final(subst)@))),
    decreases measure_vars(subst_view(old(subst)@), a@, b@), measure_size(subst_view(old(subst)@), a@, b@), 3nat,
{
    let ghost s0 = subst_view(subst@);
    proof {
        lemma_wf_resolvable(s0, a@);
        lemma_wf_resolvable(s0, b@);
        lemma_apply_idempotent(s0, a@);
        lemma_apply_idempotent(s0, b@);
        lemma_universe_finite(s0, a@, b@);
        assert(s0.submap_of(s0));
    }
    let a1 = apply(subst, a);
    let b1 = apply(subst, b);
    let ghost va = a1@;
    let ghost vb = b1@;
    if let Some(v) = var_of(&a1) {
        let ghost vv = v;
        assert(ftv(va).contains(vv));
        let r = bind_var(subst, v, b1);
        proof {
            assert(unify_f(1, s0, a@, b@) == Some(bind_v(s0, vv, vb)));
            lemma_unify_fuel(1, s0, a@, b@);
            if r is Ok {
                lemma_bind_kept(s0, a@, b@, vv, vb);
            }
        }
        return r;
    }
    if let Some(v) = var_of(&b1) {
        let ghost vv = v;
        assert(ftv(vb).contains(vv));
        let r = bind_var(subst, v, a1);
        proof {
            assert(unify_f(1, s0, a@, b@) == Some(bind_v(s0, vv, va)));
            lemma_unify_fuel(1, s0, a@, b@);
            if r is Ok {
                lemma_bind_kept(s0, a@, b@, vv, va);
            }
        }
        return r;
    }
    unify_shapes(subst, a1, b1, Ghost(s0), Ghost(a@), Ghost(b@))
}

/// Unifies two resolved types, neither a variable, by their shapes.
fn unify_shapes(
    subst: &mut Subst,
    a1: Ty,
    b1: Ty,
    Ghost(s0): Ghost<SubstV>,
    Ghost(a): Ghost<TyV>,
    Ghost(b): Ghost<TyV>,
) -> (r: Result<(), UnifyError>)
    requires
        s0 == subst_view(old(subst)@),
        shapes_ready(s0, a, b, a1@, b1@),
    ensures
        step_kept(s0, subst_view(final(subst)@), a, b),
        unify_terminates(s0, a, b),
        unify_v(s0, a, b) == Some(outcome(r, subst_view(final(subst)@))),
    decreases measure_vars(s0, a, b), measure_size(s0, a, b), 2nat,
{
    let ghost va = a1@;
    let ghost vb = b1@;
    proof {
        lemma_universe_finite(s0, a, b);
        assert(s0.submap_of(s0));
    }
    match (a1, b1) {
        (Ty::Con(x), Ty::Con(y)) => {
            let r = if x == y || numeric_compatible(&x, &y) {
                Ok(())
            } else {
                Err(UnifyError::CannotUnify)
            };
            proof {
                assert(unify_f(1, s0, a, b) == Some(outcome(r, s0)));
                lemma_unify_fuel(1, s0, a, b);
            }
            r
        },
        (Ty::List(x), Ty::List(y)) => {
            proof {
                assert(ftv(va) == ftv(x@));
                assert(ftv(vb) == ftv(y@));
                lemma_sub_resolved(s0, va, x@);
                lemma_sub_resolved(s0, vb, y@);
                lemma_measure_step(s0, s0, a, b, x@, y@);
            }
            let r = unify_in(subst, *x, *y);
            proof {
                lemma_kept_trans(s0, s0, subst_view(subst@), a, b, x@, y@);
                let fc = unify_fuel(s0, x@, y@);
                assert(unify_f(fc + 1, s0, a, b) == unify_f(fc, s0, x@, y@));
                lemma_unify_fuel(fc + 1, s0, a, b);
            }
            r
        },
        (Ty::Func(x1, x2), Ty::Func(y1, y2)) => {
            proof {
                assert(ftv(va) == ftv(x1@).union(ftv(x2@)));
                assert(ftv(vb) == ftv(y1@).union(ftv(y2@)));
                lemma_sub_resolved(s0, va, x1@);
                lemma_sub_resolved(s0, vb, y1@);
                lemma_sub_resolved(s0, va, x2@);
                lemma_sub_resolved(s0, vb, y2@);
                assert forall|f: nat| #[trigger] unify_f(f + 1, s0, a, b) == and_then_f(f, unify_f(f, s0, x1@, y1@),
                    x2@, y2@) by {}
            }
            unify_two(subst, *x1, *y1, *x2, *y2, Ghost(s0), Ghost(a), Ghost(b))
        },
        (Ty::Tuple(xs), Ty::Tuple(ys)) => {
            proof {
                lemma_view_seq(xs@);
                lemma_view_seq(ys@);
            }
            if xs.len() != ys.len() {
                proof {
                    assert(unify_f(1, s0, a, b) == Some(Err::<SubstV, UnifyError>(UnifyError::TupleArity)));
                    lemma_unify_fuel(1, s0, a, b);
                }
                return Err(UnifyError::TupleArity);
            }
            proof {
                lemma_seq_parts(s0, a, b, va, view_seq(xs@));
                lemma_seq_parts(s0, a, b, vb, view_seq(ys@));
            }
            let (r, Ghost(fz)) = unify_seq_vec(subst, &xs, &ys, Ghost(s0), Ghost(a), Ghost(b));
            proof {
                assert(unify_f(fz + 1, s0, a, b) == unify_seq_f(fz, s0, view_seq(xs@), view_seq(ys@)));
                lemma_unify_fuel(fz + 1, s0, a, b);
            }
            r
        },
        (Ty::App { head: ha, args: xs }, Ty::App { head: hb, args: ys }) => {
            proof {
                lemma_view_seq(xs@);
                lemma_view_seq(ys@);
            }
            if xs.len() != ys.len() {
                proof {
                    assert(unify_f(1, s0, a, b) == Some(Err::<SubstV, UnifyError>(UnifyError::AppArity)));
                    lemma_unify_fuel(1, s0, a, b);
                }
                return Err(UnifyError::AppArity);
            }
            proof {
                assert forall|f: nat| #[trigger] unify_f(f + 1, s0, a, b) == (match unify_f(f, s0, ha@, hb@) {
                    Some(Ok(s1)) => unify_seq_f(f, s1, view_seq(xs@), view_seq(ys@)),
                    r => r,
                }) by {}
            }
            unify_app(subst, *ha, *hb, xs, ys, Ghost(s0), Ghost(a), Ghost(b), Ghost(va), Ghost(vb))
        },
        (Ty::Record(xs), Ty::Record(ys)) => {
            proof {
                lemma_view_fields(xs@);
                lemma_view_fields(ys@);
            }
            if xs.len() != ys.len() {
                proof {
                    assert(unify_f(1, s0, a, b) == Some(Err::<SubstV, UnifyError>(UnifyError::RecordArity)));
                    lemma_unify_fuel(1, s0, a, b);
                }
                return Err(UnifyError::RecordArity);
            }
            proof {
                assert forall|f: nat| #[trigger] unify_f(f + 1, s0, a, b) == (if dedup_last(view_fields(xs@)).len()
                    != dedup_last(view_fields(ys@)).len() {
                    Some(Err(UnifyError::RecordFieldMismatch))
                } else {
                    unify_lookup_f(f, s0, dedup_last(view_fields(xs@)), view_fields(ys@), true)
                }) by {}
            }
            unify_records(subst, xs, ys, Ghost(s0), Ghost(a), Ghost(b), Ghost(va), Ghost(vb))
        },
        (Ty::RecordOpen(req, rest), Ty::Record(act)) => {
            proof {
                assert forall|f: nat| #[trigger] unify_f(f + 1, s0, a, b) == and_then_f(f,
                    unify_lookup_f(f, s0, view_fields(req@), view_fields(act@), true), rest@,
                    TyV::Record(residual(view_fields(act@), view_fields(req@)))) by {}
            }
            unify_open_closed(subst, req, *rest, act, Ghost(s0), Ghost(a), Ghost(b), Ghost(va), Ghost(vb))
        },
        (Ty::Record(act), Ty::RecordOpen(req, rest)) => {
            proof {
                assert forall|f: nat| #[trigger] unify_f(f + 1, s0, a, b) == and_then_f(f,
                    unify_lookup_f(f, s0, view_fields(req@), view_fields(act@), true), rest@,
                    TyV::Record(residual(view_fields(act@), view_fields(req@)))) by {}
            }
            unify_open_closed(subst, req, *rest, act, Ghost(s0), Ghost(a), Ghost(b), Ghost(vb), Ghost(va))
        },
        (Ty::RecordOpen(xs, rx), Ty::RecordOpen(ys, ry)) => {
            proof {
                assert forall|f: nat| #[trigger] unify_f(f + 1, s0, a, b) == and_then_f(f,
                    unify_lookup_f(f, s0, dedup_last(view_fields(xs@)), view_fields(ys@), false), rx@, ry@) by {}
            }
            unify_open_open(subst, xs, *rx, ys, *ry, Ghost(s0), Ghost(a), Ghost(b), Ghost(va), Ghost(vb))
        },
        (x, y) => {
            proof {
                assert(unify_f(1, s0, a, b) == Some(Err::<SubstV, UnifyError>(UnifyError::CannotUnify)));
                lemma_unify_fuel(1, s0, a, b);
            }
            Err(UnifyError::CannotUnify)
        },
    }
}

/// Unifies `x1` with `y1`, then `x2` with `y2`.
fn unify_two(
    subst: &mut Subst,
    x1: Ty,
    y1: Ty,
    x2: Ty,
    y2: Ty,
    Ghost(s0): Ghost<SubstV>,
    Ghost(a): Ghost<TyV>,
    Ghost(b): Ghost<TyV>,
) -> (r: Result<(), UnifyError>)
    requires
        s0 == subst_view(old(subst)@),
        wf(s0),
        measure_vars(s0, a, b) >= 0,
        part_of(s0, a, b, x1@),
        part_of(s0, a, b, y1@),
        part_of(s0, a, b, x2@),
        part_of(s0, a, b, y2@),
        size(x1@) + size(y1@) < measure_size(s0, a, b),
        size(x2@) + size(y2@) < measure_size(s0, a, b),
        forall|f: nat| #[trigger] unify_f(f + 1, s0, a, b) == and_then_f(f, unify_f(f, s0, x1@, y1@), x2@, y2@),
    ensures
        step_kept(s0, subst_view(final(subst)@), a, b),
        unify_terminates(s0, a, b),
        unify_v(s0, a, b) == Some(outcome(r, subst_view(final(subst)@))),
    decreases measure_vars(s0, a, b), measure_size(s0, a, b), 1nat,
{
    proof {
        lemma_universe_finite(s0, a, b);
        assert(s0.submap_of(s0));
        lemma_measure_step(s0, s0, a, b, x1@, y1@);
    }
    let ghost vx1 = x1@;
    let ghost vy1 = y1@;
    let r1 = unify_in(subst, x1, y1);
    let ghost s1 = subst_view(subst@);
    let ghost f1 = unify_fuel(s0, vx1, vy1);
    proof {
        lemma_kept_trans(s0, s0, s1, a, b, vx1, vy1);
    }
    if r1.is_err() {
        proof {
            assert(unify_f(f1 + 1, s0, a, b) == and_then_f(f1, unify_f(f1, s0, vx1, vy1), x2@, y2@));
            lemma_unify_fuel(f1 + 1, s0, a, b);
        }
        return r1;
    }
    proof {
        lemma_measure_step(s0, s1, a, b, x2@, y2@);
    }
    let ghost vx2 = x2@;
    let ghost vy2 = y2@;
    let r2 = unify_in(subst, x2, y2);
    proof {
        lemma_kept_trans(s0, s1, subst_view(subst@), a, b, vx2, vy2);
        let f2 = unify_fuel(s1, vx2, vy2);
        let f = if f1 > f2 { f1 } else { f2 };
        lemma_unify_mono(f1, f, s0, vx1, vy1);
        lemma_unify_mono(f2, f, s1, vx2, vy2);
        assert(unify_f(f + 1, s0, a, b) == and_then_f(f, unify_f(f, s0, vx1, vy1), vx2, vy2));
        lemma_unify_fuel(f + 1, s0, a, b);
    }
    r2
}

/// Unifies two type applications: the heads, then the arguments in order.
fn unify_app(
    subst: &mut Subst,
    ha: Ty,
    hb: Ty,
    xs: Vec<Ty>,
    ys: Vec<Ty>,
    Ghost(s0): Ghost<SubstV>,
    Ghost(a): Ghost<TyV>,
    Ghost(b): Ghost<TyV>,
    Ghost(va): Ghost<TyV>,
    Ghost(vb): Ghost<TyV>,
) -> (r: Result<(), UnifyError>)
    requires
        s0 == subst_view(old(subst)@),
        shapes_ready(s0, a, b, va, vb),
        va == TyV::App(Box::new(ha@), view_seq(xs@)),
        vb == TyV::App(Box::new(hb@), view_seq(ys@)),
        xs.len() == ys.len(),
        forall|f: nat| #[trigger] unify_f(f + 1, s0, a, b) == (match unify_f(f, s0, ha@, hb@) {
            Some(Ok(s1)) => unify_seq_f(f, s1, view_seq(xs@), view_seq(ys@)),
            r => r,
        }),
    ensures
        step_kept(s0, subst_view(final(subst)@), a, b),
        unify_terminates(s0, a, b),
        unify_v(s0, a, b) == Some(outcome(r, subst_view(final(subst)@))),
    decreases measure_vars(s0, a, b), measure_size(s0, a, b), 1nat,
{
    proof {
        lemma_view_seq(xs@);
        lemma_view_seq(ys@);
        lemma_universe_finite(s0, a, b);
        assert(s0.submap_of(s0));
        assert(ftv(ha@).subset_of(ftv(va)));
        assert(ftv(hb@).subset_of(ftv(vb)));
        lemma_sub_resolved(s0, va, ha@);
        lemma_sub_resolved(s0, vb, hb@);
        lemma_measure_step(s0, s0, a, b, ha@, hb@);
    }
    let ghost vha = ha@;
    let ghost vhb = hb@;
    let r1 = unify_in(subst, ha, hb);
    let ghost s1 = subst_view(subst@);
    let ghost f1 = unify_fuel(s0, vha, vhb);
    proof {
        lemma_kept_trans(s0, s0, s1, a, b, vha, vhb);
    }
    if r1.is_err() {
        proof {
            assert(unify_f(f1 + 1, s0, a, b) == unify_f(f1, s0, vha, vhb));
            lemma_unify_fuel(f1 + 1, s0, a, b);
        }
        return r1;
    }
    proof {
        lemma_seq_parts(s0, a, b, va, view_seq(xs@));
        lemma_seq_parts(s0, a, b, vb, view_seq(ys@));
    }
    let (r, Ghost(f2)) = unify_seq_vec(subst, &xs, &ys, Ghost(s0), Ghost(a), Ghost(b));
    proof {
        let f = if f1 > f2 { f1 } else { f2 };
        lemma_unify_mono(f1, f, s0, vha, vhb);
        assert(unify_f(f + 1, s0, a, b) == unify_seq_f(f, s1, view_seq(xs@), view_seq(ys@)));
        lemma_unify_fuel(f + 1, s0, a, b);
    }
    r
}

/// Unifies two closed records of the same length.
fn unify_records(
    subst: &mut Subst,
    xs: Vec<(String, Ty)>,
    ys: Vec<(String, Ty)>,
    Ghost(s0): Ghost<SubstV>,
    Ghost(a): Ghost<TyV>,
    Ghost(b): Ghost<TyV>,
    Ghost(va): Ghost<TyV>,
    Ghost(vb): Ghost<TyV>,
) -> (r: Result<(), UnifyError>)
    requires
        s0 == subst_view(old(subst)@),
        shapes_ready(s0, a, b, va, vb),
        va == TyV::Record(view_fields(xs@)),
        vb == TyV::Record(view_fields(ys@)),
        forall|f: nat| #[trigger] unify_f(f + 1, s0, a, b) == (if dedup_last(view_fields(xs@)).len()
            != dedup_last(view_fields(ys@)).len() {
            Some(Err(UnifyError::RecordFieldMismatch))
        } else {
            unify_lookup_f(f, s0, dedup_last(view_fields(xs@)), view_fields(ys@), true)
        }),
    ensures
        step_kept(s0, subst_view(final(subst)@), a, b),
        unify_terminates(s0, a, b),
        unify_v(s0, a, b) == Some(outcome(r, subst_view(final(subst)@))),
    decreases measure_vars(s0, a, b), measure_size(s0, a, b), 1nat,
{
    proof {
        lemma_view_fields(xs@);
        lemma_view_fields(ys@);
        lemma_universe_finite(s0, a, b);
        assert(s0.submap_of(s0));
    }
    let dx = dedup_fields(&xs);
    let dy = dedup_fields(&ys);
    proof {
        lemma_view_fields(dx@);
        lemma_view_fields(dy@);
    }
    if dx.len() != dy.len() {
        proof {
            assert(unify_f(1, s0, a, b) == Some(Err::<SubstV, UnifyError>(UnifyError::RecordFieldMismatch)));
            lemma_unify_fuel(1, s0, a, b);
        }
        return Err(UnifyError::RecordFieldMismatch);
    }
    proof {
        lemma_fields_parts(s0, a, b, va, view_fields(xs@));
        lemma_fields_parts(s0, a, b, vb, view_fields(ys@));
        lemma_dedup_sub(view_fields(xs@));
        lemma_sub_parts(s0, a, b, view_fields(dx@), view_fields(xs@));
    }
    let (r, Ghost(fz)) = unify_lookup_vec(subst, &dx, &ys, true, Ghost(s0), Ghost(a), Ghost(b));
    proof {
        assert(unify_f(fz + 1, s0, a, b) == unify_lookup_f(fz, s0, view_fields(dx@), view_fields(ys@), true));
        lemma_unify_fuel(fz + 1, s0, a, b);
    }
    r
}

/// Unifies two open records: the fields they share, then the rests.
fn unify_open_open(
    subst: &mut Subst,
    xs: Vec<(String, Ty)>,
    rx: Ty,
    ys: Vec<(String, Ty)>,
    ry: Ty,
    Ghost(s0): Ghost<SubstV>,
    Ghost(a): Ghost<TyV>,
    Ghost(b): Ghost<TyV>,
    Ghost(va): Ghost<TyV>,
    Ghost(vb): Ghost<TyV>,
) -> (r: Result<(), UnifyError>)
    requires
        s0 == subst_view(old(subst)@),
        shapes_ready(s0, a, b, va, vb),
        va == TyV::RecordOpen(view_fields(xs@), Box::new(rx@)),
        vb == TyV::RecordOpen(view_fields(ys@), Box::new(ry@)),
        forall|f: nat| #[trigger] unify_f(f + 1, s0, a, b) == and_then_f(f,
            unify_lookup_f(f, s0, dedup_last(view_fields(xs@)), view_fields(ys@), false), rx@, ry@),
    ensures
        step_kept(s0, subst_view(final(subst)@), a, b),
        unify_terminates(s0, a, b),
        unify_v(s0, a, b) == Some(outcome(r, subst_view(final(subst)@))),
    decreases measure_vars(s0, a, b), measure_size(s0, a, b), 1nat,
{
    proof {
        lemma_view_fields(xs@);
        lemma_view_fields(ys@);
        lemma_universe_finite(s0, a, b);
        assert(s0.submap_of(s0));
    }
    let dx = dedup_fields(&xs);
    proof {
        lemma_view_fields(dx@);
        lemma_fields_parts(s0, a, b, va, view_fields(xs@));
        lemma_fields_parts(s0, a, b, vb, view_fields(ys@));
        lemma_dedup_sub(view_fields(xs@));
        lemma_sub_parts(s0, a, b, view_fields(dx@), view_fields(xs@));
    }
    let (r1, Ghost(f1)) = unify_lookup_vec(subst, &dx, &ys, false, Ghost(s0), Ghost(a), Ghost(b));
    let ghost s1 = subst_view(subst@);
    if r1.is_err() {
        proof {
            assert(unify_f(f1 + 1, s0, a, b) == and_then_f(f1,
                unify_lookup_f(f1, s0, view_fields(dx@), view_fields(ys@), false), rx@, ry@));
            lemma_unify_fuel(f1 + 1, s0, a, b);
        }
        return r1;
    }
    proof {
        assert(ftv(rx@).subset_of(ftv(va)));
        assert(ftv(ry@).subset_of(ftv(vb)));
        lemma_sub_resolved(s0, va, rx@);
        lemma_sub_resolved(s0, vb, ry@);
        lemma_measure_step(s0, s1, a, b, rx@, ry@);
    }
    let ghost vrx = rx@;
    let ghost vry = ry@;
    let r2 = unify_in(subst, rx, ry);
    proof {
        lemma_kept_trans(s0, s1, subst_view(subst@), a, b, vrx, vry);
        let f2 = unify_fuel(s1, vrx, vry);
        let f = if f1 > f2 { f1 } else { f2 };
        lemma_unify_mono(f2, f, s1, vrx, vry);
        assert(unify_f(f + 1, s0, a, b) == and_then_f(f,
            unify_lookup_f(f, s0, view_fields(dx@), view_fields(ys@), false), vrx, vry));
        lemma_unify_fuel(f + 1, s0, a, b);
    }
    r2
}

/// Steps compose: a step from `cur` on a part `(x, y)` of the problem is a
/// step on the whole problem.
proof fn lemma_kept_trans(s0: SubstV, cur: SubstV, next: SubstV, pa: TyV, pb: TyV, x: TyV, y: TyV)
    requires
        step_kept(s0, cur, pa, pb),
        step_kept(cur, next, x, y),
        universe(cur, x, y).subset_of(universe(s0, pa, pb)),
    ensures
        step_kept(s0, next, pa, pb),
{
    assert forall|k: u32| #[trigger] s0.dom().contains(k) implies #[trigger] next.dom().contains(k) && s0[k] == next[k] by {
        if s0.dom().contains(k) {
            assert(cur.dom().contains(k));
            assert(next.dom().contains(k));
        }
    }
}

/// The elements of a tuple or application are parts of the problem.
proof fn lemma_seq_parts(s0: SubstV, pa: TyV, pb: TyV, parent: TyV, ts: Seq<TyV>)
    requires
        parent == apply_v(s0, pa) || parent == apply_v(s0, pb),
        resolved(s0, parent),
        forall|i: int, w: u32| 0 <= i < ts.len() && #[trigger] ftv(ts[i]).contains(w) ==> ftv(parent).contains(w),
        sizes(ts) < size(parent),
    ensures
        forall|i: int| 0 <= i < ts.len() ==> part_of(s0, pa, pb, #[trigger] ts[i]),
{
    assert forall|i: int| 0 <= i < ts.len() implies part_of(s0, pa, pb, #[trigger] ts[i]) by {
        assert(ftv(ts[i]).subset_of(ftv(parent)));
        lemma_sub_resolved(s0, parent, ts[i]);
    }
}

/// The field types of a record are parts of the problem.
proof fn lemma_fields_parts(s0: SubstV, pa: TyV, pb: TyV, parent: TyV, fs: FieldsV)
    requires
        parent == apply_v(s0, pa) || parent == apply_v(s0, pb),
        resolved(s0, parent),
        forall|i: int, w: u32| 0 <= i < fs.len() && #[trigger] ftv(fs[i].1).contains(w) ==> ftv(parent).contains(w),
    ensures
        forall|i: int| 0 <= i < fs.len() ==> part_of(s0, pa, pb, (#[trigger] fs[i]).1),
{
    assert forall|i: int| 0 <= i < fs.len() implies part_of(s0, pa, pb, (#[trigger] fs[i]).1) by {
        assert(ftv(fs[i].1).subset_of(ftv(parent)));
        lemma_sub_resolved(s0, parent, fs[i].1);
    }
}

/// Fields taken from fields that are parts of the problem are parts too.
proof fn lemma_sub_parts(s0: SubstV, pa: TyV, pb: TyV, a: FieldsV, b: FieldsV)
    requires
        sub_fields(a, b),
        forall|i: int| 0 <= i < b.len() ==> part_of(s0, pa, pb, (#[trigger] b[i]).1),
    ensures
        forall|i: int| 0 <= i < a.len() ==> part_of(s0, pa, pb, (#[trigger] a[i]).1),
        ftv_fields(a).subset_of(ftv_fields(b)),
{
    assert forall|i: int| 0 <= i < a.len() implies part_of(s0, pa, pb, (#[trigger] a[i]).1) by {
        let j = choose|j: int| 0 <= j < b.len() && b[j] == a[i];
        assert(part_of(s0, pa, pb, b[j].1));
    }
    assert forall|w: u32| ftv_fields(a).contains(w) implies ftv_fields(b).contains(w) by {
        let i = choose|i: int| 0 <= i < a.len() && ftv(a[i].1).contains(w);
        let j = choose|j: int| 0 <= j < b.len() && b[j] == a[i];
        assert(ftv(b[j].1).contains(w));
    }
}

/// Unifies the pairs `xs[i]`, `ys[i]` in order.
fn unify_seq_vec(
    subst: &mut Subst,
    xs: &Vec<Ty>,
    ys: &Vec<Ty>,
    Ghost(s0): Ghost<SubstV>,
    Ghost(pa): Ghost<TyV>,
    Ghost(pb): Ghost<TyV>,
) -> (res: (Result<(), UnifyError>, Ghost<nat>))
    requires
        wf(s0),
        step_kept(s0, subst_view(old(subst)@), pa, pb),
        xs.len() == ys.len(),
        forall|i: int| 0 <= i < xs.len() ==> part_of(s0, pa, pb, #[trigger] view_seq(xs@)[i]),
        forall|i: int| 0 <= i < ys.len() ==> part_of(s0, pa, pb, #[trigger] view_seq(ys@)[i]),
        sizes(view_seq(xs@)) + sizes(view_seq(ys@)) < measure_size(s0, pa, pb),
    ensures
        step_kept(s0, subst_view(final(subst)@), pa, pb),
        forall|g: nat| g >= res.1@ ==> #[trigger] unify_seq_f(g, subst_view(old(subst)@), view_seq(xs@), view_seq(ys@))
            == Some(outcome(res.0, subst_view(final(subst)@))),
    decreases measure_vars(s0, pa, pb), measure_size(s0, pa, pb), 0nat,
{
    let ghost start = subst_view(subst@);
    proof {
        lemma_universe_finite(s0, pa, pb);
    }
    let ghost xv = view_seq(xs@);
    let ghost yv = view_seq(ys@);
    proof {
        lemma_view_seq(xs@);
        lemma_view_seq(ys@);
        assert(xv.skip(0) =~= xv);
        assert(yv.skip(0) =~= yv);
    }
    let ghost mut fz: nat = 0;
    let mut i: usize = 0;
    while i < xs.len()
        invariant
            i <= xs.len(),
            xs.len() == ys.len(),
            wf(s0),
            xv == view_seq(xs@),
            yv == view_seq(ys@),
            start == subst_view(old(subst)@),
            xv.len() == xs.len(),
            yv.len() == ys.len(),
            forall|j: int| 0 <= j < xs.len() ==> #[trigger] xv[j] == xs@[j]@,
            forall|j: int| 0 <= j < ys.len() ==> #[trigger] yv[j] == ys@[j]@,
            forall|j: int| 0 <= j < xs.len() ==> part_of(s0, pa, pb, #[trigger] xv[j]),
            forall|j: int| 0 <= j < ys.len() ==> part_of(s0, pa, pb, #[trigger] yv[j]),
            sizes(xv) + sizes(yv) < measure_size(s0, pa, pb),
            step_kept(s0, subst_view(subst@), pa, pb),
            forall|g: nat| g >= fz ==> #[trigger] unify_seq_f(g, start, xv, yv)
                == unify_seq_f(g, subst_view(subst@), xv.skip(i as int), yv.skip(i as int)),
        decreases xs.len() - i,
    {
        let ghost cur = subst_view(subst@);
        proof {
            lemma_sizes_elem(xv, i as int);
            lemma_sizes_elem(yv, i as int);
            assert(part_of(s0, pa, pb, xv[i as int]));
            assert(part_of(s0, pa, pb, yv[i as int]));
            lemma_measure_step(s0, cur, pa, pb, xv[i as int], yv[i as int]);
        }
        let x = ty_clone(&xs[i]);
        let y = ty_clone(&ys[i]);
        let r = unify_in(subst, x, y);
        let ghost fc = unify_fuel(cur, x@, y@);
        let ghost nf: nat = if fz > fc { fz } else { fc };
        proof {
            lemma_kept_trans(s0, cur, subst_view(subst@), pa, pb, x@, y@);
            assert(xv.skip(i as int)[0] == xv[i as int]);
            assert(yv.skip(i as int)[0] == yv[i as int]);
            assert(xv.skip(i as int).drop_first() =~= xv.skip(i + 1));
            assert(yv.skip(i as int).drop_first() =~= yv.skip(i + 1));
            assert forall|g: nat| g >= nf implies #[trigger] unify_seq_f(g, cur, xv.skip(i as int), yv.skip(i as int))
                == (match r {
                    Ok(_) => unify_seq_f(g, subst_view(subst@), xv.skip(i + 1), yv.skip(i + 1)),
                    Err(e) => Some(Err(e)),
                }) by {
                lemma_unify_mono(fc, g, cur, x@, y@);
            }
        }
        if r.is_err() {
            proof {
                assert forall|g: nat| g >= nf implies #[trigger] unify_seq_f(g, start, xv, yv)
                    == Some(outcome(r, subst_view(subst@))) by {
                    assert(unify_seq_f(g, start, xv, yv) == unify_seq_f(g, cur, xv.skip(i as int), yv.skip(i as int)));
                }
            }
            return (r, Ghost(nf));
        }
        proof {
            fz = nf;
        }
        i += 1;
    }
    proof {
        assert forall|g: nat| g >= fz implies #[trigger] unify_seq_f(g, start, xv, yv)
            == Some(outcome(Ok(()), subst_view(subst@))) by {
            assert(xv.skip(i as int).len() == 0);
        }
    }
    (Ok(()), Ghost(fz))
}

/// Unifies each field of `xs` with the last field of `ys` of the same name.
fn unify_lookup_vec(
    subst: &mut Subst,
    xs: &Vec<(String, Ty)>,
    ys: &Vec<(String, Ty)>,
    strict: bool,
    Ghost(s0): Ghost<SubstV>,
    Ghost(pa): Ghost<TyV>,
    Ghost(pb): Ghost<TyV>,
) -> (res: (Result<(), UnifyError>, Ghost<nat>))
    requires
        wf(s0),
        step_kept(s0, subst_view(old(subst)@), pa, pb),
        forall|i: int| 0 <= i < xs.len() ==> part_of(s0, pa, pb, (#[trigger] view_fields(xs@)[i]).1),
        forall|i: int| 0 <= i < ys.len() ==> part_of(s0, pa, pb, (#[trigger] view_fields(ys@)[i]).1),
        field_sizes(view_fields(xs@)) + field_sizes(view_fields(ys@)) < measure_size(s0, pa, pb),
    ensures
        step_kept(s0, subst_view(final(subst)@), pa, pb),
        forall|g: nat| g >= res.1@ ==> #[trigger] unify_lookup_f(g, subst_view(old(subst)@), view_fields(xs@),
            view_fields(ys@), strict) == Some(outcome(res.0, subst_view(final(subst)@))),
    decreases measure_vars(s0, pa, pb), measure_size(s0, pa, pb), 0nat,
{
    let ghost start = subst_view(subst@);
    proof {
        lemma_universe_finite(s0, pa, pb);
    }
    let ghost xv = view_fields(xs@);
    let ghost yv = view_fields(ys@);
    proof {
        lemma_view_fields(xs@);
        lemma_view_fields(ys@);
        assert(xv.skip(0) =~= xv);
    }
    let ghost mut fz: nat = 0;
    let mut i: usize = 0;
    while i < xs.len()
        invariant
            i <= xs.len(),
            wf(s0),
            xv == view_fields(xs@),
            yv == view_fields(ys@),
            start == subst_view(old(subst)@),
            xv.len() == xs.len(),
            yv.len() == ys.len(),
            forall|j: int| 0 <= j < xs.len() ==> #[trigger] xv[j] == (xs@[j].0@, xs@[j].1@),
            forall|j: int| 0 <= j < ys.len() ==> #[trigger] yv[j] == (ys@[j].0@, ys@[j].1@),
            forall|j: int| 0 <= j < xs.len() ==> part_of(s0, pa, pb, (#[trigger] xv[j]).1),
            forall|j: int| 0 <= j < ys.len() ==> part_of(s0, pa, pb, (#[trigger] yv[j]).1),
            field_sizes(xv) + field_sizes(yv) < measure_size(s0, pa, pb),
            step_kept(s0, subst_view(subst@), pa, pb),
            forall|g: nat| g >= fz ==> #[trigger] unify_lookup_f(g, start, xv, yv, strict)
                == unify_lookup_f(g, subst_view(subst@), xv.skip(i as int), yv, strict),
        decreases xs.len() - i,
    {
        let ghost cur = subst_view(subst@);
        proof {
            assert(xv.skip(i as int)[0] == xv[i as int]);
            assert(xv.skip(i as int).drop_first() =~= xv.skip(i + 1));
        }
        match find_last(ys, &xs[i].0) {
            None => {
                if strict {
                    proof {
                        assert(xv.skip(i as int).len() > 0);
                        assert(!has_key(yv, xv.skip(i as int)[0].0));
                        assert forall|g: nat| g >= fz implies #[trigger] unify_lookup_f(g, start, xv, yv, strict)
                            == Some(outcome(Err(UnifyError::RecordFieldMismatch), subst_view(subst@))) by {
                            assert(unify_lookup_f(g, start, xv, yv, strict) == unify_lookup_f(g, cur, xv.skip(i as int), yv, strict));
                            assert(unify_lookup_f(g, cur, xv.skip(i as int), yv, strict)
                                == Some(Err::<SubstV, UnifyError>(UnifyError::RecordFieldMismatch)));
                        }
                    }
                    return (Err(UnifyError::RecordFieldMismatch), Ghost(fz));
                }
                proof {
                    assert forall|g: nat| g >= fz implies #[trigger] unify_lookup_f(g, start, xv, yv, strict)
                        == unify_lookup_f(g, subst_view(subst@), xv.skip(i + 1), yv, strict) by {
                        assert(unify_lookup_f(g, cur, xv.skip(i as int), yv, strict)
                            == unify_lookup_f(g, cur, xv.skip(i + 1), yv, strict));
                    }
                }
            },
            Some(j) => {
                proof {
                    lemma_field_sizes_elem(xv, i as int);
                    lemma_field_sizes_elem(yv, j as int);
                    assert(yv[j as int] == (ys@[j as int].0@, ys@[j as int].1@));
                    assert(part_of(s0, pa, pb, xv[i as int].1));
                    assert(part_of(s0, pa, pb, yv[j as int].1));
                    lemma_measure_step(s0, cur, pa, pb, xv[i as int].1, yv[j as int].1);
                }
                let x = ty_clone(&xs[i].1);
                let y = ty_clone(&ys[j].1);
                let r = unify_in(subst, x, y);
                let ghost fc = unify_fuel(cur, x@, y@);
                let ghost nf: nat = if fz > fc { fz } else { fc };
                proof {
                    lemma_kept_trans(s0, cur, subst_view(subst@), pa, pb, x@, y@);
                    assert forall|g: nat| g >= nf implies #[trigger] unify_lookup_f(g, cur, xv.skip(i as int), yv, strict)
                        == (match r {
                            Ok(_) => unify_lookup_f(g, subst_view(subst@), xv.skip(i + 1), yv, strict),
                            Err(e) => Some(Err(e)),
                        }) by {
                        lemma_unify_mono(fc, g, cur, x@, y@);
                    }
                }
                if r.is_err() {
                    proof {
                        assert forall|g: nat| g >= nf implies #[trigger] unify_lookup_f(g, start, xv, yv, strict)
                            == Some(outcome(r, subst_view(subst@))) by {
                            assert(unify_lookup_f(g, start, xv, yv, strict) == unify_lookup_f(g, cur, xv.skip(i as int), yv, strict));
                        }
                    }
                    return (r, Ghost(nf));
                }
                proof {
                    fz = nf;
                }
            },
        }
        i += 1;
    }
    proof {
        assert forall|g: nat| g >= fz implies #[trigger] unify_lookup_f(g, start, xv, yv, strict)
            == Some(outcome(Ok(()), subst_view(subst@))) by {
            assert(xv.skip(i as int).len() == 0);
        }
    }
    (Ok(()), Ghost(fz))
}

/// Unifies an open record `{req, ...rest}` with a record `act`: each required
/// field with the field of the same name, then the rest with the record of
/// the fields left over.
fn unify_open_closed(
    subst: &mut Subst,
    req: Vec<(String, Ty)>,
    rest: Ty,
    act: Vec<(String, Ty)>,
    Ghost(s0): Ghost<SubstV>,
    Ghost(a): Ghost<TyV>,
    Ghost(b): Ghost<TyV>,
    Ghost(vo): Ghost<TyV>,
    Ghost(vc): Ghost<TyV>,
) -> (r: Result<(), UnifyError>)
    requires
        s0 == subst_view(old(subst)@),
        shapes_ready(s0, a, b, vo, vc) || shapes_ready(s0, a, b, vc, vo),
        vo == TyV::RecordOpen(view_fields(req@), Box::new(rest@)),
        vc == TyV::Record(view_fields(act@)),
        forall|f: nat| #[trigger] unify_f(f + 1, s0, a, b) == and_then_f(f,
            unify_lookup_f(f, s0, view_fields(req@), view_fields(act@), true), rest@,
            TyV::Record(residual(view_fields(act@), view_fields(req@)))),
    ensures
        step_kept(s0, subst_view(final(subst)@), a, b),
        unify_terminates(s0, a, b),
        unify_v(s0, a, b) == Some(outcome(r, subst_view(final(subst)@))),
    decreases measure_vars(s0, a, b), measure_size(s0, a, b), 1nat,
{
    proof {
        lemma_view_fields(req@);
        lemma_view_fields(act@);
        lemma_universe_finite(s0, a, b);
        assert(s0.submap_of(s0));
        lemma_fields_parts(s0, a, b, vo, view_fields(req@));
        lemma_fields_parts(s0, a, b, vc, view_fields(act@));
    }
    let (r1, Ghost(f1)) = unify_lookup_vec(subst, &req, &act, true, Ghost(s0), Ghost(a), Ghost(b));
    let ghost s1 = subst_view(subst@);
    let ghost vrest = rest@;
    if r1.is_err() {
        proof {
            assert(unify_f(f1 + 1, s0, a, b) == and_then_f(f1,
                unify_lookup_f(f1, s0, view_fields(req@), view_fields(act@), true), rest@,
                TyV::Record(residual(view_fields(act@), view_fields(req@)))));
            lemma_unify_fuel(f1 + 1, s0, a, b);
        }
        return r1;
    }
    let res = residual_vec(&act, &req);
    let rec = Ty::Record(res);
    proof {
        lemma_view_fields(res@);
        lemma_residual_sub(view_fields(act@), view_fields(req@));
        lemma_sub_parts(s0, a, b, view_fields(res@), view_fields(act@));
        assert(ftv(rec@) == ftv_fields(view_fields(res@)));
        assert(ftv(vc) == ftv_fields(view_fields(act@)));
        lemma_sub_resolved(s0, vc, rec@);
        assert(ftv(rest@).subset_of(ftv(vo)));
        lemma_sub_resolved(s0, vo, rest@);
        lemma_measure_step(s0, s1, a, b, rest@, rec@);
    }
    let ghost vrec = rec@;
    let r2 = unify_in(subst, rest, rec);
    proof {
        lemma_kept_trans(s0, s1, subst_view(subst@), a, b, vrest, vrec);
        let f2 = unify_fuel(s1, vrest, vrec);
        let f = if f1 > f2 { f1 } else { f2 };
        lemma_unify_mono(f2, f, s1, vrest, vrec);
        assert(unify_f(f + 1, s0, a, b) == and_then_f(f,
            unify_lookup_f(f, s0, view_fields(req@), view_fields(act@), true), rest@,
            TyV::Record(residual(view_fields(act@), view_fields(req@)))));
        lemma_unify_fuel(f + 1, s0, a, b);
    }
    r2
}


/// The empty substitution is well formed.
pub proof fn lemma_wf_empty()
    ensures
        wf(Map::<u32, TyV>::empty()),
{
    assert(bindings_settle(Map::<u32, TyV>::empty(), 0));
}

/// Unifies `a` with `b`, starting from the empty substitution: the
/// substitution that makes them agree, or why there is none.
pub fn unify(a: Ty, b: Ty) -> (r: Result<Subst, UnifyError>)
    ensures
        unify_terminates(Map::empty(), a@, b@),
        match r {
            Ok(s) => wf(subst_view(s@)) && unify_v(Map::empty(), a@, b@) == Some(
                Ok::<SubstV, UnifyError>(subst_view(s@)),
            ) && agree(apply_v(subst_view(s@), a@), apply_v(subst_view(s@), b@)),
            Err(e) => unify_v(Map::empty(), a@, b@) == Some(Err::<SubstV, UnifyError>(e)),
        },
{
    let mut subst: Subst = HashMap::new();
    proof {
        lemma_wf_empty();
        assert(subst_view(subst@) =~= Map::<u32, TyV>::empty());
    }
    let ghost av = a@;
    let ghost bv = b@;
    let r = unify_in(&mut subst, a, b);
    proof {
        law_unify_sound(av, bv);
    }
    match r {
        Ok(()) => Ok(subst),
        Err(e) => Err(e),
    }
}

/// Soundness: when unification from the empty substitution succeeds, its
/// substitution is well formed and makes the two types agree.
pub proof fn law_unify_sound(a: TyV, b: TyV)
    ensures
        match unify_v(Map::empty(), a, b) {
            Some(Ok(s)) => wf(s) && agree(apply_v(s, a), apply_v(s, b)),
            _ => true,
        },
{
    lemma_wf_empty();
    lemma_unify_f_sound(unify_fuel(Map::empty(), a, b), Map::empty(), a, b);
}

/// The occurs check: a variable does not unify with a type that contains it,
/// other than itself.
pub proof fn law_occurs_check(v: u32, t: TyV)
    requires
        ftv(t).contains(v),
        t != TyV::Var(v),
    ensures
        unify_v(Map::empty(), TyV::Var(v), t) == Some(Err::<SubstV, UnifyError>(UnifyError::OccursCheck)),
{
    let e = Map::<u32, TyV>::empty();
    lemma_wf_empty();
    lemma_apply_resolved_id(e, 0, TyV::Var(v));
    lemma_apply_resolved_id(e, 0, t);
    lemma_apply_v_fuel(e, 0, TyV::Var(v));
    lemma_apply_v_fuel(e, 0, t);
    lemma_occurs_fuel(e, 0, v, t);
    lemma_ftv_reach(e, 0, v, t);
    assert(unify_f(1, e, TyV::Var(v), t) == Some(bind_v(e, v, t)));
    lemma_unify_fuel(1, e, TyV::Var(v), t);
}

impl UnifyError {
    /// The diagnostic text of the error.
    pub fn message(&self) -> (r: String)
        ensures
            r@ == self.message_spec(),
    {
        match self {
            UnifyError::TupleArity => String::from_str("tuple arity mismatch"),
            UnifyError::RecordArity => String::from_str("record arity mismatch"),
            UnifyError::RecordFieldMismatch => String::from_str("record field mismatch"),
            UnifyError::AppArity => String::from_str("type application arity mismatch"),
            UnifyError::OccursCheck => String::from_str("occurs check"),
            UnifyError::CannotUnify => String::from_str("cannot unify"),
        }
    }

    pub open spec fn message_spec(&self) -> Seq<char> {
        match self {
            UnifyError::TupleArity => "tuple arity mismatch"@,
            UnifyError::RecordArity => "record arity mismatch"@,
            UnifyError::RecordFieldMismatch => "record field mismatch"@,
            UnifyError::AppArity => "type application arity mismatch"@,
            UnifyError::OccursCheck => "occurs check"@,
            UnifyError::CannotUnify => "cannot unify"@,
        }
    }
}

} // verus!
