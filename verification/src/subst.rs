//! Substitutions: finite maps from type variables to types, and their
//! application.
use vstd::prelude::*;
use std::collections::{HashMap, HashSet};
use crate::fields::map_vals;
use crate::ty::{
    field_sizes, ftv, lemma_ftv_finite, lemma_field_sizes_elem, lemma_sizes_elem, lemma_view_fields, lemma_view_seq, size,
    sizes, ty_clone, ftv_into, view_fields, view_seq, FieldsV, Ty, TyV,
};

verus! {

broadcast use vstd::std_specs::hash::group_hash_axioms;

/// A substitution from type variables to types.
pub type Subst = HashMap<u32, Ty>;

/// The model of a substitution.
pub type SubstV = Map<u32, TyV>;

pub open spec fn subst_view(s: Map<u32, Ty>) -> SubstV {
    s.map_values(|t: Ty| t@)
}

/// `settles(s, n, t)`: every chain of bindings that starts in `t` ends at an
/// unbound variable within `n` steps.
pub open spec fn settles(s: SubstV, n: nat, t: TyV) -> bool
    decreases n, t,
{
    match t {
        TyV::Var(v) => !s.contains_key(v) || (n > 0 && settles(s, (n - 1) as nat, s[v])),
        TyV::Con(_) => true,
        TyV::List(a) => settles(s, n, *a),
        TyV::Tuple(ts) => forall|i: int| 0 <= i < ts.len() ==> settles(s, n, ts[i]),
        TyV::Record(fs) => forall|i: int| 0 <= i < fs.len() ==> settles(s, n, fs[i].1),
        TyV::RecordOpen(fs, r) => (forall|i: int| 0 <= i < fs.len() ==> settles(s, n, fs[i].1))
            && settles(s, n, *r),
        TyV::App(h, args) => settles(s, n, *h) && forall|i: int|
            0 <= i < args.len() ==> settles(s, n, args[i]),
        TyV::Func(a, b) => settles(s, n, *a) && settles(s, n, *b),
    }
}

/// Applying `s` to `t`, following chains of bindings at most `n` deep.
pub open spec fn apply_f(s: SubstV, n: nat, t: TyV) -> TyV
    decreases n, t, 1nat,
{
    match t {
        TyV::Var(v) => if s.contains_key(v) && n > 0 {
            apply_f(s, (n - 1) as nat, s[v])
        } else {
            TyV::Var(v)
        },
        TyV::Con(c) => TyV::Con(c),
        TyV::List(a) => TyV::List(Box::new(apply_f(s, n, *a))),
        TyV::Tuple(ts) => TyV::Tuple(apply_seq_f(s, n, ts)),
        TyV::Record(fs) => TyV::Record(apply_fields_f(s, n, fs)),
        TyV::RecordOpen(fs, r) => TyV::RecordOpen(apply_fields_f(s, n, fs), Box::new(apply_f(s, n, *r))),
        TyV::App(h, args) => TyV::App(Box::new(apply_f(s, n, *h)), apply_seq_f(s, n, args)),
        TyV::Func(a, b) => TyV::Func(Box::new(apply_f(s, n, *a)), Box::new(apply_f(s, n, *b))),
    }
}

pub open spec fn apply_seq_f(s: SubstV, n: nat, ts: Seq<TyV>) -> Seq<TyV>
    decreases n, ts, 0nat,
{
    if ts.len() == 0 {
        Seq::empty()
    } else {
        apply_seq_f(s, n, ts.drop_last()).push(apply_f(s, n, ts.last()))
    }
}

pub open spec fn apply_fields_f(s: SubstV, n: nat, fs: FieldsV) -> FieldsV
    decreases n, fs, 0nat,
{
    if fs.len() == 0 {
        Seq::empty()
    } else {
        apply_fields_f(s, n, fs.drop_last()).push((fs.last().0, apply_f(s, n, fs.last().1)))
    }
}

/// Every chain of bindings that starts in `t` ends: applying `s` to `t`
/// terminates.
pub open spec fn resolvable(s: SubstV, t: TyV) -> bool {
    exists|n: nat| settles(s, n, t)
}

pub open spec fn settle_fuel(s: SubstV, t: TyV) -> nat {
    choose|n: nat| settles(s, n, t)
}

/// The result of applying `s` to `t` (meaningful where `resolvable(s, t)`).
pub open spec fn apply_v(s: SubstV, t: TyV) -> TyV {
    apply_f(s, settle_fuel(s, t), t)
}

/// A well-formed substitution: finite, and without cycles of bindings.
pub open spec fn wf(s: SubstV) -> bool {
    &&& s.dom().finite()
    &&& exists|n: nat| #[trigger] bindings_settle(s, n)
}

/// Every binding of `s` settles within `n` steps.
pub open spec fn bindings_settle(s: SubstV, n: nat) -> bool {
    forall|v: u32| #[trigger] s.contains_key(v) ==> settles(s, n, s[v])
}

/// No variable bound by `s` is free in `t`.
pub open spec fn resolved(s: SubstV, t: TyV) -> bool {
    forall|w: u32| #[trigger] ftv(t).contains(w) ==> !s.contains_key(w)
}

pub proof fn lemma_apply_seq_f(s: SubstV, n: nat, ts: Seq<TyV>)
    ensures
        apply_seq_f(s, n, ts).len() == ts.len(),
        forall|i: int| 0 <= i < ts.len() ==> #[trigger] apply_seq_f(s, n, ts)[i] == apply_f(s, n, ts[i]),
    decreases ts.len(),
{
    if ts.len() > 0 {
        lemma_apply_seq_f(s, n, ts.drop_last());
        assert(apply_seq_f(s, n, ts) == apply_seq_f(s, n, ts.drop_last()).push(apply_f(s, n, ts.last())));
    } else {
        assert(apply_seq_f(s, n, ts) == Seq::<TyV>::empty());
    }
}

pub proof fn lemma_apply_fields_f(s: SubstV, n: nat, fs: FieldsV)
    ensures
        apply_fields_f(s, n, fs).len() == fs.len(),
        forall|i: int| 0 <= i < fs.len() ==> #[trigger] apply_fields_f(s, n, fs)[i] == (fs[i].0, apply_f(s, n, fs[i].1)),
    decreases fs.len(),
{
    if fs.len() > 0 {
        lemma_apply_fields_f(s, n, fs.drop_last());
        assert(apply_fields_f(s, n, fs) == apply_fields_f(s, n, fs.drop_last()).push((fs.last().0, apply_f(s, n, fs.last().1))));
    } else {
        assert(apply_fields_f(s, n, fs) == FieldsV::empty());
    }
}

/// More fuel than needed changes nothing.
pub proof fn lemma_settles_mono(s: SubstV, n: nat, m: nat, t: TyV)
    requires
        settles(s, n, t),
        n <= m,
    ensures
        settles(s, m, t),
        apply_f(s, m, t) == apply_f(s, n, t),
    decreases n, t,
{
    match t {
        TyV::Var(v) => {
            if s.contains_key(v) {
                lemma_settles_mono(s, (n - 1) as nat, (m - 1) as nat, s[v]);
            }
        },
        TyV::Con(_) => {},
        TyV::List(a) => {
            lemma_settles_mono(s, n, m, *a);
        },
        TyV::Tuple(ts) => {
            lemma_settles_mono_seq(s, n, m, ts);
        },
        TyV::Record(fs) => {
            lemma_settles_mono_fields(s, n, m, fs);
        },
        TyV::RecordOpen(fs, r) => {
            lemma_settles_mono_fields(s, n, m, fs);
            lemma_settles_mono(s, n, m, *r);
        },
        TyV::App(h, args) => {
            lemma_settles_mono(s, n, m, *h);
            lemma_settles_mono_seq(s, n, m, args);
        },
        TyV::Func(a, b) => {
            lemma_settles_mono(s, n, m, *a);
            lemma_settles_mono(s, n, m, *b);
        },
    }
}

pub proof fn lemma_settles_mono_seq(s: SubstV, n: nat, m: nat, ts: Seq<TyV>)
    requires
        forall|i: int| 0 <= i < ts.len() ==> settles(s, n, ts[i]),
        n <= m,
    ensures
        forall|i: int| 0 <= i < ts.len() ==> settles(s, m, ts[i]),
        apply_seq_f(s, m, ts) == apply_seq_f(s, n, ts),
    decreases n, ts,
{
    lemma_apply_seq_f(s, n, ts);
    lemma_apply_seq_f(s, m, ts);
    assert forall|i: int| 0 <= i < ts.len() implies settles(s, m, ts[i])
        && apply_f(s, m, ts[i]) == apply_f(s, n, ts[i]) by {
        lemma_settles_mono(s, n, m, ts[i]);
    }
    assert(apply_seq_f(s, m, ts) =~= apply_seq_f(s, n, ts));
}

pub proof fn lemma_settles_mono_fields(s: SubstV, n: nat, m: nat, fs: FieldsV)
    requires
        forall|i: int| 0 <= i < fs.len() ==> settles(s, n, fs[i].1),
        n <= m,
    ensures
        forall|i: int| 0 <= i < fs.len() ==> settles(s, m, fs[i].1),
        apply_fields_f(s, m, fs) == apply_fields_f(s, n, fs),
    decreases n, fs,
{
    lemma_apply_fields_f(s, n, fs);
    lemma_apply_fields_f(s, m, fs);
    assert forall|i: int| 0 <= i < fs.len() implies settles(s, m, fs[i].1)
        && apply_f(s, m, fs[i].1) == apply_f(s, n, fs[i].1) by {
        assert(decreases_to!(fs => fs[i]));
        lemma_settles_mono(s, n, m, fs[i].1);
    }
    assert(apply_fields_f(s, m, fs) =~= apply_fields_f(s, n, fs));
}


/// Any settling fuel computes the same application.
pub proof fn lemma_apply_v_fuel(s: SubstV, n: nat, t: TyV)
    requires
        settles(s, n, t),
    ensures
        resolvable(s, t),
        apply_v(s, t) == apply_f(s, n, t),
{
    let k = settle_fuel(s, t);
    assert(settles(s, k, t));
    if k <= n {
        lemma_settles_mono(s, k, n, t);
    } else {
        lemma_settles_mono(s, n, k, t);
    }
}

/// Under a well-formed substitution every type settles.
pub proof fn lemma_wf_settles(s: SubstV, n: nat, t: TyV)
    requires
        bindings_settle(s, n),
    ensures
        settles(s, n + 1, t),
    decreases t,
{
    match t {
        TyV::Var(v) => {
            if s.contains_key(v) {
                assert(settles(s, n, s[v]));
            }
        },
        TyV::Con(_) => {},
        TyV::List(a) => {
            lemma_wf_settles(s, n, *a);
        },
        TyV::Tuple(ts) => {
            assert forall|i: int| 0 <= i < ts.len() implies settles(s, n + 1, ts[i]) by {
                lemma_wf_settles(s, n, ts[i]);
            }
        },
        TyV::Record(fs) => {
            assert forall|i: int| 0 <= i < fs.len() implies settles(s, n + 1, fs[i].1) by {
                assert(decreases_to!(fs => fs[i]));
                lemma_wf_settles(s, n, fs[i].1);
            }
        },
        TyV::RecordOpen(fs, r) => {
            assert forall|i: int| 0 <= i < fs.len() implies settles(s, n + 1, fs[i].1) by {
                assert(decreases_to!(fs => fs[i]));
                lemma_wf_settles(s, n, fs[i].1);
            }
            lemma_wf_settles(s, n, *r);
        },
        TyV::App(h, args) => {
            lemma_wf_settles(s, n, *h);
            assert forall|i: int| 0 <= i < args.len() implies settles(s, n + 1, args[i]) by {
                lemma_wf_settles(s, n, args[i]);
            }
        },
        TyV::Func(a, b) => {
            lemma_wf_settles(s, n, *a);
            lemma_wf_settles(s, n, *b);
        },
    }
}

pub proof fn lemma_wf_resolvable(s: SubstV, t: TyV)
    requires
        wf(s),
    ensures
        resolvable(s, t),
{
    let n = choose|n: nat| #[trigger] bindings_settle(s, n);
    lemma_wf_settles(s, n, t);
}

/// Applying a substitution leaves no variable that it binds.
pub proof fn lemma_apply_resolved(s: SubstV, n: nat, t: TyV)
    requires
        settles(s, n, t),
    ensures
        resolved(s, apply_f(s, n, t)),
    decreases n, t,
{
    match t {
        TyV::Var(v) => {
            if s.contains_key(v) {
                lemma_apply_resolved(s, (n - 1) as nat, s[v]);
                assert(apply_f(s, n, t) == apply_f(s, (n - 1) as nat, s[v]));
            } else {
                assert(apply_f(s, n, t) == t);
                assert forall|w: u32| #[trigger] ftv(t).contains(w) implies !s.contains_key(w) by {
                    assert(w == v);
                }
            }
        },
        TyV::Con(_) => {},
        TyV::List(a) => {
            lemma_apply_resolved(s, n, *a);
            assert(ftv(apply_f(s, n, t)) == ftv(apply_f(s, n, *a)));
        },
        TyV::Tuple(ts) => {
            lemma_apply_seq_f(s, n, ts);
            assert forall|i: int| 0 <= i < ts.len() implies resolved(s, apply_f(s, n, ts[i])) by {
                lemma_apply_resolved(s, n, ts[i]);
            }
            let r = apply_seq_f(s, n, ts);
            assert forall|w: u32| #[trigger] ftv(apply_f(s, n, t)).contains(w) implies !s.contains_key(w) by {
                let i = choose|i: int| 0 <= i < r.len() && ftv(r[i]).contains(w);
                assert(resolved(s, apply_f(s, n, ts[i])));
            }
        },
        TyV::Record(fs) => {
            lemma_apply_fields_f(s, n, fs);
            assert forall|i: int| 0 <= i < fs.len() implies resolved(s, apply_f(s, n, fs[i].1)) by {
                assert(decreases_to!(fs => fs[i]));
                lemma_apply_resolved(s, n, fs[i].1);
            }
            let r = apply_fields_f(s, n, fs);
            assert forall|w: u32| #[trigger] ftv(apply_f(s, n, t)).contains(w) implies !s.contains_key(w) by {
                let i = choose|i: int| 0 <= i < r.len() && ftv(r[i].1).contains(w);
                assert(resolved(s, apply_f(s, n, fs[i].1)));
            }
        },
        TyV::RecordOpen(fs, r) => {
            lemma_apply_fields_f(s, n, fs);
            assert forall|i: int| 0 <= i < fs.len() implies resolved(s, apply_f(s, n, fs[i].1)) by {
                assert(decreases_to!(fs => fs[i]));
                lemma_apply_resolved(s, n, fs[i].1);
            }
            lemma_apply_resolved(s, n, *r);
            let rr = apply_fields_f(s, n, fs);
            assert forall|w: u32| #[trigger] ftv(apply_f(s, n, t)).contains(w) implies !s.contains_key(w) by {
                if exists|i: int| 0 <= i < rr.len() && ftv(rr[i].1).contains(w) {
                    let i = choose|i: int| 0 <= i < rr.len() && ftv(rr[i].1).contains(w);
                    assert(resolved(s, apply_f(s, n, fs[i].1)));
                } else {
                    assert(ftv(apply_f(s, n, *r)).contains(w));
                }
            }
        },
        TyV::App(h, args) => {
            lemma_apply_seq_f(s, n, args);
            lemma_apply_resolved(s, n, *h);
            assert forall|i: int| 0 <= i < args.len() implies resolved(s, apply_f(s, n, args[i])) by {
                lemma_apply_resolved(s, n, args[i]);
            }
            let r = apply_seq_f(s, n, args);
            assert forall|w: u32| #[trigger] ftv(apply_f(s, n, t)).contains(w) implies !s.contains_key(w) by {
                if exists|i: int| 0 <= i < r.len() && ftv(r[i]).contains(w) {
                    let i = choose|i: int| 0 <= i < r.len() && ftv(r[i]).contains(w);
                    assert(resolved(s, apply_f(s, n, args[i])));
                } else {
                    assert(ftv(apply_f(s, n, *h)).contains(w));
                }
            }
        },
        TyV::Func(a, b) => {
            lemma_apply_resolved(s, n, *a);
            lemma_apply_resolved(s, n, *b);
            assert(ftv(apply_f(s, n, t)) == ftv(apply_f(s, n, *a)).union(ftv(apply_f(s, n, *b))));
        },
    }
}

/// A type with no bound variable is left unchanged.
pub proof fn lemma_apply_resolved_id(s: SubstV, n: nat, t: TyV)
    requires
        resolved(s, t),
    ensures
        settles(s, 0, t),
        apply_f(s, n, t) == t,
    decreases t,
{
    match t {
        TyV::Var(v) => {
            assert(ftv(t).contains(v));
        },
        TyV::Con(_) => {},
        TyV::List(a) => {
            assert forall|w: u32| #[trigger] ftv(*a).contains(w) implies !s.contains_key(w) by {
                assert(ftv(t).contains(w));
            }
            lemma_apply_resolved_id(s, n, *a);
        },
        TyV::Tuple(ts) => {
            lemma_apply_seq_f(s, n, ts);
            assert forall|i: int| 0 <= i < ts.len() implies settles(s, 0, ts[i]) && apply_f(s, n, ts[i]) == ts[i] by {
                assert forall|w: u32| #[trigger] ftv(ts[i]).contains(w) implies !s.contains_key(w) by {
                    assert(ftv(t).contains(w));
                }
                lemma_apply_resolved_id(s, n, ts[i]);
            }
            assert(apply_seq_f(s, n, ts) =~= ts);
        },
        TyV::Record(fs) => {
            lemma_apply_fields_f(s, n, fs);
            assert forall|i: int| 0 <= i < fs.len() implies settles(s, 0, fs[i].1) && apply_f(s, n, fs[i].1) == fs[i].1 by {
                assert forall|w: u32| #[trigger] ftv(fs[i].1).contains(w) implies !s.contains_key(w) by {
                    assert(ftv(t).contains(w));
                }
                assert(decreases_to!(fs => fs[i]));
                lemma_apply_resolved_id(s, n, fs[i].1);
            }
            assert(apply_fields_f(s, n, fs) =~= fs);
        },
        TyV::RecordOpen(fs, r) => {
            lemma_apply_fields_f(s, n, fs);
            assert forall|i: int| 0 <= i < fs.len() implies settles(s, 0, fs[i].1) && apply_f(s, n, fs[i].1) == fs[i].1 by {
                assert forall|w: u32| #[trigger] ftv(fs[i].1).contains(w) implies !s.contains_key(w) by {
                    assert(ftv(t).contains(w));
                }
                assert(decreases_to!(fs => fs[i]));
                lemma_apply_resolved_id(s, n, fs[i].1);
            }
            assert(apply_fields_f(s, n, fs) =~= fs);
            assert forall|w: u32| #[trigger] ftv(*r).contains(w) implies !s.contains_key(w) by {
                assert(ftv(t).contains(w));
            }
            lemma_apply_resolved_id(s, n, *r);
        },
        TyV::App(h, args) => {
            lemma_apply_seq_f(s, n, args);
            assert forall|w: u32| #[trigger] ftv(*h).contains(w) implies !s.contains_key(w) by {
                assert(ftv(t).contains(w));
            }
            lemma_apply_resolved_id(s, n, *h);
            assert forall|i: int| 0 <= i < args.len() implies settles(s, 0, args[i]) && apply_f(s, n, args[i]) == args[i] by {
                assert forall|w: u32| #[trigger] ftv(args[i]).contains(w) implies !s.contains_key(w) by {
                    assert(ftv(t).contains(w));
                }
                lemma_apply_resolved_id(s, n, args[i]);
            }
            assert(apply_seq_f(s, n, args) =~= args);
        },
        TyV::Func(a, b) => {
            assert forall|w: u32| #[trigger] ftv(*a).contains(w) implies !s.contains_key(w) by {
                assert(ftv(t).contains(w));
            }
            assert forall|w: u32| #[trigger] ftv(*b).contains(w) implies !s.contains_key(w) by {
                assert(ftv(t).contains(w));
            }
            lemma_apply_resolved_id(s, n, *a);
            lemma_apply_resolved_id(s, n, *b);
        },
    }
}

/// Applying twice is applying once.
pub proof fn lemma_apply_idempotent(s: SubstV, t: TyV)
    requires
        resolvable(s, t),
    ensures
        resolved(s, apply_v(s, t)),
        resolvable(s, apply_v(s, t)),
        apply_v(s, apply_v(s, t)) == apply_v(s, t),
{
    let n = settle_fuel(s, t);
    lemma_apply_resolved(s, n, t);
    lemma_apply_resolved_id(s, 0, apply_v(s, t));
    lemma_apply_v_fuel(s, 0, apply_v(s, t));
}


/// Applies `subst` to `t`, following chains of bindings.
pub fn apply(subst: &Subst, t: Ty) -> (r: Ty)
    requires
        resolvable(subst_view(subst@), t@),
    ensures
        r@ == apply_v(subst_view(subst@), t@),
{
    let ghost n = settle_fuel(subst_view(subst@), t@);
    proof {
        lemma_apply_v_fuel(subst_view(subst@), n, t@);
    }
    apply_ref(subst, &t, Ghost(n))
}

pub(crate) fn apply_ref(subst: &Subst, t: &Ty, Ghost(n): Ghost<nat>) -> (r: Ty)
    requires
        settles(subst_view(subst@), n, t@),
    ensures
        r@ == apply_f(subst_view(subst@), n, t@),
    decreases n, size(t@), 1nat,
{
    let ghost sv = subst_view(subst@);
    match t {
        Ty::Var(v) => match subst.get(v) {
            Some(u) => {
                assert(sv[*v] == u@);
                apply_ref(subst, u, Ghost((n - 1) as nat))
            },
            None => Ty::Var(*v),
        },
        Ty::Con(c) => Ty::Con(c.clone()),
        Ty::List(a) => Ty::List(Box::new(apply_ref(subst, a, Ghost(n)))),
        Ty::Tuple(ts) => {
            assert(t@ == TyV::Tuple(view_seq(ts@)));
            proof { lemma_view_seq(ts@); }
            assert(forall|i: int| 0 <= i < ts.len() ==> settles(sv, n, #[trigger] view_seq(ts@)[i]));
            Ty::Tuple(apply_vec(subst, ts, Ghost(n), Ghost(size(t@))))
        },
        Ty::Record(fs) => {
            assert(t@ == TyV::Record(view_fields(fs@)));
            proof { lemma_view_fields(fs@); }
            assert(forall|i: int| 0 <= i < fs.len() ==> settles(sv, n, (#[trigger] view_fields(fs@)[i]).1));
            Ty::Record(apply_fields(subst, fs, Ghost(n), Ghost(size(t@))))
        },
        Ty::RecordOpen(fs, r) => {
            proof { lemma_view_fields(fs@); }
            let fs2 = apply_fields(subst, fs, Ghost(n), Ghost(size(t@)));
            Ty::RecordOpen(fs2, Box::new(apply_ref(subst, r, Ghost(n))))
        },
        Ty::App { head, args } => {
            proof { lemma_view_seq(args@); }
            let h = apply_ref(subst, head, Ghost(n));
            Ty::App { head: Box::new(h), args: apply_vec(subst, args, Ghost(n), Ghost(size(t@))) }
        },
        Ty::Func(a, b) => {
            let a2 = apply_ref(subst, a, Ghost(n));
            Ty::Func(Box::new(a2), Box::new(apply_ref(subst, b, Ghost(n))))
        },
    }
}

fn apply_vec(subst: &Subst, ts: &Vec<Ty>, Ghost(n): Ghost<nat>, Ghost(bound): Ghost<nat>) -> (r: Vec<Ty>)
    requires
        sizes(view_seq(ts@)) < bound,
        forall|i: int| 0 <= i < ts.len() ==> settles(subst_view(subst@), n, #[trigger] view_seq(ts@)[i]),
    ensures
        view_seq(r@) == apply_seq_f(subst_view(subst@), n, view_seq(ts@)),
    decreases n, bound, 0nat,
{
    let ghost sv = subst_view(subst@);
    let mut out: Vec<Ty> = Vec::new();
    let mut i: usize = 0;
    proof {
        lemma_view_seq(ts@);
    }
    while i < ts.len()
        invariant
            i <= ts.len(),
            out.len() == i,
            sv == subst_view(subst@),
            sizes(view_seq(ts@)) < bound,
            view_seq(ts@).len() == ts.len(),
            forall|j: int| 0 <= j < ts.len() ==> #[trigger] view_seq(ts@)[j] == ts@[j]@,
            forall|j: int| 0 <= j < ts.len() ==> settles(sv, n, #[trigger] view_seq(ts@)[j]),
            forall|j: int| 0 <= j < i ==> out@[j]@ == apply_f(sv, n, ts@[j]@),
        decreases ts.len() - i,
    {
        proof {
            lemma_sizes_elem(view_seq(ts@), i as int);
            assert(view_seq(ts@)[i as int] == ts@[i as int]@);
        }
        let c = apply_ref(subst, &ts[i], Ghost(n));
        out.push(c);
        i += 1;
    }
    proof {
        lemma_view_seq(out@);
        lemma_apply_seq_f(sv, n, view_seq(ts@));
    }
    assert(view_seq(out@) =~= apply_seq_f(sv, n, view_seq(ts@)));
    out
}

fn apply_fields(subst: &Subst, fs: &Vec<(String, Ty)>, Ghost(n): Ghost<nat>, Ghost(bound): Ghost<nat>) -> (r: Vec<(String, Ty)>)
    requires
        field_sizes(view_fields(fs@)) < bound,
        forall|i: int| 0 <= i < fs.len() ==> settles(subst_view(subst@), n, (#[trigger] view_fields(fs@)[i]).1),
    ensures
        view_fields(r@) == apply_fields_f(subst_view(subst@), n, view_fields(fs@)),
    decreases n, bound, 0nat,
{
    let ghost sv = subst_view(subst@);
    let mut out: Vec<(String, Ty)> = Vec::new();
    let mut i: usize = 0;
    proof {
        lemma_view_fields(fs@);
    }
    while i < fs.len()
        invariant
            i <= fs.len(),
            out.len() == i,
            sv == subst_view(subst@),
            field_sizes(view_fields(fs@)) < bound,
            view_fields(fs@).len() == fs.len(),
            forall|j: int| 0 <= j < fs.len() ==> #[trigger] view_fields(fs@)[j] == (fs@[j].0@, fs@[j].1@),
            forall|j: int| 0 <= j < fs.len() ==> settles(sv, n, (#[trigger] view_fields(fs@)[j]).1),
            forall|j: int| 0 <= j < i ==> out@[j].0@ == fs@[j].0@ && out@[j].1@ == apply_f(sv, n, fs@[j].1@),
        decreases fs.len() - i,
    {
        proof {
            lemma_field_sizes_elem(view_fields(fs@), i as int);
            assert(view_fields(fs@)[i as int] == (fs@[i as int].0@, fs@[i as int].1@));
        }
        let c = apply_ref(subst, &fs[i].1, Ghost(n));
        let name = fs[i].0.clone();
        out.push((name, c));
        i += 1;
    }
    proof {
        lemma_view_fields(out@);
        lemma_apply_fields_f(sv, n, view_fields(fs@));
        assert forall|j: int| 0 <= j < fs.len() implies view_fields(out@)[j] == apply_fields_f(sv, n, view_fields(fs@))[j] by {
            assert(view_fields(fs@)[j] == (fs@[j].0@, fs@[j].1@));
        }
    }
    assert(view_fields(out@) =~= apply_fields_f(sv, n, view_fields(fs@)));
    out
}


/// `v` is met when following `t` and the chains of bindings from it, at most
/// `n` bindings deep.
pub open spec fn reach_f(s: SubstV, n: nat, v: u32, t: TyV) -> bool
    decreases n, t,
{
    match t {
        TyV::Var(x) => x == v || (s.contains_key(x) && n > 0 && reach_f(s, (n - 1) as nat, v, s[x])),
        TyV::Con(_) => false,
        TyV::List(a) => reach_f(s, n, v, *a),
        TyV::Tuple(ts) => exists|i: int| 0 <= i < ts.len() && reach_f(s, n, v, ts[i]),
        TyV::Record(fs) => exists|i: int| 0 <= i < fs.len() && reach_f(s, n, v, fs[i].1),
        TyV::RecordOpen(fs, r) => (exists|i: int| 0 <= i < fs.len() && reach_f(s, n, v, fs[i].1))
            || reach_f(s, n, v, *r),
        TyV::App(h, args) => reach_f(s, n, v, *h) || exists|i: int|
            0 <= i < args.len() && reach_f(s, n, v, args[i]),
        TyV::Func(a, b) => reach_f(s, n, v, *a) || reach_f(s, n, v, *b),
    }
}

/// `v` occurs in `t` once the bindings of `s` are followed.
pub open spec fn occurs_v(s: SubstV, v: u32, t: TyV) -> bool {
    reach_f(s, settle_fuel(s, t), v, t)
}

pub proof fn lemma_reach_mono(s: SubstV, n: nat, m: nat, v: u32, t: TyV)
    requires
        settles(s, n, t),
        n <= m,
    ensures
        reach_f(s, m, v, t) == reach_f(s, n, v, t),
    decreases n, t,
{
    match t {
        TyV::Var(x) => {
            if s.contains_key(x) {
                lemma_reach_mono(s, (n - 1) as nat, (m - 1) as nat, v, s[x]);
            }
        },
        TyV::Con(_) => {},
        TyV::List(a) => {
            lemma_reach_mono(s, n, m, v, *a);
        },
        TyV::Tuple(ts) => {
            assert forall|i: int| 0 <= i < ts.len() implies reach_f(s, m, v, ts[i]) == reach_f(s, n, v, ts[i]) by {
                lemma_reach_mono(s, n, m, v, ts[i]);
            }
        },
        TyV::Record(fs) => {
            assert forall|i: int| 0 <= i < fs.len() implies reach_f(s, m, v, fs[i].1) == reach_f(s, n, v, fs[i].1) by {
                assert(decreases_to!(fs => fs[i]));
                lemma_reach_mono(s, n, m, v, fs[i].1);
            }
        },
        TyV::RecordOpen(fs, r) => {
            assert forall|i: int| 0 <= i < fs.len() implies reach_f(s, m, v, fs[i].1) == reach_f(s, n, v, fs[i].1) by {
                assert(decreases_to!(fs => fs[i]));
                lemma_reach_mono(s, n, m, v, fs[i].1);
            }
            lemma_reach_mono(s, n, m, v, *r);
        },
        TyV::App(h, args) => {
            lemma_reach_mono(s, n, m, v, *h);
            assert forall|i: int| 0 <= i < args.len() implies reach_f(s, m, v, args[i]) == reach_f(s, n, v, args[i]) by {
                lemma_reach_mono(s, n, m, v, args[i]);
            }
        },
        TyV::Func(a, b) => {
            lemma_reach_mono(s, n, m, v, *a);
            lemma_reach_mono(s, n, m, v, *b);
        },
    }
}

pub proof fn lemma_occurs_fuel(s: SubstV, n: nat, v: u32, t: TyV)
    requires
        settles(s, n, t),
    ensures
        occurs_v(s, v, t) == reach_f(s, n, v, t),
{
    let k = settle_fuel(s, t);
    assert(settles(s, k, t));
    if k <= n {
        lemma_reach_mono(s, k, n, v, t);
    } else {
        lemma_reach_mono(s, n, k, v, t);
    }
}

/// A bound variable met from a settling type itself settles, with less fuel.
pub proof fn lemma_reach_settles(s: SubstV, n: nat, m: nat, x: u32, t: TyV)
    requires
        settles(s, n, t),
        reach_f(s, m, x, t),
        s.contains_key(x),
    ensures
        n > 0,
        settles(s, (n - 1) as nat, s[x]),
    decreases m, t,
{
    match t {
        TyV::Var(y) => {
            if y != x {
                lemma_reach_settles(s, (n - 1) as nat, (m - 1) as nat, x, s[y]);
                lemma_settles_mono(s, (n - 2) as nat, (n - 1) as nat, s[x]);
            }
        },
        TyV::Con(_) => {},
        TyV::List(a) => {
            lemma_reach_settles(s, n, m, x, *a);
        },
        TyV::Tuple(ts) => {
            let i = choose|i: int| 0 <= i < ts.len() && reach_f(s, m, x, ts[i]);
            lemma_reach_settles(s, n, m, x, ts[i]);
        },
        TyV::Record(fs) => {
            let i = choose|i: int| 0 <= i < fs.len() && reach_f(s, m, x, fs[i].1);
            assert(decreases_to!(fs => fs[i]));
            lemma_reach_settles(s, n, m, x, fs[i].1);
        },
        TyV::RecordOpen(fs, r) => {
            if exists|i: int| 0 <= i < fs.len() && reach_f(s, m, x, fs[i].1) {
                let i = choose|i: int| 0 <= i < fs.len() && reach_f(s, m, x, fs[i].1);
                assert(decreases_to!(fs => fs[i]));
                lemma_reach_settles(s, n, m, x, fs[i].1);
            } else {
                lemma_reach_settles(s, n, m, x, *r);
            }
        },
        TyV::App(h, args) => {
            if reach_f(s, m, x, *h) {
                lemma_reach_settles(s, n, m, x, *h);
            } else {
                let i = choose|i: int| 0 <= i < args.len() && reach_f(s, m, x, args[i]);
                lemma_reach_settles(s, n, m, x, args[i]);
            }
        },
        TyV::Func(a, b) => {
            if reach_f(s, m, x, *a) {
                lemma_reach_settles(s, n, m, x, *a);
            } else {
                lemma_reach_settles(s, n, m, x, *b);
            }
        },
    }
}

/// No binding of a settling substitution leads back to its own variable.
pub proof fn lemma_no_cycle(s: SubstV, n: nat, m: nat, x: u32)
    requires
        s.contains_key(x),
        settles(s, n, s[x]),
    ensures
        !reach_f(s, m, x, s[x]),
    decreases n,
{
    if reach_f(s, m, x, s[x]) {
        lemma_reach_settles(s, n, m, x, s[x]);
        lemma_no_cycle(s, (n - 1) as nat, m, x);
    }
}

/// The fuel that lets every type settle under a well-formed substitution.
pub open spec fn wf_fuel(s: SubstV) -> nat {
    (choose|n: nat| #[trigger] bindings_settle(s, n)) + 1
}

pub proof fn lemma_wf_fuel(s: SubstV, t: TyV)
    requires
        wf(s),
    ensures
        settles(s, wf_fuel(s), t),
{
    let n = choose|n: nat| #[trigger] bindings_settle(s, n);
    lemma_wf_settles(s, n, t);
}

/// Whether `v` occurs in `t` once the bindings of `subst` are followed.
pub(crate) fn occurs(subst: &Subst, v: u32, t: &Ty) -> (r: bool)
    requires
        wf(subst_view(subst@)),
    ensures
        r == occurs_v(subst_view(subst@), v, t@),
{
    let ghost sv = subst_view(subst@);
    let ghost n = wf_fuel(sv);
    proof {
        lemma_wf_fuel(sv, t@);
        lemma_occurs_fuel(sv, n, v, t@);
    }
    let mut seen: HashSet<u32> = HashSet::new();
    occurs_in(subst, &mut seen, v, t, Ghost(n), Ghost(n))
}

/// Depth-first search for `v`, skipping the variables in `seen`.
fn occurs_in(subst: &Subst, seen: &mut HashSet<u32>, v: u32, t: &Ty, Ghost(n): Ghost<nat>, Ghost(big): Ghost<nat>) -> (r: bool)
    requires
        wf(subst_view(subst@)),
        big == wf_fuel(subst_view(subst@)),
        settles(subst_view(subst@), n, t@),
        forall|y: u32| #[trigger] old(seen)@.contains(y) && reach_f(subst_view(subst@), big, y, t@)
            ==> !reach_f(subst_view(subst@), big, v, TyV::Var(y)),
    ensures
        r == reach_f(subst_view(subst@), big, v, t@),
        old(seen)@.subset_of(final(seen)@),
        forall|y: u32| #[trigger] final(seen)@.contains(y) && !old(seen)@.contains(y) ==>
            reach_f(subst_view(subst@), big, y, t@) && (!r ==> !reach_f(subst_view(subst@), big, v, TyV::Var(y))),
    decreases n, size(t@), 1nat,
{
    let ghost sv = subst_view(subst@);
    match t {
        Ty::Var(x) => {
            if *x == v {
                return true;
            }
            if !seen.insert(*x) {
                assert(reach_f(sv, big, *x, t@));
                return false;
            }
            match subst.get(x) {
                Some(u) => {
                    assert(sv[*x] == u@);
                    proof {
                        let k0 = choose|k: nat| #[trigger] bindings_settle(sv, k);
                        assert(bindings_settle(sv, k0));
                        assert(big - 1 == k0);
                        assert(sv.contains_key(*x));
                        assert(settles(sv, k0, sv[*x]));
                        assert(settles(sv, (n - 1) as nat, u@));
                        lemma_reach_mono(sv, (big - 1) as nat, big, v, u@);
                        assert forall|y: u32| #[trigger] seen@.contains(y) && reach_f(sv, big, y, u@)
                            implies !reach_f(sv, big, v, TyV::Var(y)) by {
                            lemma_reach_mono(sv, (big - 1) as nat, big, y, u@);
                            if y == *x {
                                let k = choose|k: nat| #[trigger] bindings_settle(sv, k);
                                assert(settles(sv, k, sv[*x]));
                                lemma_no_cycle(sv, k, big, *x);
                            } else {
                                assert(reach_f(sv, big, y, t@));
                            }
                        }
                    }
                    let r = occurs_in(subst, seen, v, u, Ghost((n - 1) as nat), Ghost(big));
                    proof {
                        assert forall|y: u32| #[trigger] seen@.contains(y) && !old(seen)@.contains(y)
                            implies reach_f(sv, big, y, t@) && (!r ==> !reach_f(sv, big, v, TyV::Var(y))) by {
                            lemma_reach_mono(sv, (big - 1) as nat, big, y, u@);
                        }
                    }
                    r
                },
                None => false,
            }
        },
        Ty::Con(_) => false,
        Ty::List(a) => occurs_in(subst, seen, v, a, Ghost(n), Ghost(big)),
        Ty::Func(a, b) => {
            proof {
                assert forall|y: u32| #[trigger] seen@.contains(y) && reach_f(sv, big, y, a@)
                    implies !reach_f(sv, big, v, TyV::Var(y)) by {
                    assert(reach_f(sv, big, y, t@));
                }
            }
            if occurs_in(subst, seen, v, a, Ghost(n), Ghost(big)) {
                return true;
            }
            let ghost mid = seen@;
            proof {
                assert forall|y: u32| #[trigger] seen@.contains(y) && reach_f(sv, big, y, b@)
                    implies !reach_f(sv, big, v, TyV::Var(y)) by {
                    if !old(seen)@.contains(y) {
                    } else {
                        assert(reach_f(sv, big, y, t@));
                    }
                }
            }
            occurs_in(subst, seen, v, b, Ghost(n), Ghost(big))
        },
        Ty::Tuple(ts) => {
            proof {
                lemma_view_seq(ts@);
            }
            occurs_seq(subst, seen, v, ts, Ghost(n), Ghost(big), Ghost(t@))
        },
        Ty::Record(fs) => {
            proof {
                lemma_view_fields(fs@);
            }
            occurs_fields(subst, seen, v, fs, Ghost(n), Ghost(big), Ghost(t@))
        },
        Ty::RecordOpen(fs, rest) => {
            proof {
                lemma_view_fields(fs@);
            }
            if occurs_fields(subst, seen, v, fs, Ghost(n), Ghost(big), Ghost(t@)) {
                return true;
            }
            proof {
                assert forall|y: u32| #[trigger] seen@.contains(y) && reach_f(sv, big, y, rest@)
                    implies !reach_f(sv, big, v, TyV::Var(y)) by {
                    if old(seen)@.contains(y) {
                        assert(reach_f(sv, big, y, t@));
                    }
                }
            }
            occurs_in(subst, seen, v, rest, Ghost(n), Ghost(big))
        },
        Ty::App { head, args } => {
            proof {
                lemma_view_seq(args@);
                assert forall|y: u32| #[trigger] seen@.contains(y) && reach_f(sv, big, y, head@)
                    implies !reach_f(sv, big, v, TyV::Var(y)) by {
                    assert(reach_f(sv, big, y, t@));
                }
            }
            if occurs_in(subst, seen, v, head, Ghost(n), Ghost(big)) {
                return true;
            }
            occurs_seq(subst, seen, v, args, Ghost(n), Ghost(big), Ghost(t@))
        },
    }
}

fn occurs_seq(subst: &Subst, seen: &mut HashSet<u32>, v: u32, ts: &Vec<Ty>, Ghost(n): Ghost<nat>, Ghost(big): Ghost<nat>, Ghost(parent): Ghost<TyV>) -> (r: bool)
    requires
        wf(subst_view(subst@)),
        big == wf_fuel(subst_view(subst@)),
        sizes(view_seq(ts@)) < size(parent),
        forall|i: int| 0 <= i < ts.len() ==> settles(subst_view(subst@), n, #[trigger] view_seq(ts@)[i]),
        forall|i: int, y: u32| 0 <= i < ts.len() && #[trigger] reach_f(subst_view(subst@), big, y, view_seq(ts@)[i])
            ==> reach_f(subst_view(subst@), big, y, parent),
        forall|y: u32| #[trigger] old(seen)@.contains(y) && reach_f(subst_view(subst@), big, y, parent)
            ==> !reach_f(subst_view(subst@), big, v, TyV::Var(y)),
    ensures
        r == exists|i: int| 0 <= i < ts.len() && reach_f(subst_view(subst@), big, v, #[trigger] view_seq(ts@)[i]),
        old(seen)@.subset_of(final(seen)@),
        forall|y: u32| #[trigger] final(seen)@.contains(y) && !old(seen)@.contains(y) ==>
            reach_f(subst_view(subst@), big, y, parent) && (!r ==> !reach_f(subst_view(subst@), big, v, TyV::Var(y))),
    decreases n, size(parent), 0nat,
{
    let ghost sv = subst_view(subst@);
    proof {
        lemma_view_seq(ts@);
    }
    let mut i: usize = 0;
    while i < ts.len()
        invariant
            i <= ts.len(),
            sv == subst_view(subst@),
            wf(sv),
            big == wf_fuel(sv),
            sizes(view_seq(ts@)) < size(parent),
            view_seq(ts@).len() == ts.len(),
            forall|j: int| 0 <= j < ts.len() ==> #[trigger] view_seq(ts@)[j] == ts@[j]@,
            forall|j: int| 0 <= j < ts.len() ==> settles(sv, n, #[trigger] view_seq(ts@)[j]),
            forall|j: int, y: u32| 0 <= j < ts.len() && #[trigger] reach_f(sv, big, y, view_seq(ts@)[j])
                ==> reach_f(sv, big, y, parent),
            forall|y: u32| #[trigger] old(seen)@.contains(y) && reach_f(sv, big, y, parent)
                ==> !reach_f(sv, big, v, TyV::Var(y)),
            forall|j: int| 0 <= j < i ==> !reach_f(sv, big, v, #[trigger] view_seq(ts@)[j]),
            old(seen)@.subset_of(seen@),
            forall|y: u32| #[trigger] seen@.contains(y) && !old(seen)@.contains(y) ==>
                reach_f(sv, big, y, parent) && !reach_f(sv, big, v, TyV::Var(y)),
        decreases ts.len() - i,
    {
        proof {
            lemma_sizes_elem(view_seq(ts@), i as int);
            assert(view_seq(ts@)[i as int] == ts@[i as int]@);
            assert forall|y: u32| #[trigger] seen@.contains(y) && reach_f(sv, big, y, ts@[i as int]@)
                implies !reach_f(sv, big, v, TyV::Var(y)) by {
                assert(reach_f(sv, big, y, view_seq(ts@)[i as int]));
            }
        }
        if occurs_in(subst, seen, v, &ts[i], Ghost(n), Ghost(big)) {
            proof {
                assert(reach_f(sv, big, v, view_seq(ts@)[i as int]));
                assert forall|y: u32| #[trigger] seen@.contains(y) && !old(seen)@.contains(y)
                    implies reach_f(sv, big, y, parent) by {
                    if reach_f(sv, big, y, ts@[i as int]@) {
                        assert(reach_f(sv, big, y, view_seq(ts@)[i as int]));
                    }
                }
            }
            return true;
        }
        proof {
            assert forall|y: u32| #[trigger] seen@.contains(y) && !old(seen)@.contains(y)
                implies reach_f(sv, big, y, parent) && !reach_f(sv, big, v, TyV::Var(y)) by {
                if reach_f(sv, big, y, ts@[i as int]@) {
                    assert(reach_f(sv, big, y, view_seq(ts@)[i as int]));
                }
            }
        }
        i += 1;
    }
    false
}

fn occurs_fields(subst: &Subst, seen: &mut HashSet<u32>, v: u32, fs: &Vec<(String, Ty)>, Ghost(n): Ghost<nat>, Ghost(big): Ghost<nat>, Ghost(parent): Ghost<TyV>) -> (r: bool)
    requires
        wf(subst_view(subst@)),
        big == wf_fuel(subst_view(subst@)),
        field_sizes(view_fields(fs@)) < size(parent),
        forall|i: int| 0 <= i < fs.len() ==> settles(subst_view(subst@), n, (#[trigger] view_fields(fs@)[i]).1),
        forall|i: int, y: u32| 0 <= i < fs.len() && #[trigger] reach_f(subst_view(subst@), big, y, view_fields(fs@)[i].1)
            ==> reach_f(subst_view(subst@), big, y, parent),
        forall|y: u32| #[trigger] old(seen)@.contains(y) && reach_f(subst_view(subst@), big, y, parent)
            ==> !reach_f(subst_view(subst@), big, v, TyV::Var(y)),
    ensures
        r == exists|i: int| 0 <= i < fs.len() && reach_f(subst_view(subst@), big, v, (#[trigger] view_fields(fs@)[i]).1),
        old(seen)@.subset_of(final(seen)@),
        forall|y: u32| #[trigger] final(seen)@.contains(y) && !old(seen)@.contains(y) ==>
            reach_f(subst_view(subst@), big, y, parent) && (!r ==> !reach_f(subst_view(subst@), big, v, TyV::Var(y))),
    decreases n, size(parent), 0nat,
{
    let ghost sv = subst_view(subst@);
    proof {
        lemma_view_fields(fs@);
    }
    let mut i: usize = 0;
    while i < fs.len()
        invariant
            i <= fs.len(),
            sv == subst_view(subst@),
            wf(sv),
            big == wf_fuel(sv),
            field_sizes(view_fields(fs@)) < size(parent),
            view_fields(fs@).len() == fs.len(),
            forall|j: int| 0 <= j < fs.len() ==> #[trigger] view_fields(fs@)[j] == (fs@[j].0@, fs@[j].1@),
            forall|j: int| 0 <= j < fs.len() ==> settles(sv, n, (#[trigger] view_fields(fs@)[j]).1),
            forall|j: int, y: u32| 0 <= j < fs.len() && #[trigger] reach_f(sv, big, y, view_fields(fs@)[j].1)
                ==> reach_f(sv, big, y, parent),
            forall|y: u32| #[trigger] old(seen)@.contains(y) && reach_f(sv, big, y, parent)
                ==> !reach_f(sv, big, v, TyV::Var(y)),
            forall|j: int| 0 <= j < i ==> !reach_f(sv, big, v, (#[trigger] view_fields(fs@)[j]).1),
            old(seen)@.subset_of(seen@),
            forall|y: u32| #[trigger] seen@.contains(y) && !old(seen)@.contains(y) ==>
                reach_f(sv, big, y, parent) && !reach_f(sv, big, v, TyV::Var(y)),
        decreases fs.len() - i,
    {
        proof {
            lemma_field_sizes_elem(view_fields(fs@), i as int);
            assert(view_fields(fs@)[i as int] == (fs@[i as int].0@, fs@[i as int].1@));
            assert forall|y: u32| #[trigger] seen@.contains(y) && reach_f(sv, big, y, fs@[i as int].1@)
                implies !reach_f(sv, big, v, TyV::Var(y)) by {
                assert(reach_f(sv, big, y, view_fields(fs@)[i as int].1));
            }
        }
        if occurs_in(subst, seen, v, &fs[i].1, Ghost(n), Ghost(big)) {
            proof {
                assert(reach_f(sv, big, v, view_fields(fs@)[i as int].1));
                assert forall|y: u32| #[trigger] seen@.contains(y) && !old(seen)@.contains(y)
                    implies reach_f(sv, big, y, parent) by {
                    if reach_f(sv, big, y, fs@[i as int].1@) {
                        assert(reach_f(sv, big, y, view_fields(fs@)[i as int].1));
                    }
                }
            }
            return true;
        }
        proof {
            assert forall|y: u32| #[trigger] seen@.contains(y) && !old(seen)@.contains(y)
                implies reach_f(sv, big, y, parent) && !reach_f(sv, big, v, TyV::Var(y)) by {
                if reach_f(sv, big, y, fs@[i as int].1@) {
                    assert(reach_f(sv, big, y, view_fields(fs@)[i as int].1));
                }
            }
        }
        i += 1;
    }
    false
}


/// The variables free in the types that `s` binds.
pub open spec fn rng(s: SubstV) -> Set<u32> {
    Set::new(|w: u32| exists|v: u32| s.contains_key(v) && #[trigger] ftv(s[v]).contains(w))
}

pub proof fn lemma_rng_finite(s: SubstV)
    requires
        s.dom().finite(),
    ensures
        rng(s).finite(),
    decreases s.dom().len(),
{
    if s.dom().len() == 0 {
        assert(s.dom() =~= Set::empty());
        assert(rng(s) =~= Set::empty());
    } else {
        let k = s.dom().choose();
        assert(s.dom().contains(k));
        let s2 = s.remove(k);
        assert(s2.dom() =~= s.dom().remove(k));
        lemma_rng_finite(s2);
        lemma_ftv_finite(s[k]);
        assert forall|w: u32| rng(s).contains(w) <==> rng(s2).union(ftv(s[k])).contains(w) by {
            if rng(s).contains(w) {
                let v = choose|v: u32| s.contains_key(v) && #[trigger] ftv(s[v]).contains(w);
                if v != k {
                    assert(s2.contains_key(v) && ftv(s2[v]).contains(w));
                }
            }
            if rng(s2).contains(w) {
                let v = choose|v: u32| s2.contains_key(v) && #[trigger] ftv(s2[v]).contains(w);
                assert(s.contains_key(v) && ftv(s[v]).contains(w));
            }
        }
        assert(rng(s) =~= rng(s2).union(ftv(s[k])));
    }
}

/// Applying `s` brings in no variable beyond those of `t` and of the types `s`
/// binds.
pub proof fn lemma_ftv_apply(s: SubstV, n: nat, t: TyV)
    requires
        settles(s, n, t),
    ensures
        ftv(apply_f(s, n, t)).subset_of(ftv(t).union(rng(s))),
    decreases n, t,
{
    match t {
        TyV::Var(v) => {
            if s.contains_key(v) {
                lemma_ftv_apply(s, (n - 1) as nat, s[v]);
                assert forall|w: u32| ftv(apply_f(s, n, t)).contains(w) implies ftv(t).union(rng(s)).contains(w) by {
                    assert(ftv(s[v]).union(rng(s)).contains(w));
                    if ftv(s[v]).contains(w) {
                        assert(rng(s).contains(w));
                    }
                }
            }
        },
        TyV::Con(_) => {},
        TyV::List(a) => {
            lemma_ftv_apply(s, n, *a);
        },
        TyV::Tuple(ts) => {
            lemma_apply_seq_f(s, n, ts);
            let r = apply_seq_f(s, n, ts);
            assert forall|w: u32| ftv(apply_f(s, n, t)).contains(w) implies ftv(t).union(rng(s)).contains(w) by {
                let i = choose|i: int| 0 <= i < r.len() && ftv(r[i]).contains(w);
                lemma_ftv_apply(s, n, ts[i]);
                assert(ftv(ts[i]).union(rng(s)).contains(w));
            }
        },
        TyV::Record(fs) => {
            lemma_apply_fields_f(s, n, fs);
            let r = apply_fields_f(s, n, fs);
            assert forall|w: u32| ftv(apply_f(s, n, t)).contains(w) implies ftv(t).union(rng(s)).contains(w) by {
                let i = choose|i: int| 0 <= i < r.len() && ftv(r[i].1).contains(w);
                assert(decreases_to!(fs => fs[i]));
                lemma_ftv_apply(s, n, fs[i].1);
                assert(ftv(fs[i].1).union(rng(s)).contains(w));
            }
        },
        TyV::RecordOpen(fs, rest) => {
            lemma_apply_fields_f(s, n, fs);
            let r = apply_fields_f(s, n, fs);
            lemma_ftv_apply(s, n, *rest);
            assert forall|w: u32| ftv(apply_f(s, n, t)).contains(w) implies ftv(t).union(rng(s)).contains(w) by {
                if exists|i: int| 0 <= i < r.len() && ftv(r[i].1).contains(w) {
                    let i = choose|i: int| 0 <= i < r.len() && ftv(r[i].1).contains(w);
                    assert(decreases_to!(fs => fs[i]));
                    lemma_ftv_apply(s, n, fs[i].1);
                    assert(ftv(fs[i].1).union(rng(s)).contains(w));
                } else {
                    assert(ftv(apply_f(s, n, *rest)).contains(w));
                }
            }
        },
        TyV::App(h, args) => {
            lemma_apply_seq_f(s, n, args);
            let r = apply_seq_f(s, n, args);
            lemma_ftv_apply(s, n, *h);
            assert forall|w: u32| ftv(apply_f(s, n, t)).contains(w) implies ftv(t).union(rng(s)).contains(w) by {
                if exists|i: int| 0 <= i < r.len() && ftv(r[i]).contains(w) {
                    let i = choose|i: int| 0 <= i < r.len() && ftv(r[i]).contains(w);
                    lemma_ftv_apply(s, n, args[i]);
                    assert(ftv(args[i]).union(rng(s)).contains(w));
                } else {
                    assert(ftv(apply_f(s, n, *h)).contains(w));
                }
            }
        },
        TyV::Func(a, b) => {
            lemma_ftv_apply(s, n, *a);
            lemma_ftv_apply(s, n, *b);
        },
    }
}

/// A variable free in `t` is met when following `t`.
pub proof fn lemma_ftv_reach(s: SubstV, n: nat, v: u32, t: TyV)
    requires
        ftv(t).contains(v),
    ensures
        reach_f(s, n, v, t),
    decreases t,
{
    match t {
        TyV::Var(x) => {},
        TyV::Con(_) => {},
        TyV::List(a) => {
            lemma_ftv_reach(s, n, v, *a);
        },
        TyV::Tuple(ts) => {
            let i = choose|i: int| 0 <= i < ts.len() && ftv(ts[i]).contains(v);
            lemma_ftv_reach(s, n, v, ts[i]);
        },
        TyV::Record(fs) => {
            let i = choose|i: int| 0 <= i < fs.len() && ftv(fs[i].1).contains(v);
            assert(decreases_to!(fs => fs[i]));
            lemma_ftv_reach(s, n, v, fs[i].1);
        },
        TyV::RecordOpen(fs, r) => {
            if exists|i: int| 0 <= i < fs.len() && ftv(fs[i].1).contains(v) {
                let i = choose|i: int| 0 <= i < fs.len() && ftv(fs[i].1).contains(v);
                assert(decreases_to!(fs => fs[i]));
                lemma_ftv_reach(s, n, v, fs[i].1);
            } else {
                lemma_ftv_reach(s, n, v, *r);
            }
        },
        TyV::App(h, args) => {
            if ftv(*h).contains(v) {
                lemma_ftv_reach(s, n, v, *h);
            } else {
                let i = choose|i: int| 0 <= i < args.len() && ftv(args[i]).contains(v);
                lemma_ftv_reach(s, n, v, args[i]);
            }
        },
        TyV::Func(a, b) => {
            if ftv(*a).contains(v) {
                lemma_ftv_reach(s, n, v, *a);
            } else {
                lemma_ftv_reach(s, n, v, *b);
            }
        },
    }
}

/// Settling survives a new binding of an unbound variable to a type free of
/// bound variables and of that variable.
pub proof fn lemma_settles_insert(s: SubstV, v: u32, t: TyV, n: nat, x: TyV)
    requires
        !s.contains_key(v),
        resolved(s.insert(v, t), t),
        settles(s, n, x),
    ensures
        settles(s.insert(v, t), n + 1, x),
    decreases n, x,
{
    let s2 = s.insert(v, t);
    match x {
        TyV::Var(w) => {
            if w == v {
                lemma_apply_resolved_id(s2, 0, t);
                lemma_settles_mono(s2, 0, n, t);
            } else if s.contains_key(w) {
                lemma_settles_insert(s, v, t, (n - 1) as nat, s[w]);
            }
        },
        TyV::Con(_) => {},
        TyV::List(a) => {
            lemma_settles_insert(s, v, t, n, *a);
        },
        TyV::Tuple(ts) => {
            assert forall|i: int| 0 <= i < ts.len() implies settles(s2, n + 1, ts[i]) by {
                lemma_settles_insert(s, v, t, n, ts[i]);
            }
        },
        TyV::Record(fs) => {
            assert forall|i: int| 0 <= i < fs.len() implies settles(s2, n + 1, fs[i].1) by {
                assert(decreases_to!(fs => fs[i]));
                lemma_settles_insert(s, v, t, n, fs[i].1);
            }
        },
        TyV::RecordOpen(fs, r) => {
            assert forall|i: int| 0 <= i < fs.len() implies settles(s2, n + 1, fs[i].1) by {
                assert(decreases_to!(fs => fs[i]));
                lemma_settles_insert(s, v, t, n, fs[i].1);
            }
            lemma_settles_insert(s, v, t, n, *r);
        },
        TyV::App(h, args) => {
            lemma_settles_insert(s, v, t, n, *h);
            assert forall|i: int| 0 <= i < args.len() implies settles(s2, n + 1, args[i]) by {
                lemma_settles_insert(s, v, t, n, args[i]);
            }
        },
        TyV::Func(a, b) => {
            lemma_settles_insert(s, v, t, n, *a);
            lemma_settles_insert(s, v, t, n, *b);
        },
    }
}

/// Binding an unbound variable to a type free of bound variables and of that
/// variable keeps a substitution well-formed.
pub proof fn lemma_wf_insert(s: SubstV, v: u32, t: TyV)
    requires
        wf(s),
        !s.contains_key(v),
        resolved(s, t),
        !ftv(t).contains(v),
    ensures
        wf(s.insert(v, t)),
{
    let s2 = s.insert(v, t);
    let k = choose|k: nat| #[trigger] bindings_settle(s, k);
    assert forall|w: u32| #[trigger] ftv(t).contains(w) implies !s2.contains_key(w) by {}
    assert forall|u: u32| #[trigger] s2.contains_key(u) implies settles(s2, k + 1, s2[u]) by {
        if u == v {
            lemma_apply_resolved_id(s2, 0, t);
            lemma_settles_mono(s2, 0, k + 1, t);
        } else {
            assert(settles(s, k, s[u]));
            lemma_settles_insert(s, v, t, k, s[u]);
        }
    }
    assert(bindings_settle(s2, k + 1));
    assert(s2.dom() =~= s.dom().insert(v));
}


/// `s` applied to each type of a sequence.
pub open spec fn apply_seq_v(s: SubstV, ts: Seq<TyV>) -> Seq<TyV> {
    ts.map_values(|t: TyV| apply_v(s, t))
}

/// Applying `s`, as a function.
pub open spec fn apply_fn(s: SubstV) -> spec_fn(TyV) -> TyV {
    |t: TyV| apply_v(s, t)
}

/// `s` applied to the type of each field.
pub open spec fn apply_fields_v(s: SubstV, fs: FieldsV) -> FieldsV {
    map_vals(fs, apply_fn(s))
}

/// Applying a substitution follows the binding of a variable and goes into
/// the parts of every other type.
pub proof fn lemma_apply_unfold(s: SubstV, t: TyV)
    requires
        resolvable(s, t),
    ensures
        match t {
            TyV::Var(v) => if s.contains_key(v) {
                resolvable(s, s[v]) && apply_v(s, t) == apply_v(s, s[v])
            } else {
                apply_v(s, t) == t
            },
            TyV::Con(_) => apply_v(s, t) == t,
            TyV::List(a) => apply_v(s, t) == TyV::List(Box::new(apply_v(s, *a))),
            TyV::Tuple(ts) => apply_v(s, t) == TyV::Tuple(apply_seq_v(s, ts)),
            TyV::Record(fs) => apply_v(s, t) == TyV::Record(apply_fields_v(s, fs)),
            TyV::RecordOpen(fs, r) => apply_v(s, t) == TyV::RecordOpen(
                apply_fields_v(s, fs),
                Box::new(apply_v(s, *r)),
            ),
            TyV::App(h, args) => apply_v(s, t) == TyV::App(Box::new(apply_v(s, *h)), apply_seq_v(s, args)),
            TyV::Func(a, b) => apply_v(s, t) == TyV::Func(Box::new(apply_v(s, *a)), Box::new(apply_v(s, *b))),
        },
{
    let n = settle_fuel(s, t);
    lemma_apply_v_fuel(s, n, t);
    match t {
        TyV::Var(v) => {
            if s.contains_key(v) {
                lemma_apply_v_fuel(s, (n - 1) as nat, s[v]);
            }
        },
        TyV::Con(_) => {},
        TyV::List(a) => {
            lemma_apply_v_fuel(s, n, *a);
        },
        TyV::Tuple(ts) => {
            lemma_apply_seq_v_fuel(s, n, ts);
        },
        TyV::Record(fs) => {
            lemma_apply_fields_v_fuel(s, n, fs);
        },
        TyV::RecordOpen(fs, r) => {
            lemma_apply_fields_v_fuel(s, n, fs);
            lemma_apply_v_fuel(s, n, *r);
        },
        TyV::App(h, args) => {
            lemma_apply_v_fuel(s, n, *h);
            lemma_apply_seq_v_fuel(s, n, args);
        },
        TyV::Func(a, b) => {
            lemma_apply_v_fuel(s, n, *a);
            lemma_apply_v_fuel(s, n, *b);
        },
    }
}

proof fn lemma_apply_seq_v_fuel(s: SubstV, n: nat, ts: Seq<TyV>)
    requires
        forall|i: int| 0 <= i < ts.len() ==> settles(s, n, #[trigger] ts[i]),
    ensures
        apply_seq_f(s, n, ts) == apply_seq_v(s, ts),
{
    lemma_apply_seq_f(s, n, ts);
    assert forall|i: int| 0 <= i < ts.len() implies apply_seq_f(s, n, ts)[i] == apply_seq_v(s, ts)[i] by {
        lemma_apply_v_fuel(s, n, ts[i]);
    }
    assert(apply_seq_f(s, n, ts) =~= apply_seq_v(s, ts));
}

proof fn lemma_apply_fields_v_fuel(s: SubstV, n: nat, fs: FieldsV)
    requires
        forall|i: int| 0 <= i < fs.len() ==> settles(s, n, (#[trigger] fs[i]).1),
    ensures
        apply_fields_f(s, n, fs) == apply_fields_v(s, fs),
{
    lemma_apply_fields_f(s, n, fs);
    assert forall|i: int| 0 <= i < fs.len() implies apply_fields_f(s, n, fs)[i] == apply_fields_v(s, fs)[i] by {
        lemma_apply_v_fuel(s, n, fs[i].1);
    }
    assert(apply_fields_f(s, n, fs) =~= apply_fields_v(s, fs));
}

proof fn lemma_apply_compose_f(s1: SubstV, s2: SubstV, n: nat, t: TyV)
    requires
        settles(s1, n, t),
        wf(s2),
        s1.submap_of(s2),
    ensures
        apply_v(s2, apply_f(s1, n, t)) == apply_v(s2, t),
    decreases n, t,
{
    lemma_wf_resolvable(s2, t);
    lemma_wf_resolvable(s2, apply_f(s1, n, t));
    lemma_apply_unfold(s2, t);
    lemma_apply_unfold(s2, apply_f(s1, n, t));
    match t {
        TyV::Var(v) => {
            if s1.contains_key(v) && n > 0 {
                assert(s2.contains_key(v) && s2[v] == s1[v]);
                lemma_apply_compose_f(s1, s2, (n - 1) as nat, s1[v]);
            }
        },
        TyV::Con(_) => {},
        TyV::List(a) => {
            lemma_apply_compose_f(s1, s2, n, *a);
        },
        TyV::Tuple(ts) => {
            lemma_apply_seq_f(s1, n, ts);
            let us = apply_seq_f(s1, n, ts);
            assert forall|i: int| 0 <= i < ts.len() implies apply_seq_v(s2, us)[i] == apply_seq_v(s2, ts)[i] by {
                lemma_apply_compose_f(s1, s2, n, ts[i]);
            }
            assert(apply_seq_v(s2, us) =~= apply_seq_v(s2, ts));
        },
        TyV::Record(fs) => {
            lemma_apply_fields_f(s1, n, fs);
            let us = apply_fields_f(s1, n, fs);
            assert forall|i: int| 0 <= i < fs.len() implies apply_fields_v(s2, us)[i] == apply_fields_v(s2, fs)[i] by {
                assert(decreases_to!(fs => fs[i]));
                lemma_apply_compose_f(s1, s2, n, fs[i].1);
            }
            assert(apply_fields_v(s2, us) =~= apply_fields_v(s2, fs));
        },
        TyV::RecordOpen(fs, r) => {
            lemma_apply_fields_f(s1, n, fs);
            let us = apply_fields_f(s1, n, fs);
            assert forall|i: int| 0 <= i < fs.len() implies apply_fields_v(s2, us)[i] == apply_fields_v(s2, fs)[i] by {
                assert(decreases_to!(fs => fs[i]));
                lemma_apply_compose_f(s1, s2, n, fs[i].1);
            }
            assert(apply_fields_v(s2, us) =~= apply_fields_v(s2, fs));
            lemma_apply_compose_f(s1, s2, n, *r);
        },
        TyV::App(h, args) => {
            lemma_apply_seq_f(s1, n, args);
            let us = apply_seq_f(s1, n, args);
            assert forall|i: int| 0 <= i < args.len() implies apply_seq_v(s2, us)[i] == apply_seq_v(s2, args)[i] by {
                lemma_apply_compose_f(s1, s2, n, args[i]);
            }
            assert(apply_seq_v(s2, us) =~= apply_seq_v(s2, args));
            lemma_apply_compose_f(s1, s2, n, *h);
        },
        TyV::Func(a, b) => {
            lemma_apply_compose_f(s1, s2, n, *a);
            lemma_apply_compose_f(s1, s2, n, *b);
        },
    }
}

/// Applying a substitution and then one that extends it is applying the
/// larger one.
pub proof fn lemma_apply_compose(s1: SubstV, s2: SubstV, t: TyV)
    requires
        wf(s1),
        wf(s2),
        s1.submap_of(s2),
    ensures
        apply_v(s2, apply_v(s1, t)) == apply_v(s2, t),
{
    lemma_wf_resolvable(s1, t);
    lemma_apply_compose_f(s1, s2, settle_fuel(s1, t), t);
}


/// The composition of `s1` after `s2`: each binding of `s2` with `s1`
/// applied to its type, and the bindings of `s1`, which win.
pub open spec fn compose_v(s1: SubstV, s2: SubstV) -> SubstV {
    Map::new(
        |v: u32| s1.contains_key(v) || s2.contains_key(v),
        |v: u32| if s1.contains_key(v) { s1[v] } else { apply_v(s1, s2[v]) },
    )
}

/// Composes `s1` after `s2`.
pub fn compose(s1: &Subst, s2: &Subst) -> (out: Subst)
    requires
        forall|v: u32| #[trigger] s2@.contains_key(v) ==> resolvable(subst_view(s1@), s2@[v]@),
    ensures
        subst_view(out@) == compose_v(subst_view(s1@), subst_view(s2@)),
{
    let ghost s1v = subst_view(s1@);
    let mut out: Subst = HashMap::new();
    for (v, t) in it: s2.iter()
        invariant
            s1v == subst_view(s1@),
            forall|k: u32| #[trigger] s2@.contains_key(k) ==> resolvable(s1v, s2@[k]@),
            forall|i: int| 0 <= i < it.seq().len() ==> s2@.contains_key(*(#[trigger] it.seq()[i]).0) && s2@[*it.seq()[i].0] == *it.seq()[i].1,
            forall|i: int| 0 <= i < it.index() ==> out@.contains_key(*(#[trigger] it.seq()[i]).0),
            forall|k: u32| #[trigger] s2@.contains_key(k) ==> out@.contains_key(k) || exists|i: int|
                it.index() <= i < it.seq().len() && *it.seq()[i].0 == k,
            forall|k: u32| #[trigger] out@.contains_key(k) ==> s2@.contains_key(k) && out@[k]@ == apply_v(s1v, s2@[k]@),
    {
        let r = apply(s1, t.clone());
        out.insert(*v, r);
    }
    for (v, t) in it2: s1.iter()
        invariant
            s1v == subst_view(s1@),
            forall|i: int| 0 <= i < it2.seq().len() ==> s1@.contains_key(*(#[trigger] it2.seq()[i]).0) && s1@[*it2.seq()[i].0] == *it2.seq()[i].1,
            forall|i: int| 0 <= i < it2.index() ==> out@.contains_key(*(#[trigger] it2.seq()[i]).0) && out@[*it2.seq()[i].0]@ == s1@[*it2.seq()[i].0]@,
            forall|k: u32| #[trigger] out@.contains_key(k) ==> s1@.contains_key(k) || s2@.contains_key(k),
            forall|k: u32| #[trigger] s2@.contains_key(k) ==> out@.contains_key(k),
            forall|k: u32| #[trigger] s1@.contains_key(k) ==> (out@.contains_key(k) && out@[k]@ == s1@[k]@) || exists|i: int|
                it2.index() <= i < it2.seq().len() && *it2.seq()[i].0 == k,
            forall|k: u32| #[trigger] out@.contains_key(k) ==> out@[k]@ == (if s1@.contains_key(k) && exists|i: int| 0 <= i < it2.index() && *it2.seq()[i].0 == k { s1@[k]@ } else { apply_v(s1v, s2@[k]@) }),
    {
        out.insert(*v, t.clone());
    }
    assert(subst_view(out@) =~= compose_v(s1v, subst_view(s2@)));
    out
}


/// The conditions under which composing is applying in turn: `s1` and `s2`
/// bind different variables, and no type that `s1` binds mentions a variable
/// that `s2` binds.
pub open spec fn composable(s1: SubstV, s2: SubstV) -> bool {
    &&& forall|v: u32| #[trigger] s1.contains_key(v) ==> !s2.contains_key(v)
    &&& forall|v: u32| #[trigger] rng(s1).contains(v) ==> !s2.contains_key(v)
}

proof fn lemma_compose_settles_first(s1: SubstV, s2: SubstV, n: nat, x: TyV)
    requires
        composable(s1, s2),
        settles(s1, n, x),
        forall|w: u32| #[trigger] ftv(x).contains(w) ==> !s2.contains_key(w),
    ensures
        settles(compose_v(s1, s2), n, x),
    decreases n, x,
{
    let c = compose_v(s1, s2);
    match x {
        TyV::Var(w) => {
            assert(ftv(x).contains(w));
            if s1.contains_key(w) {
                assert forall|u: u32| #[trigger] ftv(s1[w]).contains(u) implies !s2.contains_key(u) by {
                    assert(rng(s1).contains(u));
                }
                lemma_compose_settles_first(s1, s2, (n - 1) as nat, s1[w]);
            }
        },
        TyV::Con(_) => {},
        TyV::List(a) => {
            assert forall|w: u32| #[trigger] ftv(*a).contains(w) implies !s2.contains_key(w) by {
                assert(ftv(x).contains(w));
            }
            lemma_compose_settles_first(s1, s2, n, *a);
        },
        TyV::Tuple(ts) => {
            assert forall|i: int| 0 <= i < ts.len() implies settles(c, n, ts[i]) by {
                assert forall|w: u32| #[trigger] ftv(ts[i]).contains(w) implies !s2.contains_key(w) by {
                    assert(ftv(x).contains(w));
                }
                lemma_compose_settles_first(s1, s2, n, ts[i]);
            }
        },
        TyV::Record(fs) => {
            assert forall|i: int| 0 <= i < fs.len() implies settles(c, n, fs[i].1) by {
                assert(decreases_to!(fs => fs[i]));
                assert forall|w: u32| #[trigger] ftv(fs[i].1).contains(w) implies !s2.contains_key(w) by {
                    assert(ftv(x).contains(w));
                }
                lemma_compose_settles_first(s1, s2, n, fs[i].1);
            }
        },
        TyV::RecordOpen(fs, r) => {
            assert forall|i: int| 0 <= i < fs.len() implies settles(c, n, fs[i].1) by {
                assert(decreases_to!(fs => fs[i]));
                assert forall|w: u32| #[trigger] ftv(fs[i].1).contains(w) implies !s2.contains_key(w) by {
                    assert(ftv(x).contains(w));
                }
                lemma_compose_settles_first(s1, s2, n, fs[i].1);
            }
            assert forall|w: u32| #[trigger] ftv(*r).contains(w) implies !s2.contains_key(w) by {
                assert(ftv(x).contains(w));
            }
            lemma_compose_settles_first(s1, s2, n, *r);
        },
        TyV::App(h, args) => {
            assert forall|i: int| 0 <= i < args.len() implies settles(c, n, args[i]) by {
                assert forall|w: u32| #[trigger] ftv(args[i]).contains(w) implies !s2.contains_key(w) by {
                    assert(ftv(x).contains(w));
                }
                lemma_compose_settles_first(s1, s2, n, args[i]);
            }
            assert forall|w: u32| #[trigger] ftv(*h).contains(w) implies !s2.contains_key(w) by {
                assert(ftv(x).contains(w));
            }
            lemma_compose_settles_first(s1, s2, n, *h);
        },
        TyV::Func(a, b) => {
            assert forall|w: u32| #[trigger] ftv(*a).contains(w) implies !s2.contains_key(w) by {
                assert(ftv(x).contains(w));
            }
            assert forall|w: u32| #[trigger] ftv(*b).contains(w) implies !s2.contains_key(w) by {
                assert(ftv(x).contains(w));
            }
            lemma_compose_settles_first(s1, s2, n, *a);
            lemma_compose_settles_first(s1, s2, n, *b);
        },
    }
}

proof fn lemma_compose_settles_second(s1: SubstV, s2: SubstV, n: nat, x: TyV)
    requires
        wf(s1),
        composable(s1, s2),
        settles(s2, n, x),
    ensures
        settles(compose_v(s1, s2), n, apply_v(s1, x)),
    decreases n, x,
{
    let c = compose_v(s1, s2);
    lemma_wf_resolvable(s1, x);
    lemma_apply_unfold(s1, x);
    match x {
        TyV::Var(w) => {
            if s1.contains_key(w) {
                let y = apply_v(s1, x);
                lemma_apply_idempotent(s1, x);
                lemma_ftv_apply(s1, settle_fuel(s1, x), x);
                lemma_apply_v_fuel(s1, settle_fuel(s1, x), x);
                assert forall|u: u32| #[trigger] ftv(y).contains(u) implies !c.contains_key(u) by {
                    assert(ftv(x).union(rng(s1)).contains(u));
                    assert(!s1.contains_key(u));
                    if ftv(x).contains(u) {
                        assert(u == w);
                    } else {
                        assert(rng(s1).contains(u));
                    }
                }
                lemma_apply_resolved_id(c, 0, y);
                lemma_settles_mono(c, 0, n, y);
            } else if s2.contains_key(w) {
                lemma_compose_settles_second(s1, s2, (n - 1) as nat, s2[w]);
            }
        },
        TyV::Con(_) => {},
        TyV::List(a) => {
            lemma_compose_settles_second(s1, s2, n, *a);
        },
        TyV::Tuple(ts) => {
            assert forall|i: int| 0 <= i < ts.len() implies settles(c, n, #[trigger] apply_seq_v(s1, ts)[i]) by {
                lemma_compose_settles_second(s1, s2, n, ts[i]);
            }
        },
        TyV::Record(fs) => {
            assert forall|i: int| 0 <= i < fs.len() implies settles(c, n, (#[trigger] apply_fields_v(s1, fs)[i]).1) by {
                assert(decreases_to!(fs => fs[i]));
                lemma_compose_settles_second(s1, s2, n, fs[i].1);
            }
        },
        TyV::RecordOpen(fs, r) => {
            assert forall|i: int| 0 <= i < fs.len() implies settles(c, n, (#[trigger] apply_fields_v(s1, fs)[i]).1) by {
                assert(decreases_to!(fs => fs[i]));
                lemma_compose_settles_second(s1, s2, n, fs[i].1);
            }
            lemma_compose_settles_second(s1, s2, n, *r);
        },
        TyV::App(h, args) => {
            assert forall|i: int| 0 <= i < args.len() implies settles(c, n, #[trigger] apply_seq_v(s1, args)[i]) by {
                lemma_compose_settles_second(s1, s2, n, args[i]);
            }
            lemma_compose_settles_second(s1, s2, n, *h);
        },
        TyV::Func(a, b) => {
            lemma_compose_settles_second(s1, s2, n, *a);
            lemma_compose_settles_second(s1, s2, n, *b);
        },
    }
}

/// Composing well-formed substitutions that bind different variables, where
/// no type bound by the first mentions a variable bound by the second, gives
/// a well-formed substitution.
pub proof fn lemma_compose_wf(s1: SubstV, s2: SubstV)
    requires
        wf(s1),
        wf(s2),
        composable(s1, s2),
    ensures
        wf(compose_v(s1, s2)),
{
    let c = compose_v(s1, s2);
    let k1 = choose|k: nat| #[trigger] bindings_settle(s1, k);
    let k2 = choose|k: nat| #[trigger] bindings_settle(s2, k);
    let k: nat = if k1 > k2 { k1 } else { k2 };
    assert(c.dom() =~= s1.dom().union(s2.dom()));
    assert forall|v: u32| #[trigger] c.contains_key(v) implies settles(c, k, c[v]) by {
        if s1.contains_key(v) {
            assert(settles(s1, k1, s1[v]));
            assert forall|u: u32| #[trigger] ftv(s1[v]).contains(u) implies !s2.contains_key(u) by {
                assert(rng(s1).contains(u));
            }
            lemma_compose_settles_first(s1, s2, k1, s1[v]);
            lemma_settles_mono(c, k1, k, c[v]);
        } else {
            assert(settles(s2, k2, s2[v]));
            lemma_compose_settles_second(s1, s2, k2, s2[v]);
            lemma_settles_mono(c, k2, k, c[v]);
        }
    }
    assert(bindings_settle(c, k));
}

proof fn lemma_compose_apply_f(s1: SubstV, s2: SubstV, m: nat, t: TyV)
    requires
        wf(s1),
        wf(s2),
        wf(compose_v(s1, s2)),
        composable(s1, s2),
        settles(s2, m, t),
    ensures
        apply_v(compose_v(s1, s2), t) == apply_v(s1, apply_f(s2, m, t)),
    decreases m, t,
{
    let c = compose_v(s1, s2);
    assert(s1.submap_of(c));
    lemma_wf_resolvable(c, t);
    lemma_apply_unfold(c, t);
    lemma_wf_resolvable(s1, apply_f(s2, m, t));
    lemma_apply_unfold(s1, apply_f(s2, m, t));
    match t {
        TyV::Var(v) => {
            if s2.contains_key(v) {
                lemma_compose_apply_f(s1, s2, (m - 1) as nat, s2[v]);
                lemma_apply_compose(s1, c, s2[v]);
            } else {
                let y = apply_v(s1, t);
                lemma_apply_compose(s1, c, t);
                lemma_wf_resolvable(s1, t);
                lemma_apply_idempotent(s1, t);
                lemma_ftv_apply(s1, settle_fuel(s1, t), t);
                lemma_apply_v_fuel(s1, settle_fuel(s1, t), t);
                assert forall|w: u32| #[trigger] ftv(y).contains(w) implies !c.contains_key(w) by {
                    assert(ftv(t).union(rng(s1)).contains(w));
                    assert(!s1.contains_key(w));
                    if ftv(t).contains(w) {
                        assert(w == v);
                    } else {
                        assert(rng(s1).contains(w));
                    }
                }
                lemma_apply_resolved_id(c, 0, y);
                lemma_apply_v_fuel(c, 0, y);
            }
        },
        TyV::Con(_) => {},
        TyV::List(a) => {
            lemma_compose_apply_f(s1, s2, m, *a);
        },
        TyV::Tuple(ts) => {
            lemma_apply_seq_f(s2, m, ts);
            let us = apply_seq_f(s2, m, ts);
            assert forall|i: int| 0 <= i < ts.len() implies apply_seq_v(c, ts)[i] == apply_seq_v(s1, us)[i] by {
                lemma_compose_apply_f(s1, s2, m, ts[i]);
            }
            assert(apply_seq_v(c, ts) =~= apply_seq_v(s1, us));
        },
        TyV::Record(fs) => {
            lemma_apply_fields_f(s2, m, fs);
            let us = apply_fields_f(s2, m, fs);
            assert forall|i: int| 0 <= i < fs.len() implies apply_fields_v(c, fs)[i] == apply_fields_v(s1, us)[i] by {
                assert(decreases_to!(fs => fs[i]));
                lemma_compose_apply_f(s1, s2, m, fs[i].1);
            }
            assert(apply_fields_v(c, fs) =~= apply_fields_v(s1, us));
        },
        TyV::RecordOpen(fs, r) => {
            lemma_apply_fields_f(s2, m, fs);
            let us = apply_fields_f(s2, m, fs);
            assert forall|i: int| 0 <= i < fs.len() implies apply_fields_v(c, fs)[i] == apply_fields_v(s1, us)[i] by {
                assert(decreases_to!(fs => fs[i]));
                lemma_compose_apply_f(s1, s2, m, fs[i].1);
            }
            assert(apply_fields_v(c, fs) =~= apply_fields_v(s1, us));
            lemma_compose_apply_f(s1, s2, m, *r);
        },
        TyV::App(h, args) => {
            lemma_apply_seq_f(s2, m, args);
            let us = apply_seq_f(s2, m, args);
            assert forall|i: int| 0 <= i < args.len() implies apply_seq_v(c, args)[i] == apply_seq_v(s1, us)[i] by {
                lemma_compose_apply_f(s1, s2, m, args[i]);
            }
            assert(apply_seq_v(c, args) =~= apply_seq_v(s1, us));
            lemma_compose_apply_f(s1, s2, m, *h);
        },
        TyV::Func(a, b) => {
            lemma_compose_apply_f(s1, s2, m, *a);
            lemma_compose_apply_f(s1, s2, m, *b);
        },
    }
}

/// Applying the composition of `s1` after `s2` is applying `s2` and then
/// `s1`, where the two bind different variables and no type bound by `s1`
/// mentions a variable bound by `s2`.
pub proof fn law_compose_apply(s1: SubstV, s2: SubstV, t: TyV)
    requires
        wf(s1),
        wf(s2),
        composable(s1, s2),
    ensures
        wf(compose_v(s1, s2)),
        apply_v(compose_v(s1, s2), t) == apply_v(s1, apply_v(s2, t)),
{
    lemma_compose_wf(s1, s2);
    lemma_wf_resolvable(s2, t);
    lemma_compose_apply_f(s1, s2, settle_fuel(s2, t), t);
}


/// The free variables of an environment whose free variables were `env`
/// before `s` was applied to it: a variable that `s` binds gives the free
/// variables of its binding with `s` applied, any other stays.
pub open spec fn applied_env_ftv(s: SubstV, env: Set<u32>) -> Set<u32> {
    Set::new(|v: u32| exists|w: u32| #[trigger] env.contains(w) && env_var_contributes(s, w, v))
}

/// Variable `w` of the environment contributes `v` once `s` is applied.
pub open spec fn env_var_contributes(s: SubstV, w: u32, v: u32) -> bool {
    if s.contains_key(w) {
        ftv(apply_v(s, s[w])).contains(v)
    } else {
        v == w
    }
}

/// A part of a resolvable type is resolvable.
proof fn lemma_resolvable_parts(s: SubstV, t: TyV)
    requires
        resolvable(s, t),
    ensures
        match t {
            TyV::List(a) => resolvable(s, *a),
            TyV::Tuple(ts) => forall|i: int| 0 <= i < ts.len() ==> #[trigger] resolvable(s, ts[i]),
            TyV::Record(fs) => forall|i: int| 0 <= i < fs.len() ==> #[trigger] resolvable(s, fs[i].1),
            TyV::RecordOpen(fs, r) => resolvable(s, *r) && forall|i: int| 0 <= i < fs.len() ==> #[trigger] resolvable(s, fs[i].1),
            TyV::App(h, args) => resolvable(s, *h) && forall|i: int| 0 <= i < args.len() ==> #[trigger] resolvable(s, args[i]),
            TyV::Func(a, b) => resolvable(s, *a) && resolvable(s, *b),
            _ => true,
        },
{
    let n = settle_fuel(s, t);
    assert(settles(s, n, t));
    match t {
        TyV::List(a) => {
            assert(settles(s, n, *a));
        },
        TyV::Tuple(ts) => {
            assert forall|i: int| 0 <= i < ts.len() implies #[trigger] resolvable(s, ts[i]) by {
                assert(settles(s, n, ts[i]));
            }
        },
        TyV::Record(fs) => {
            assert forall|i: int| 0 <= i < fs.len() implies #[trigger] resolvable(s, fs[i].1) by {
                assert(settles(s, n, fs[i].1));
            }
        },
        TyV::RecordOpen(fs, r) => {
            assert(settles(s, n, *r));
            assert forall|i: int| 0 <= i < fs.len() implies #[trigger] resolvable(s, fs[i].1) by {
                assert(settles(s, n, fs[i].1));
            }
        },
        TyV::App(h, args) => {
            assert(settles(s, n, *h));
            assert forall|i: int| 0 <= i < args.len() implies #[trigger] resolvable(s, args[i]) by {
                assert(settles(s, n, args[i]));
            }
        },
        TyV::Func(a, b) => {
            assert(settles(s, n, *a));
            assert(settles(s, n, *b));
        },
        _ => {},
    }
}

/// The free variables of a type after applying `s` are what its free
/// variables contribute once `s` is applied: so the free variables of an
/// environment after a substitution can be computed from those before.
pub proof fn law_applied_env_ftv(s: SubstV, t: TyV)
    requires
        resolvable(s, t),
    ensures
        ftv(apply_v(s, t)) == applied_env_ftv(s, ftv(t)),
    decreases t,
{
    lemma_apply_unfold(s, t);
    lemma_resolvable_parts(s, t);
    let lhs = ftv(apply_v(s, t));
    let rhs = applied_env_ftv(s, ftv(t));
    match t {
        TyV::Var(w) => {
            assert forall|v: u32| lhs.contains(v) <==> rhs.contains(v) by {
                if lhs.contains(v) {
                    assert(ftv(t).contains(w));
                    assert(env_var_contributes(s, w, v));
                }
                if rhs.contains(v) {
                    let w2 = choose|w2: u32| #[trigger] ftv(t).contains(w2) && env_var_contributes(s, w2, v);
                    assert(w2 == w);
                }
            }
        },
        TyV::Con(_) => {
            assert forall|v: u32| lhs.contains(v) <==> rhs.contains(v) by {}
        },
        TyV::List(a) => {
            law_applied_env_ftv(s, *a);
            assert forall|v: u32| lhs.contains(v) <==> rhs.contains(v) by {}
        },
        TyV::Func(a, b) => {
            law_applied_env_ftv(s, *a);
            law_applied_env_ftv(s, *b);
            assert forall|v: u32| lhs.contains(v) <==> rhs.contains(v) by {
                if rhs.contains(v) {
                    let w = choose|w: u32| #[trigger] ftv(t).contains(w) && env_var_contributes(s, w, v);
                    if ftv(*a).contains(w) {
                        assert(applied_env_ftv(s, ftv(*a)).contains(v));
                    } else {
                        assert(applied_env_ftv(s, ftv(*b)).contains(v));
                    }
                }
                if lhs.contains(v) {
                    if ftv(apply_v(s, *a)).contains(v) {
                        let w = choose|w: u32| #[trigger] ftv(*a).contains(w) && env_var_contributes(s, w, v);
                        assert(ftv(t).contains(w));
                    } else {
                        let w = choose|w: u32| #[trigger] ftv(*b).contains(w) && env_var_contributes(s, w, v);
                        assert(ftv(t).contains(w));
                    }
                }
            }
        },
        TyV::Tuple(ts) => {
            let ats = apply_seq_v(s, ts);
            assert forall|i: int| 0 <= i < ts.len() implies #[trigger] ftv(ats[i]) == applied_env_ftv(s, ftv(ts[i])) by {
                law_applied_env_ftv(s, ts[i]);
            }
            assert forall|v: u32| lhs.contains(v) <==> rhs.contains(v) by {
                if lhs.contains(v) {
                    let i = choose|i: int| 0 <= i < ats.len() && ftv(ats[i]).contains(v);
                    assert(applied_env_ftv(s, ftv(ts[i])).contains(v));
                    let w = choose|w: u32| #[trigger] ftv(ts[i]).contains(w) && env_var_contributes(s, w, v);
                    assert(ftv(t).contains(w));
                }
                if rhs.contains(v) {
                    let w = choose|w: u32| #[trigger] ftv(t).contains(w) && env_var_contributes(s, w, v);
                    let i = choose|i: int| 0 <= i < ts.len() && ftv(ts[i]).contains(w);
                    assert(applied_env_ftv(s, ftv(ts[i])).contains(v));
                    assert(ftv(ats[i]).contains(v));
                }
            }
        },
        TyV::Record(fs) => {
            let afs = apply_fields_v(s, fs);
            assert forall|i: int| 0 <= i < fs.len() implies #[trigger] ftv(afs[i].1) == applied_env_ftv(s, ftv(fs[i].1)) by {
                assert(decreases_to!(fs => fs[i]));
                law_applied_env_ftv(s, fs[i].1);
            }
            assert forall|v: u32| lhs.contains(v) <==> rhs.contains(v) by {
                if lhs.contains(v) {
                    let i = choose|i: int| 0 <= i < afs.len() && ftv(afs[i].1).contains(v);
                    assert(applied_env_ftv(s, ftv(fs[i].1)).contains(v));
                    let w = choose|w: u32| #[trigger] ftv(fs[i].1).contains(w) && env_var_contributes(s, w, v);
                    assert(ftv(t).contains(w));
                }
                if rhs.contains(v) {
                    let w = choose|w: u32| #[trigger] ftv(t).contains(w) && env_var_contributes(s, w, v);
                    let i = choose|i: int| 0 <= i < fs.len() && ftv(fs[i].1).contains(w);
                    assert(applied_env_ftv(s, ftv(fs[i].1)).contains(v));
                    assert(ftv(afs[i].1).contains(v));
                }
            }
        },
        TyV::RecordOpen(fs, r) => {
            let afs = apply_fields_v(s, fs);
            law_applied_env_ftv(s, *r);
            assert forall|i: int| 0 <= i < fs.len() implies #[trigger] ftv(afs[i].1) == applied_env_ftv(s, ftv(fs[i].1)) by {
                assert(decreases_to!(fs => fs[i]));
                law_applied_env_ftv(s, fs[i].1);
            }
            assert forall|v: u32| lhs.contains(v) <==> rhs.contains(v) by {
                if lhs.contains(v) {
                    if ftv(apply_v(s, *r)).contains(v) {
                        let w = choose|w: u32| #[trigger] ftv(*r).contains(w) && env_var_contributes(s, w, v);
                        assert(ftv(t).contains(w));
                    } else {
                        let i = choose|i: int| 0 <= i < afs.len() && ftv(afs[i].1).contains(v);
                        assert(applied_env_ftv(s, ftv(fs[i].1)).contains(v));
                        let w = choose|w: u32| #[trigger] ftv(fs[i].1).contains(w) && env_var_contributes(s, w, v);
                        assert(ftv(t).contains(w));
                    }
                }
                if rhs.contains(v) {
                    let w = choose|w: u32| #[trigger] ftv(t).contains(w) && env_var_contributes(s, w, v);
                    if ftv(*r).contains(w) {
                        assert(applied_env_ftv(s, ftv(*r)).contains(v));
                    } else {
                        let i = choose|i: int| 0 <= i < fs.len() && ftv(fs[i].1).contains(w);
                        assert(applied_env_ftv(s, ftv(fs[i].1)).contains(v));
                        assert(ftv(afs[i].1).contains(v));
                    }
                }
            }
        },
        TyV::App(h, args) => {
            let aargs = apply_seq_v(s, args);
            law_applied_env_ftv(s, *h);
            assert forall|i: int| 0 <= i < args.len() implies #[trigger] ftv(aargs[i]) == applied_env_ftv(s, ftv(args[i])) by {
                law_applied_env_ftv(s, args[i]);
            }
            assert forall|v: u32| lhs.contains(v) <==> rhs.contains(v) by {
                if lhs.contains(v) {
                    if ftv(apply_v(s, *h)).contains(v) {
                        let w = choose|w: u32| #[trigger] ftv(*h).contains(w) && env_var_contributes(s, w, v);
                        assert(ftv(t).contains(w));
                    } else {
                        let i = choose|i: int| 0 <= i < aargs.len() && ftv(aargs[i]).contains(v);
                        assert(applied_env_ftv(s, ftv(args[i])).contains(v));
                        let w = choose|w: u32| #[trigger] ftv(args[i]).contains(w) && env_var_contributes(s, w, v);
                        assert(ftv(t).contains(w));
                    }
                }
                if rhs.contains(v) {
                    let w = choose|w: u32| #[trigger] ftv(t).contains(w) && env_var_contributes(s, w, v);
                    if ftv(*h).contains(w) {
                        assert(applied_env_ftv(s, ftv(*h)).contains(v));
                    } else {
                        let i = choose|i: int| 0 <= i < args.len() && ftv(args[i]).contains(w);
                        assert(applied_env_ftv(s, ftv(args[i])).contains(v));
                        assert(ftv(aargs[i]).contains(v));
                    }
                }
            }
        },
    }
    assert(lhs =~= rhs);
}

/// Everything that `w` contributes is in `out`.
pub open spec fn env_var_covered(out: Set<u32>, s: SubstV, w: u32) -> bool {
    forall|x: u32| #[trigger] env_var_contributes(s, w, x) ==> out.contains(x)
}

/// The free variables of an environment after applying `subst`, computed
/// from the environment's free variables before.
pub fn ftv_env_applied_from_ftv(subst: &Subst, env_ftv: &HashSet<u32>) -> (r: HashSet<u32>)
    requires
        forall|w: u32| #[trigger] env_ftv@.contains(w) && subst@.contains_key(w) ==> resolvable(subst_view(subst@), subst@[w]@),
    ensures
        r@ == applied_env_ftv(subst_view(subst@), env_ftv@),
{
    let ghost sv = subst_view(subst@);
    let ghost env = env_ftv@;
    let mut out: HashSet<u32> = HashSet::new();
    proof {
        assert(vstd::std_specs::iter::IteratorSpec::remaining(&vstd::std_specs::hash::spec_hash_keys_iter(env_ftv)).unref().to_set() == env);
    }
    for v in it: env_ftv.iter()
        invariant
            sv == subst_view(subst@),
            env == env_ftv@,
            forall|w: u32| #[trigger] env.contains(w) && subst@.contains_key(w) ==> resolvable(sv, subst@[w]@),
            it.seq().unref().to_set() == env,
            forall|x: u32| #[trigger] out@.contains(x) ==> applied_env_ftv(sv, env).contains(x),
            forall|w: u32| #[trigger] env.contains(w) ==> env_var_covered(out@, sv, w) || exists|i: int|
                it.index() <= i < it.seq().len() && *#[trigger] it.seq()[i] == w,
    {
        let ghost before = out@;
        let ghost ks = it.seq().unref();
        proof {
            assert(ks[it.index() as int] == *v);
            assert(ks.to_set().contains(*v));
        }
        match subst.get(v) {
            Some(t) => {
                let applied = apply(subst, ty_clone(t));
                ftv_into(&applied, &mut out);
            },
            None => {
                out.insert(*v);
            },
        }
        proof {
            assert(before.subset_of(out@));
            assert(env_var_covered(out@, sv, *v));
            assert forall|x: u32| #[trigger] out@.contains(x) implies applied_env_ftv(sv, env).contains(x) by {
                if !before.contains(x) {
                    assert(env_var_contributes(sv, *v, x));
                }
            }
            assert forall|w: u32| #[trigger] env.contains(w) implies env_var_covered(out@, sv, w) || exists|i: int|
                it.index() + 1 <= i < it.seq().len() && *#[trigger] it.seq()[i] == w by {
                if w != *v && !env_var_covered(out@, sv, w) {
                    if env_var_covered(before, sv, w) {
                        assert forall|x: u32| #[trigger] env_var_contributes(sv, w, x) implies out@.contains(x) by {
                            assert(before.contains(x));
                        }
                    }
                    let i = choose|i: int| it.index() <= i < it.seq().len() && *#[trigger] it.seq()[i] == w;
                    assert(i != it.index());
                }
            }
        }
    }
    assert forall|x: u32| #[trigger] applied_env_ftv(sv, env).contains(x) implies out@.contains(x) by {
        let w = choose|w: u32| #[trigger] env.contains(w) && env_var_contributes(sv, w, x);
        assert(env_var_covered(out@, sv, w));
    }
    assert(out@ =~= applied_env_ftv(sv, env));
    out
}

} // verus!
