//! Matching instance heads against ground types, and the keys that name
//! instances.
use vstd::prelude::*;
use std::collections::HashMap;
use crate::fields::{
    find_last, has_key, last_val, lemma_last_val_in, lemma_sort_len, lemma_sort_sub, lemma_without_keys_sub, sort_fields, sort_fields_vec, without_keys, without_keys_vec,
};
use crate::subst::{subst_view, SubstV};
use crate::ty::{
    clone_field_list, field_sizes, lemma_field_sizes_elem, lemma_sizes_elem, lemma_view_fields, lemma_view_seq, size, ty_clone,
    view_fields, view_seq, FieldsV, Ty, TyV,
};

verus! {

broadcast use vstd::std_specs::hash::group_hash_axioms;

/// Matching the pattern `p` against `c` from the bindings `s`, with at most
/// `fuel` nested steps: `Some(Some(s2))` when it matches with bindings `s2`,
/// `Some(None)` when it does not, `None` when the fuel runs out. A bound
/// variable of the pattern is matched through its binding; an unbound one is
/// bound to the type it meets.
pub open spec fn match_f(fuel: nat, s: SubstV, p: TyV, c: TyV) -> Option<Option<SubstV>>
    decreases fuel, 0nat,
{
    if fuel == 0 {
        None
    } else {
        let f = (fuel - 1) as nat;
        match p {
            TyV::Var(v) => if s.contains_key(v) {
                match_f(f, s, s[v], c)
            } else {
                Some(Some(s.insert(v, c)))
            },
            TyV::Con(pn) => Some(
                if c == TyV::Con(pn) {
                    Some(s)
                } else {
                    None
                },
            ),
            TyV::List(pa) => match c {
                TyV::List(ca) => match_f(f, s, *pa, *ca),
                _ => Some(None),
            },
            TyV::Tuple(ps) => match c {
                TyV::Tuple(cs) => if ps.len() != cs.len() {
                    Some(None)
                } else {
                    match_seq_f(f, s, ps, cs)
                },
                _ => Some(None),
            },
            TyV::Func(pa, pb) => match c {
                TyV::Func(ca, cb) => match_then_f(f, match_f(f, s, *pa, *ca), *pb, *cb),
                _ => Some(None),
            },
            TyV::Record(pf) => match c {
                TyV::Record(cf) => if pf.len() != cf.len() {
                    Some(None)
                } else {
                    match_pairs_f(f, s, sort_fields(pf), sort_fields(cf))
                },
                _ => Some(None),
            },
            TyV::RecordOpen(preq, prest) => match c {
                TyV::Record(cf) => match_then_f(
                    f,
                    match_lookup_f(f, s, preq, cf),
                    *prest,
                    TyV::Record(sort_fields(without_keys(cf, preq))),
                ),
                TyV::RecordOpen(creq, crest) => if preq.len() != creq.len() {
                    Some(None)
                } else {
                    match_then_f(f, match_pairs_f(f, s, sort_fields(preq), sort_fields(creq)), *prest, *crest)
                },
                _ => Some(None),
            },
            TyV::App(ph, pargs) => match c {
                TyV::App(ch, cargs) => if pargs.len() != cargs.len() {
                    Some(None)
                } else {
                    match match_f(f, s, *ph, *ch) {
                        Some(Some(s1)) => match_seq_f(f, s1, pargs, cargs),
                        r => r,
                    }
                },
                _ => Some(None),
            },
        }
    }
}

/// Continues with `x` against `y` after a step that matched.
pub open spec fn match_then_f(f: nat, r: Option<Option<SubstV>>, x: TyV, y: TyV) -> Option<Option<SubstV>>
    decreases f, 1nat,
{
    match r {
        Some(Some(s1)) => match_f(f, s1, x, y),
        other => other,
    }
}

/// Matches `ps[i]` against `cs[i]` in order.
pub open spec fn match_seq_f(f: nat, s: SubstV, ps: Seq<TyV>, cs: Seq<TyV>) -> Option<Option<SubstV>>
    decreases f, ps.len() + 2,
{
    if ps.len() == 0 || cs.len() == 0 {
        Some(Some(s))
    } else {
        match match_f(f, s, ps[0], cs[0]) {
            Some(Some(s1)) => match_seq_f(f, s1, ps.drop_first(), cs.drop_first()),
            r => r,
        }
    }
}

/// Matches fields pairwise in order: names must be equal.
pub open spec fn match_pairs_f(f: nat, s: SubstV, ps: FieldsV, cs: FieldsV) -> Option<Option<SubstV>>
    decreases f, ps.len() + 2,
{
    if ps.len() == 0 || cs.len() == 0 {
        Some(Some(s))
    } else if ps[0].0 != cs[0].0 {
        Some(None)
    } else {
        match match_f(f, s, ps[0].1, cs[0].1) {
            Some(Some(s1)) => match_pairs_f(f, s1, ps.drop_first(), cs.drop_first()),
            r => r,
        }
    }
}

/// Matches each field of `ps` against the last field of its name in `cs`,
/// which must exist.
pub open spec fn match_lookup_f(f: nat, s: SubstV, ps: FieldsV, cs: FieldsV) -> Option<Option<SubstV>>
    decreases f, ps.len() + 2,
{
    if ps.len() == 0 {
        Some(Some(s))
    } else if !has_key(cs, ps[0].0) {
        Some(None)
    } else {
        match match_f(f, s, ps[0].1, last_val(cs, ps[0].0)) {
            Some(Some(s1)) => match_lookup_f(f, s1, ps.drop_first(), cs),
            r => r,
        }
    }
}

/// Matching `p` against `c` from no bindings runs to an end.
pub open spec fn match_terminates(p: TyV, c: TyV) -> bool {
    exists|fuel: nat| #[trigger] match_f(fuel, Map::empty(), p, c) is Some
}

/// The outcome of matching `p` against `c` from no bindings.
pub open spec fn match_v(p: TyV, c: TyV) -> Option<Option<SubstV>> {
    match_f(choose|fuel: nat| #[trigger] match_f(fuel, Map::empty(), p, c) is Some, Map::empty(), p, c)
}

/// `t` has no type variables.
pub open spec fn is_ground(t: TyV) -> bool {
    crate::ty::ftv(t).is_empty()
}

/// Every binding of `s` is ground and has at most `k` nodes.
pub open spec fn bindings_ground(s: SubstV, k: nat) -> bool {
    forall|v: u32| #[trigger] s.contains_key(v) ==> is_ground(s[v]) && size(s[v]) <= k
}

proof fn lemma_ground_no_var(t: TyV, v: u32)
    requires
        is_ground(t),
    ensures
        !crate::ty::ftv(t).contains(v),
{
    assert(!Set::<u32>::empty().contains(v));
}

proof fn lemma_ground_of(t: TyV, u: TyV)
    requires
        is_ground(t),
        forall|v: u32| #[trigger] crate::ty::ftv(u).contains(v) ==> crate::ty::ftv(t).contains(v),
    ensures
        is_ground(u),
{
    assert forall|v: u32| !crate::ty::ftv(u).contains(v) by {
        lemma_ground_no_var(t, v);
    }
    assert(crate::ty::ftv(u) =~= Set::<u32>::empty());
}

/// The parts of a ground type are ground and smaller.
proof fn lemma_ground_parts(t: TyV)
    requires
        is_ground(t),
    ensures
        !(t is Var),
        t matches TyV::List(a) ==> is_ground(*a) && size(*a) < size(t),
        t matches TyV::Tuple(ts) ==> forall|i: int| 0 <= i < ts.len() ==> is_ground(#[trigger] ts[i]) && size(ts[i]) < size(t),
        t matches TyV::Record(fs) ==> forall|i: int| 0 <= i < fs.len() ==> is_ground(#[trigger] fs[i].1) && size(fs[i].1) < size(t),
        t matches TyV::RecordOpen(fs, r) ==> is_ground(*r) && size(*r) < size(t) && forall|i: int|
            0 <= i < fs.len() ==> is_ground(#[trigger] fs[i].1) && size(fs[i].1) < size(t),
        t matches TyV::App(h, args) ==> is_ground(*h) && size(*h) < size(t) && forall|i: int|
            0 <= i < args.len() ==> is_ground(#[trigger] args[i]) && size(args[i]) < size(t),
        t matches TyV::Func(a, b) ==> is_ground(*a) && is_ground(*b) && size(*a) < size(t) && size(*b) < size(t),
{
    match t {
        TyV::Var(v) => {
            assert(crate::ty::ftv(t).contains(v));
            lemma_ground_no_var(t, v);
        },
        TyV::List(a) => {
            lemma_ground_of(t, *a);
        },
        TyV::Func(a, b) => {
            lemma_ground_of(t, *a);
            lemma_ground_of(t, *b);
        },
        TyV::Tuple(ts) => {
            assert forall|i: int| 0 <= i < ts.len() implies is_ground(#[trigger] ts[i]) && size(ts[i]) < size(t) by {
                lemma_ground_of(t, ts[i]);
                lemma_sizes_elem(ts, i);
            }
        },
        TyV::Record(fs) => {
            assert forall|i: int| 0 <= i < fs.len() implies is_ground(#[trigger] fs[i].1) && size(fs[i].1) < size(t) by {
                lemma_ground_of(t, fs[i].1);
                lemma_field_sizes_elem(fs, i);
            }
        },
        TyV::RecordOpen(fs, r) => {
            lemma_ground_of(t, *r);
            assert forall|i: int| 0 <= i < fs.len() implies is_ground(#[trigger] fs[i].1) && size(fs[i].1) < size(t) by {
                lemma_ground_of(t, fs[i].1);
                lemma_field_sizes_elem(fs, i);
            }
        },
        TyV::App(h, args) => {
            lemma_ground_of(t, *h);
            assert forall|i: int| 0 <= i < args.len() implies is_ground(#[trigger] args[i]) && size(args[i]) < size(t) by {
                lemma_ground_of(t, args[i]);
                lemma_sizes_elem(args, i);
            }
        },
        _ => {},
    }
}

/// A closed record whose field types are ground is ground.
proof fn lemma_record_ground(fs: FieldsV)
    requires
        forall|i: int| 0 <= i < fs.len() ==> is_ground(#[trigger] fs[i].1),
    ensures
        is_ground(TyV::Record(fs)),
{
    assert forall|v: u32| !crate::ty::ftv(TyV::Record(fs)).contains(v) by {
        if crate::ty::ftv(TyV::Record(fs)).contains(v) {
            let i = choose|i: int| 0 <= i < fs.len() && crate::ty::ftv(fs[i].1).contains(v);
            assert(is_ground(fs[i].1));
            lemma_ground_no_var(fs[i].1, v);
        }
    }
    assert(crate::ty::ftv(TyV::Record(fs)) =~= Set::<u32>::empty());
}

/// The fields of `sort_fields(fs)` are fields of `fs`, with sizes bounded by
/// the total size of `fs`.
proof fn lemma_sorted_fields_from(fs: FieldsV)
    ensures
        forall|i: int| 0 <= i < sort_fields(fs).len() ==> #[trigger] fs.contains(sort_fields(fs)[i]),
        forall|i: int| 0 <= i < sort_fields(fs).len() ==> size(#[trigger] sort_fields(fs)[i].1) <= field_sizes(fs),
{
    lemma_sort_sub(fs);
    assert forall|i: int| 0 <= i < sort_fields(fs).len() implies size(#[trigger] sort_fields(fs)[i].1) <= field_sizes(fs) by {
        assert(fs.contains(sort_fields(fs)[i]));
        let j = choose|j: int| 0 <= j < fs.len() && fs[j] == sort_fields(fs)[i];
        lemma_field_sizes_elem(fs, j);
    }
}

/// Matching a ground pattern ends within its size and binds nothing.
proof fn lemma_match_ground_pattern(fuel: nat, s: SubstV, p: TyV, c: TyV)
    requires
        is_ground(p),
        fuel > size(p),
    ensures
        match_f(fuel, s, p, c) matches Some(r) && (r matches Some(s2) ==> s2 == s),
    decreases fuel, 0nat,
{
    lemma_ground_parts(p);
    let f = (fuel - 1) as nat;
    match p {
        TyV::List(pa) => match c {
            TyV::List(ca) => {
                assert(match_f(fuel, s, p, c) == match_f(f, s, *pa, *ca));
                lemma_match_ground_pattern(f, s, *pa, *ca);
            },
            _ => {},
        },
        TyV::Tuple(ps) => match c {
            TyV::Tuple(cs) => if ps.len() == cs.len() {
                assert(match_f(fuel, s, p, c) == match_seq_f(f, s, ps, cs));
                lemma_match_seq_ground_pattern(f, s, ps, cs);
            },
            _ => {},
        },
        TyV::Func(pa, pb) => match c {
            TyV::Func(ca, cb) => {
                assert(match_f(fuel, s, p, c) == match_then_f(f, match_f(f, s, *pa, *ca), *pb, *cb));
                lemma_match_ground_pattern(f, s, *pa, *ca);
                if match_f(f, s, *pa, *ca) == Some(Some(s)) {
                    lemma_match_ground_pattern(f, s, *pb, *cb);
                }
            },
            _ => {},
        },
        TyV::Record(pf) => match c {
            TyV::Record(cf) => if pf.len() == cf.len() {
                lemma_sorted_fields_from(pf);
                let sp = sort_fields(pf);
                assert forall|i: int| 0 <= i < sp.len() implies is_ground(#[trigger] sp[i].1) && f > size(sp[i].1) by {
                    assert(pf.contains(sp[i]));
                    let j = choose|j: int| 0 <= j < pf.len() && pf[j] == sp[i];
                    assert(is_ground(pf[j].1) && size(pf[j].1) < size(p));
                }
                lemma_match_pairs_ground_pattern(f, s, sp, sort_fields(cf));
                assert(match_f(fuel, s, p, c) == match_pairs_f(f, s, sp, sort_fields(cf)));
            },
            _ => {},
        },
        TyV::RecordOpen(preq, prest) => match c {
            TyV::Record(cf) => {
                assert(match_f(fuel, s, p, c) == match_then_f(
                    f,
                    match_lookup_f(f, s, preq, cf),
                    *prest,
                    TyV::Record(sort_fields(without_keys(cf, preq))),
                ));
                lemma_match_lookup_ground_pattern(f, s, preq, cf);
                if match_lookup_f(f, s, preq, cf) == Some(Some(s)) {
                    lemma_match_ground_pattern(f, s, *prest, TyV::Record(sort_fields(without_keys(cf, preq))));
                }
            },
            TyV::RecordOpen(creq, crest) => if preq.len() == creq.len() {
                lemma_sorted_fields_from(preq);
                let sp = sort_fields(preq);
                lemma_field_sizes_bound(preq, p);
                assert forall|i: int| 0 <= i < sp.len() implies is_ground(#[trigger] sp[i].1) && f > size(sp[i].1) by {
                    assert(preq.contains(sp[i]));
                    let j = choose|j: int| 0 <= j < preq.len() && preq[j] == sp[i];
                    assert(is_ground(preq[j].1) && size(preq[j].1) < size(p));
                }
                assert(match_f(fuel, s, p, c) == match_then_f(f, match_pairs_f(f, s, sp, sort_fields(creq)), *prest, *crest));
                lemma_match_pairs_ground_pattern(f, s, sp, sort_fields(creq));
                if match_pairs_f(f, s, sp, sort_fields(creq)) == Some(Some(s)) {
                    lemma_match_ground_pattern(f, s, *prest, *crest);
                }
            },
            _ => {},
        },
        TyV::App(ph, pargs) => match c {
            TyV::App(ch, cargs) => if pargs.len() == cargs.len() {
                lemma_match_ground_pattern(f, s, *ph, *ch);
                assert(match_f(fuel, s, p, c) == match match_f(f, s, *ph, *ch) {
                    Some(Some(s1)) => match_seq_f(f, s1, pargs, cargs),
                    r => r,
                });
                if match_f(f, s, *ph, *ch) == Some(Some(s)) {
                    lemma_match_seq_ground_pattern(f, s, pargs, cargs);
                }
            },
            _ => {},
        },
        _ => {},
    }
}

/// The field sizes of the required fields of an open record are below its size.
proof fn lemma_field_sizes_bound(fs: FieldsV, t: TyV)
    requires
        t matches TyV::RecordOpen(gs, _) && gs == fs,
    ensures
        field_sizes(fs) < size(t),
{
}

proof fn lemma_match_seq_ground_pattern(f: nat, s: SubstV, ps: Seq<TyV>, cs: Seq<TyV>)
    requires
        forall|i: int| 0 <= i < ps.len() ==> is_ground(#[trigger] ps[i]) && f > size(ps[i]),
    ensures
        match_seq_f(f, s, ps, cs) matches Some(r) && (r matches Some(s2) ==> s2 == s),
    decreases f, ps.len() + 2,
{
    if ps.len() > 0 && cs.len() > 0 {
        lemma_match_ground_pattern(f, s, ps[0], cs[0]);
        if match_f(f, s, ps[0], cs[0]) == Some(Some(s)) {
            lemma_match_seq_ground_pattern(f, s, ps.drop_first(), cs.drop_first());
        }
    }
}

proof fn lemma_match_pairs_ground_pattern(f: nat, s: SubstV, ps: FieldsV, cs: FieldsV)
    requires
        forall|i: int| 0 <= i < ps.len() ==> is_ground(#[trigger] ps[i].1) && f > size(ps[i].1),
    ensures
        match_pairs_f(f, s, ps, cs) matches Some(r) && (r matches Some(s2) ==> s2 == s),
    decreases f, ps.len() + 2,
{
    if ps.len() > 0 && cs.len() > 0 && ps[0].0 == cs[0].0 {
        lemma_match_ground_pattern(f, s, ps[0].1, cs[0].1);
        if match_f(f, s, ps[0].1, cs[0].1) == Some(Some(s)) {
            lemma_match_pairs_ground_pattern(f, s, ps.drop_first(), cs.drop_first());
        }
    }
}

proof fn lemma_match_lookup_ground_pattern(f: nat, s: SubstV, ps: FieldsV, cs: FieldsV)
    requires
        forall|i: int| 0 <= i < ps.len() ==> is_ground(#[trigger] ps[i].1) && f > size(ps[i].1),
    ensures
        match_lookup_f(f, s, ps, cs) matches Some(r) && (r matches Some(s2) ==> s2 == s),
    decreases f, ps.len() + 2,
{
    if ps.len() > 0 && has_key(cs, ps[0].0) {
        lemma_match_ground_pattern(f, s, ps[0].1, last_val(cs, ps[0].0));
        if match_f(f, s, ps[0].1, last_val(cs, ps[0].0)) == Some(Some(s)) {
            lemma_match_lookup_ground_pattern(f, s, ps.drop_first(), cs);
        }
    }
}

/// Each type of `cs` is ground and has at most `k` nodes.
pub open spec fn seq_ground(cs: Seq<TyV>, k: nat) -> bool {
    forall|i: int| 0 <= i < cs.len() ==> is_ground(#[trigger] cs[i]) && size(cs[i]) <= k
}

/// Each field type of `cs` is ground and has at most `k` nodes.
pub open spec fn fields_ground(cs: FieldsV, k: nat) -> bool {
    forall|i: int| 0 <= i < cs.len() ==> is_ground(#[trigger] cs[i].1) && size(cs[i].1) <= k
}

proof fn lemma_sorted_fields_ground(cs: FieldsV, k: nat)
    requires
        fields_ground(cs, k),
    ensures
        fields_ground(sort_fields(cs), k),
{
    lemma_sorted_fields_from(cs);
    let sc = sort_fields(cs);
    assert forall|i: int| 0 <= i < sc.len() implies is_ground(#[trigger] sc[i].1) && size(sc[i].1) <= k by {
        assert(cs.contains(sc[i]));
        let j = choose|j: int| 0 <= j < cs.len() && cs[j] == sc[i];
        assert(is_ground(cs[j].1) && size(cs[j].1) <= k);
    }
}

/// Matching against a ground type ends, and binds only ground types no
/// larger than `k`.
proof fn lemma_match_ground_target(fuel: nat, s: SubstV, p: TyV, c: TyV, k: nat)
    requires
        is_ground(c),
        size(c) <= k,
        bindings_ground(s, k),
        fuel > size(p) + k,
    ensures
        match_f(fuel, s, p, c) matches Some(r) && (r matches Some(s2) ==> bindings_ground(s2, k)),
    decreases fuel, 0nat,
{
    lemma_ground_parts(c);
    let f = (fuel - 1) as nat;
    match p {
        TyV::Var(v) => {
            if s.contains_key(v) {
                assert(match_f(fuel, s, p, c) == match_f(f, s, s[v], c));
                lemma_match_ground_pattern(f, s, s[v], c);
            } else {
                assert(match_f(fuel, s, p, c) == Some(Some(s.insert(v, c))));
                assert forall|w: u32| #[trigger] s.insert(v, c).contains_key(w) implies is_ground(s.insert(v, c)[w]) && size(
                    s.insert(v, c)[w],
                ) <= k by {
                    if w != v {
                        assert(s.contains_key(w));
                    }
                }
            }
        },
        TyV::Con(_) => {},
        TyV::List(pa) => match c {
            TyV::List(ca) => {
                assert(match_f(fuel, s, p, c) == match_f(f, s, *pa, *ca));
                lemma_match_ground_target(f, s, *pa, *ca, k);
            },
            _ => {},
        },
        TyV::Tuple(ps) => match c {
            TyV::Tuple(cs) => if ps.len() == cs.len() {
                assert(match_f(fuel, s, p, c) == match_seq_f(f, s, ps, cs));
                assert forall|i: int| 0 <= i < ps.len() implies f > size(#[trigger] ps[i]) + k by {
                    lemma_sizes_elem(ps, i);
                }
                lemma_match_seq_ground_target(f, s, ps, cs, k);
            },
            _ => {},
        },
        TyV::Func(pa, pb) => match c {
            TyV::Func(ca, cb) => {
                assert(match_f(fuel, s, p, c) == match_then_f(f, match_f(f, s, *pa, *ca), *pb, *cb));
                lemma_match_ground_target(f, s, *pa, *ca, k);
                if let Some(Some(s1)) = match_f(f, s, *pa, *ca) {
                    lemma_match_ground_target(f, s1, *pb, *cb, k);
                }
            },
            _ => {},
        },
        TyV::Record(pf) => match c {
            TyV::Record(cf) => if pf.len() == cf.len() {
                lemma_sorted_fields_from(pf);
                let sp = sort_fields(pf);
                assert forall|i: int| 0 <= i < sp.len() implies f > size(#[trigger] sp[i].1) + k by {}
                lemma_sorted_fields_ground(cf, k);
                lemma_match_pairs_ground_target(f, s, sp, sort_fields(cf), k);
                assert(match_f(fuel, s, p, c) == match_pairs_f(f, s, sp, sort_fields(cf)));
            },
            _ => {},
        },
        TyV::RecordOpen(preq, prest) => match c {
            TyV::Record(cf) => {
                let rest_c = TyV::Record(sort_fields(without_keys(cf, preq)));
                assert(match_f(fuel, s, p, c) == match_then_f(f, match_lookup_f(f, s, preq, cf), *prest, rest_c));
                assert forall|i: int| 0 <= i < preq.len() implies f > size(#[trigger] preq[i].1) + k by {
                    lemma_field_sizes_elem(preq, i);
                }
                lemma_match_lookup_ground_target(f, s, preq, cf, k);
                if let Some(Some(s1)) = match_lookup_f(f, s, preq, cf) {
                    let w = without_keys(cf, preq);
                    lemma_without_keys_sub(cf, preq);
                    assert(fields_ground(w, k)) by {
                        assert forall|i: int| 0 <= i < w.len() implies is_ground(#[trigger] w[i].1) && size(w[i].1) <= k by {
                            assert(cf.contains(w[i]));
                            let j = choose|j: int| 0 <= j < cf.len() && cf[j] == w[i];
                            assert(is_ground(cf[j].1) && size(cf[j].1) <= k);
                        }
                    }
                    lemma_sorted_fields_ground(w, k);
                    lemma_sort_sub(w);
                    lemma_record_ground(sort_fields(w));
                    lemma_match_ground_target(f, s1, *prest, rest_c, k);
                }
            },
            TyV::RecordOpen(creq, crest) => if preq.len() == creq.len() {
                lemma_sorted_fields_from(preq);
                let sp = sort_fields(preq);
                assert forall|i: int| 0 <= i < sp.len() implies f > size(#[trigger] sp[i].1) + k by {}
                assert(fields_ground(creq, k));
                lemma_sorted_fields_ground(creq, k);
                assert(match_f(fuel, s, p, c) == match_then_f(f, match_pairs_f(f, s, sp, sort_fields(creq)), *prest, *crest));
                lemma_match_pairs_ground_target(f, s, sp, sort_fields(creq), k);
                if let Some(Some(s1)) = match_pairs_f(f, s, sp, sort_fields(creq)) {
                    lemma_match_ground_target(f, s1, *prest, *crest, k);
                }
            },
            _ => {},
        },
        TyV::App(ph, pargs) => match c {
            TyV::App(ch, cargs) => if pargs.len() == cargs.len() {
                lemma_match_ground_target(f, s, *ph, *ch, k);
                assert(match_f(fuel, s, p, c) == match match_f(f, s, *ph, *ch) {
                    Some(Some(s1)) => match_seq_f(f, s1, pargs, cargs),
                    r => r,
                });
                if let Some(Some(s1)) = match_f(f, s, *ph, *ch) {
                    assert forall|i: int| 0 <= i < pargs.len() implies f > size(#[trigger] pargs[i]) + k by {
                        lemma_sizes_elem(pargs, i);
                    }
                    lemma_match_seq_ground_target(f, s1, pargs, cargs, k);
                }
            },
            _ => {},
        },
    }
}

proof fn lemma_match_seq_ground_target(f: nat, s: SubstV, ps: Seq<TyV>, cs: Seq<TyV>, k: nat)
    requires
        forall|i: int| 0 <= i < ps.len() ==> f > size(#[trigger] ps[i]) + k,
        seq_ground(cs, k),
        bindings_ground(s, k),
    ensures
        match_seq_f(f, s, ps, cs) matches Some(r) && (r matches Some(s2) ==> bindings_ground(s2, k)),
    decreases f, ps.len() + 2,
{
    if ps.len() > 0 && cs.len() > 0 {
        assert(is_ground(cs[0]) && size(cs[0]) <= k);
        lemma_match_ground_target(f, s, ps[0], cs[0], k);
        if let Some(Some(s1)) = match_f(f, s, ps[0], cs[0]) {
            let pt = ps.drop_first();
            let ct = cs.drop_first();
            assert forall|i: int| 0 <= i < pt.len() implies f > size(#[trigger] pt[i]) + k by {
                assert(pt[i] == ps[i + 1]);
            }
            assert forall|i: int| 0 <= i < ct.len() implies is_ground(#[trigger] ct[i]) && size(ct[i]) <= k by {
                assert(ct[i] == cs[i + 1]);
            }
            lemma_match_seq_ground_target(f, s1, pt, ct, k);
        }
    }
}

proof fn lemma_match_pairs_ground_target(f: nat, s: SubstV, ps: FieldsV, cs: FieldsV, k: nat)
    requires
        forall|i: int| 0 <= i < ps.len() ==> f > size(#[trigger] ps[i].1) + k,
        fields_ground(cs, k),
        bindings_ground(s, k),
    ensures
        match_pairs_f(f, s, ps, cs) matches Some(r) && (r matches Some(s2) ==> bindings_ground(s2, k)),
    decreases f, ps.len() + 2,
{
    if ps.len() > 0 && cs.len() > 0 && ps[0].0 == cs[0].0 {
        assert(is_ground(cs[0].1) && size(cs[0].1) <= k);
        lemma_match_ground_target(f, s, ps[0].1, cs[0].1, k);
        if let Some(Some(s1)) = match_f(f, s, ps[0].1, cs[0].1) {
            let pt = ps.drop_first();
            let ct = cs.drop_first();
            assert forall|i: int| 0 <= i < pt.len() implies f > size(#[trigger] pt[i].1) + k by {
                assert(pt[i] == ps[i + 1]);
            }
            assert forall|i: int| 0 <= i < ct.len() implies is_ground(#[trigger] ct[i].1) && size(ct[i].1) <= k by {
                assert(ct[i] == cs[i + 1]);
            }
            lemma_match_pairs_ground_target(f, s1, pt, ct, k);
        }
    }
}

proof fn lemma_match_lookup_ground_target(f: nat, s: SubstV, ps: FieldsV, cs: FieldsV, k: nat)
    requires
        forall|i: int| 0 <= i < ps.len() ==> f > size(#[trigger] ps[i].1) + k,
        fields_ground(cs, k),
        bindings_ground(s, k),
    ensures
        match_lookup_f(f, s, ps, cs) matches Some(r) && (r matches Some(s2) ==> bindings_ground(s2, k)),
    decreases f, ps.len() + 2,
{
    if ps.len() > 0 && has_key(cs, ps[0].0) {
        let lv = last_val(cs, ps[0].0);
        lemma_last_val_in(cs, ps[0].0);
        let j = choose|j: int| 0 <= j < cs.len() && cs[j] == (ps[0].0, lv);
        assert(is_ground(cs[j].1) && size(cs[j].1) <= k);
        lemma_match_ground_target(f, s, ps[0].1, lv, k);
        if let Some(Some(s1)) = match_f(f, s, ps[0].1, lv) {
            let pt = ps.drop_first();
            assert forall|i: int| 0 <= i < pt.len() implies f > size(#[trigger] pt[i].1) + k by {
                assert(pt[i] == ps[i + 1]);
            }
            lemma_match_lookup_ground_target(f, s1, pt, cs, k);
        }
    }
}

/// Matching any pattern against a ground type runs to an end.
pub proof fn lemma_ground_match_terminates(p: TyV, c: TyV)
    requires
        is_ground(c),
    ensures
        match_terminates(p, c),
{
    let k = size(c);
    let fuel = size(p) + k + 1;
    assert(bindings_ground(Map::<u32, TyV>::empty(), k));
    lemma_match_ground_target(fuel, Map::empty(), p, c, k);
    assert(match_f(fuel, Map::empty(), p, c) is Some);
}

/// Whether the polymorphic instance head `pattern` matches `concrete`.
pub fn unify_instance_head(pattern: &Ty, concrete: &Ty) -> (r: Option<()>)
    requires
        match_terminates(pattern@, concrete@),
    ensures
        r is Some <==> match_v(pattern@, concrete@) is Some && match_v(pattern@, concrete@)->Some_0 is Some,
{
    let ghost fuel = choose|fuel: nat| #[trigger] match_f(fuel, Map::empty(), pattern@, concrete@) is Some;
    let mut subst: HashMap<u32, Ty> = HashMap::new();
    assert(subst_view(subst@) =~= Map::<u32, TyV>::empty());
    if match_in(pattern, concrete, &mut subst, Ghost(fuel)) {
        Some(())
    } else {
        None
    }
}

/// Matches the instance head `pattern` against `concrete` when `concrete`
/// is ground, where matching always ends: `Some` of what
/// [`unify_instance_head`] gives, or `None` when `concrete` has type
/// variables and nothing was matched.
pub fn unify_instance_head_ground(pattern: &Ty, concrete: &Ty) -> (r: Option<Option<()>>)
    ensures
        r is None <==> !is_ground(concrete@),
        r matches Some(m) ==> (m is Some <==> match_v(pattern@, concrete@) is Some && match_v(
            pattern@,
            concrete@,
        )->Some_0 is Some),
{
    let vars = crate::ty::ftv_ty(concrete);
    if vars.is_empty() {
        proof {
            lemma_ground_match_terminates(pattern@, concrete@);
        }
        Some(unify_instance_head(pattern, concrete))
    } else {
        None
    }
}

fn match_in(p: &Ty, c: &Ty, subst: &mut HashMap<u32, Ty>, Ghost(f): Ghost<nat>) -> (r: bool)
    requires
        match_f(f, subst_view(old(subst)@), p@, c@) is Some,
    ensures
        match_f(f, subst_view(old(subst)@), p@, c@) == Some(
            if r {
                Some(subst_view(final(subst)@))
            } else {
                None::<SubstV>
            },
        ),
    decreases f, 1nat,
{
    let ghost s0 = subst_view(subst@);
    let ghost g = (f - 1) as nat;
    match p {
        Ty::Var(v) => {
            let bound = match subst.get(v) {
                Some(b) => Some(ty_clone(b)),
                None => None,
            };
            match bound {
                Some(b) => {
                    assert(s0[*v] == b@);
                    match_in(&b, c, subst, Ghost(g))
                },
                None => {
                    let cc = ty_clone(c);
                    subst.insert(*v, cc);
                    assert(subst_view(subst@) =~= s0.insert(*v, c@));
                    true
                },
            }
        },
        Ty::Con(pn) => match c {
            Ty::Con(cn) => *pn == *cn,
            _ => false,
        },
        Ty::List(pa) => match c {
            Ty::List(ca) => match_in(pa, ca, subst, Ghost(g)),
            _ => false,
        },
        Ty::Tuple(ps) => match c {
            Ty::Tuple(cs) => {
                proof {
                    lemma_view_seq(ps@);
                    lemma_view_seq(cs@);
                }
                if ps.len() != cs.len() {
                    false
                } else {
                    match_seq_vec(ps, cs, subst, Ghost(g))
                }
            },
            _ => false,
        },
        Ty::Func(pa, pb) => match c {
            Ty::Func(ca, cb) => {
                assert(match_f(f, s0, p@, c@) == match_then_f(g, match_f(g, s0, (**pa)@, (**ca)@), (**pb)@, (**cb)@));
                if match_in(pa, ca, subst, Ghost(g)) {
                    match_in(pb, cb, subst, Ghost(g))
                } else {
                    false
                }
            },
            _ => false,
        },
        Ty::Record(pf) => match c {
            Ty::Record(cf) => {
                proof {
                    lemma_view_fields(pf@);
                    lemma_view_fields(cf@);
                }
                if pf.len() != cf.len() {
                    false
                } else {
                    let ps = sort_fields_vec(clone_field_list(pf));
                    let cs = sort_fields_vec(clone_field_list(cf));
                    proof {
                        lemma_sort_len(view_fields(pf@));
                        lemma_sort_len(view_fields(cf@));
                        lemma_view_fields(ps@);
                        lemma_view_fields(cs@);
                    }
                    match_pairs_vec(&ps, &cs, subst, Ghost(g))
                }
            },
            _ => false,
        },
        Ty::RecordOpen(preq, prest) => match c {
            Ty::Record(cf) => {
                let ghost rv = TyV::Record(sort_fields(without_keys(view_fields(cf@), view_fields(preq@))));
                assert(match_f(f, s0, p@, c@) == match_then_f(
                    g,
                    match_lookup_f(g, s0, view_fields(preq@), view_fields(cf@)),
                    (**prest)@,
                    rv,
                ));
                if match_lookup_vec(preq, cf, subst, Ghost(g)) {
                    let res = sort_fields_vec(without_keys_vec(cf, preq));
                    let rr = Ty::Record(res);
                    assert(rr@ == rv);
                    match_in(prest, &rr, subst, Ghost(g))
                } else {
                    false
                }
            },
            Ty::RecordOpen(creq, crest) => {
                proof {
                    lemma_view_fields(preq@);
                    lemma_view_fields(creq@);
                }
                if preq.len() != creq.len() {
                    false
                } else {
                    let ps = sort_fields_vec(clone_field_list(preq));
                    let cs = sort_fields_vec(clone_field_list(creq));
                    proof {
                        lemma_sort_len(view_fields(preq@));
                        lemma_sort_len(view_fields(creq@));
                        lemma_view_fields(ps@);
                        lemma_view_fields(cs@);
                    }
                    assert(match_f(f, s0, p@, c@) == match_then_f(
                        g,
                        match_pairs_f(g, s0, view_fields(ps@), view_fields(cs@)),
                        (**prest)@,
                        (**crest)@,
                    ));
                    if match_pairs_vec(&ps, &cs, subst, Ghost(g)) {
                        match_in(prest, crest, subst, Ghost(g))
                    } else {
                        false
                    }
                }
            },
            _ => false,
        },
        Ty::App { head: ph, args: pargs } => match c {
            Ty::App { head: ch, args: cargs } => {
                proof {
                    lemma_view_seq(pargs@);
                    lemma_view_seq(cargs@);
                }
                if pargs.len() != cargs.len() {
                    false
                } else if match_in(ph, ch, subst, Ghost(g)) {
                    match_seq_vec(pargs, cargs, subst, Ghost(g))
                } else {
                    false
                }
            },
            _ => false,
        },
    }
}

fn match_seq_vec(ps: &Vec<Ty>, cs: &Vec<Ty>, subst: &mut HashMap<u32, Ty>, Ghost(g): Ghost<nat>) -> (r: bool)
    requires
        ps.len() == cs.len(),
        match_seq_f(g, subst_view(old(subst)@), view_seq(ps@), view_seq(cs@)) is Some,
    ensures
        match_seq_f(g, subst_view(old(subst)@), view_seq(ps@), view_seq(cs@)) == Some(
            if r {
                Some(subst_view(final(subst)@))
            } else {
                None::<SubstV>
            },
        ),
    decreases g + 1, 0nat,
{
    let ghost start = subst_view(subst@);
    let ghost pv = view_seq(ps@);
    let ghost cv = view_seq(cs@);
    proof {
        lemma_view_seq(ps@);
        lemma_view_seq(cs@);
        assert(pv.skip(0) =~= pv);
        assert(cv.skip(0) =~= cv);
    }
    let mut i: usize = 0;
    while i < ps.len()
        invariant
            i <= ps.len(),
            ps.len() == cs.len(),
            pv == view_seq(ps@),
            cv == view_seq(cs@),
            pv.len() == ps.len(),
            cv.len() == cs.len(),
            forall|j: int| 0 <= j < ps.len() ==> #[trigger] pv[j] == ps@[j]@,
            forall|j: int| 0 <= j < cs.len() ==> #[trigger] cv[j] == cs@[j]@,
            start == subst_view(old(subst)@),
            match_seq_f(g, start, pv, cv) == match_seq_f(g, subst_view(subst@), pv.skip(i as int), cv.skip(i as int)),
            match_seq_f(g, start, pv, cv) is Some,
        decreases ps.len() - i,
    {
        let ghost cur = subst_view(subst@);
        proof {
            assert(pv.skip(i as int)[0] == pv[i as int]);
            assert(cv.skip(i as int)[0] == cv[i as int]);
            assert(pv.skip(i as int).drop_first() =~= pv.skip(i + 1));
            assert(cv.skip(i as int).drop_first() =~= cv.skip(i + 1));
        }
        if !match_in(&ps[i], &cs[i], subst, Ghost(g)) {
            return false;
        }
        i += 1;
    }
    proof {
        assert(pv.skip(i as int).len() == 0);
    }
    true
}

fn match_pairs_vec(ps: &Vec<(String, Ty)>, cs: &Vec<(String, Ty)>, subst: &mut HashMap<u32, Ty>, Ghost(g): Ghost<nat>) -> (r: bool)
    requires
        ps.len() == cs.len(),
        match_pairs_f(g, subst_view(old(subst)@), view_fields(ps@), view_fields(cs@)) is Some,
    ensures
        match_pairs_f(g, subst_view(old(subst)@), view_fields(ps@), view_fields(cs@)) == Some(
            if r {
                Some(subst_view(final(subst)@))
            } else {
                None::<SubstV>
            },
        ),
    decreases g + 1, 0nat,
{
    let ghost start = subst_view(subst@);
    let ghost pv = view_fields(ps@);
    let ghost cv = view_fields(cs@);
    proof {
        lemma_view_fields(ps@);
        lemma_view_fields(cs@);
        assert(pv.skip(0) =~= pv);
        assert(cv.skip(0) =~= cv);
    }
    let mut i: usize = 0;
    while i < ps.len()
        invariant
            i <= ps.len(),
            ps.len() == cs.len(),
            pv == view_fields(ps@),
            cv == view_fields(cs@),
            pv.len() == ps.len(),
            cv.len() == cs.len(),
            forall|j: int| 0 <= j < ps.len() ==> #[trigger] pv[j] == (ps@[j].0@, ps@[j].1@),
            forall|j: int| 0 <= j < cs.len() ==> #[trigger] cv[j] == (cs@[j].0@, cs@[j].1@),
            start == subst_view(old(subst)@),
            match_pairs_f(g, start, pv, cv) == match_pairs_f(g, subst_view(subst@), pv.skip(i as int), cv.skip(i as int)),
            match_pairs_f(g, start, pv, cv) is Some,
        decreases ps.len() - i,
    {
        proof {
            assert(pv.skip(i as int)[0] == pv[i as int]);
            assert(cv.skip(i as int)[0] == cv[i as int]);
            assert(pv.skip(i as int).drop_first() =~= pv.skip(i + 1));
            assert(cv.skip(i as int).drop_first() =~= cv.skip(i + 1));
        }
        if ps[i].0 != cs[i].0 {
            return false;
        }
        if !match_in(&ps[i].1, &cs[i].1, subst, Ghost(g)) {
            return false;
        }
        i += 1;
    }
    proof {
        assert(pv.skip(i as int).len() == 0);
    }
    true
}

fn match_lookup_vec(ps: &Vec<(String, Ty)>, cs: &Vec<(String, Ty)>, subst: &mut HashMap<u32, Ty>, Ghost(g): Ghost<nat>) -> (r: bool)
    requires
        match_lookup_f(g, subst_view(old(subst)@), view_fields(ps@), view_fields(cs@)) is Some,
    ensures
        match_lookup_f(g, subst_view(old(subst)@), view_fields(ps@), view_fields(cs@)) == Some(
            if r {
                Some(subst_view(final(subst)@))
            } else {
                None::<SubstV>
            },
        ),
    decreases g + 1, 0nat,
{
    let ghost start = subst_view(subst@);
    let ghost pv = view_fields(ps@);
    let ghost cv = view_fields(cs@);
    proof {
        lemma_view_fields(ps@);
        assert(pv.skip(0) =~= pv);
    }
    let mut i: usize = 0;
    while i < ps.len()
        invariant
            i <= ps.len(),
            pv == view_fields(ps@),
            cv == view_fields(cs@),
            pv.len() == ps.len(),
            forall|j: int| 0 <= j < ps.len() ==> #[trigger] pv[j] == (ps@[j].0@, ps@[j].1@),
            start == subst_view(old(subst)@),
            match_lookup_f(g, start, pv, cv) == match_lookup_f(g, subst_view(subst@), pv.skip(i as int), cv),
            match_lookup_f(g, start, pv, cv) is Some,
        decreases ps.len() - i,
    {
        proof {
            assert(pv.skip(i as int)[0] == pv[i as int]);
            assert(pv.skip(i as int).drop_first() =~= pv.skip(i + 1));
        }
        match find_last(cs, &ps[i].0) {
            None => {
                return false;
            },
            Some(j) => {
                if !match_in(&ps[i].1, &cs[j].1, subst, Ghost(g)) {
                    return false;
                }
            },
        }
        i += 1;
    }
    proof {
        assert(pv.skip(i as int).len() == 0);
    }
    true
}


/// The built-in alias `String = [Char]` applied at the top of a type.
pub open spec fn normalize_for_key(t: TyV) -> TyV {
    match t {
        TyV::List(a) => if *a == TyV::Con("Char"@) {
            TyV::Con("String"@)
        } else {
            t
        },
        _ => t,
    }
}

/// A type with `[Char]` at its top shown as `String`.
pub fn normalize_ty_for_instance_key(ty: &Ty) -> (r: Ty)
    ensures
        r@ == normalize_for_key(ty@),
{
    match ty {
        Ty::List(t) => {
            if let Ty::Con(n) = &**t {
                let ch = String::from_str("Char");
                assert(ch@ == "Char"@);
                if *n == ch {
                    assert((**t)@ == TyV::Con("Char"@));
                    let r = Ty::Con(String::from_str("String"));
                    assert(r@ == TyV::Con("String"@));
                    return r;
                }
                assert((**t)@ != TyV::Con("Char"@));
            }
            ty_clone(ty)
        },
        _ => ty_clone(ty),
    }
}

/// Equal neighbours kept once.
pub open spec fn dedup_adj(ks: Seq<Seq<char>>) -> Seq<Seq<char>>
    decreases ks.len(),
{
    if ks.len() <= 1 {
        ks
    } else if ks.last() == ks[ks.len() - 2] {
        dedup_adj(ks.drop_last())
    } else {
        dedup_adj(ks.drop_last()).push(ks.last())
    }
}

/// The names joined by `_`.
pub open spec fn join_us(ks: Seq<Seq<char>>) -> Seq<char>
    decreases ks.len(),
{
    if ks.len() == 0 {
        Seq::empty()
    } else if ks.len() == 1 {
        ks[0]
    } else {
        join_us(ks.drop_last()) + seq!['_'] + ks.last()
    }
}

/// The labels of a record for its instance key: its names in order, each
/// once, joined by `_`.
pub open spec fn label_key(fs: FieldsV) -> Seq<char> {
    join_us(dedup_adj(sort_fields(fs).map_values(|e: (Seq<char>, TyV)| e.0)))
}

/// The key naming the instance for a head type; `None` where the head holds
/// a type variable.
pub open spec fn head_key(t: TyV) -> Option<Seq<char>>
    decreases t, 1nat,
{
    match t {
        TyV::Con(n) => Some(n),
        TyV::App(h, args) => match head_key(*h) {
            Some(k) => match args_key(args) {
                Some(ka) => Some(k + ka),
                None => None,
            },
            None => None,
        },
        TyV::List(a) => match head_key(*a) {
            Some(k) => Some("List_"@ + k),
            None => None,
        },
        TyV::Tuple(ts) => match args_key(ts) {
            Some(ka) => Some("Tuple"@ + crate::display::decimal(ts.len()) + ka),
            None => None,
        },
        TyV::Record(fs) => Some("Record"@ + label_key(fs)),
        TyV::RecordOpen(fs, _) => Some("RecordOpen"@ + label_key(fs)),
        TyV::Func(a, b) => match (head_key(*a), head_key(*b)) {
            (Some(ka), Some(kb)) => Some("Func_"@ + ka + "_"@ + kb),
            _ => None,
        },
        TyV::Var(_) => None,
    }
}

/// Each key preceded by `_`.
pub open spec fn args_key(ts: Seq<TyV>) -> Option<Seq<char>>
    decreases ts, 0nat,
{
    if ts.len() == 0 {
        Some(Seq::empty())
    } else {
        match (args_key(ts.drop_last()), head_key(ts.last())) {
            (Some(a), Some(k)) => Some(a + seq!['_'] + k),
            _ => None,
        }
    }
}

/// The error for a head holding a type variable.
pub open spec fn head_key_error() -> Seq<char> {
    "MVP: class constraints support only constructor/app instance heads"@
}

/// The key naming the instance for `ty`, or the error text.
pub fn instance_head_key_ty(ty: &Ty) -> (r: Result<String, String>)
    ensures
        match head_key(ty@) {
            Some(k) => r is Ok && r->Ok_0@ == k,
            None => r is Err && r->Err_0@ == head_key_error(),
        },
{
    let mut out = String::new();
    if key_into(&mut out, ty) {
        Ok(out)
    } else {
        Err(String::from_str("MVP: class constraints support only constructor/app instance heads"))
    }
}

fn key_into(out: &mut String, t: &Ty) -> (ok: bool)
    ensures
        ok == head_key(t@) is Some,
        ok ==> final(out)@ == old(out)@ + head_key(t@)->Some_0,
    decreases crate::ty::size(t@), 1nat,
{
    let ghost start = out@;
    match t {
        Ty::Var(_) => false,
        Ty::Con(n) => {
            out.append(n.as_str());
            true
        },
        Ty::App { head, args } => {
            if !key_into(out, head) {
                return false;
            }
            let ok = args_into(out, args, Ghost(crate::ty::size(t@)));
            proof {
                if ok {
                    assert(out@ =~= start + head_key(t@)->Some_0);
                }
            }
            ok
        },
        Ty::List(a) => {
            out.append("List_");
            let ok = key_into(out, a);
            proof {
                if ok {
                    assert(out@ =~= start + head_key(t@)->Some_0);
                }
            }
            ok
        },
        Ty::Tuple(ts) => {
            out.append("Tuple");
            crate::display::write_decimal(out, ts.len() as u64);
            proof {
                lemma_view_seq(ts@);
            }
            let ok = args_into(out, ts, Ghost(crate::ty::size(t@)));
            proof {
                if ok {
                    assert(out@ =~= start + head_key(t@)->Some_0);
                }
            }
            ok
        },
        Ty::Record(fs) => {
            out.append("Record");
            labels_into(out, fs);
            assert(out@ =~= start + head_key(t@)->Some_0);
            true
        },
        Ty::RecordOpen(fs, _) => {
            out.append("RecordOpen");
            labels_into(out, fs);
            assert(out@ =~= start + head_key(t@)->Some_0);
            true
        },
        Ty::Func(a, b) => {
            out.append("Func_");
            if !key_into(out, a) {
                return false;
            }
            out.append("_");
            let ok = key_into(out, b);
            proof {
                if ok {
                    assert(out@ =~= start + head_key(t@)->Some_0);
                }
            }
            ok
        },
    }
}

fn args_into(out: &mut String, ts: &Vec<Ty>, Ghost(bound): Ghost<nat>) -> (ok: bool)
    requires
        crate::ty::sizes(view_seq(ts@)) < bound,
    ensures
        ok == args_key(view_seq(ts@)) is Some,
        ok ==> final(out)@ == old(out)@ + args_key(view_seq(ts@))->Some_0,
    decreases bound, 0nat,
{
    let ghost vs = view_seq(ts@);
    let ghost start = out@;
    proof {
        lemma_view_seq(ts@);
    }
    let mut i: usize = 0;
    assert(vs.take(0) =~= Seq::<TyV>::empty());
    while i < ts.len()
        invariant
            i <= ts.len(),
            vs == view_seq(ts@),
            vs.len() == ts.len(),
            forall|j: int| 0 <= j < ts.len() ==> #[trigger] vs[j] == ts@[j]@,
            crate::ty::sizes(vs) < bound,
            args_key(vs.take(i as int)) is Some,
            out@ == start + args_key(vs.take(i as int))->Some_0,
        decreases ts.len() - i,
    {
        proof {
            crate::ty::lemma_sizes_elem(vs, i as int);
            assert(vs.take(i + 1).drop_last() =~= vs.take(i as int));
            assert(vs.take(i + 1).last() == vs[i as int]);
        }
        crate::display::push_char(out, '_');
        if !key_into(out, &ts[i]) {
            proof {
                lemma_args_key_none(vs, i as int);
            }
            return false;
        }
        proof {
            assert(out@ =~= start + args_key(vs.take(i + 1))->Some_0);
        }
        i += 1;
    }
    assert(vs.take(ts.len() as int) =~= vs);
    true
}

/// A key that fails on an element fails on the whole sequence.
proof fn lemma_args_key_none(vs: Seq<TyV>, i: int)
    requires
        0 <= i < vs.len(),
        head_key(vs[i]) is None,
    ensures
        args_key(vs) is None,
    decreases vs.len(),
{
    if i < vs.len() - 1 {
        lemma_args_key_none(vs.drop_last(), i);
    }
}

fn labels_into(out: &mut String, fs: &Vec<(String, Ty)>)
    ensures
        final(out)@ == old(out)@ + label_key(view_fields(fs@)),
{
    let ghost start = out@;
    let sorted = sort_fields_vec(clone_field_list(fs));
    let ghost ks = sort_fields(view_fields(fs@)).map_values(|e: (Seq<char>, TyV)| e.0);
    proof {
        lemma_view_fields(sorted@);
    }
    assert(ks.len() == sorted.len());
    assert forall|j: int| 0 <= j < sorted.len() implies #[trigger] ks[j] == sorted@[j].0@ by {
        assert(view_fields(sorted@)[j] == (sorted@[j].0@, sorted@[j].1@));
    }
    let mut i: usize = 0;
    assert(ks.take(0) =~= Seq::<Seq<char>>::empty());
    while i < sorted.len()
        invariant
            i <= sorted.len(),
            ks.len() == sorted.len(),
            forall|j: int| 0 <= j < sorted.len() ==> #[trigger] ks[j] == sorted@[j].0@,
            out@ == start + join_us(dedup_adj(ks.take(i as int))),
            i > 0 ==> dedup_adj(ks.take(i as int)).len() > 0 && dedup_adj(ks.take(i as int)).last() == ks[i - 1],
        decreases sorted.len() - i,
    {
        let ghost t0 = ks.take(i as int);
        let ghost t1 = ks.take(i + 1);
        proof {
            assert(t1.drop_last() =~= t0);
            assert(t1.last() == ks[i as int]);
            if i > 0 {
                assert(t1[i - 1] == ks[i - 1]);
            }
        }
        if i == 0 {
            out.append(sorted[i].0.as_str());
            proof {
                assert(dedup_adj(t1) =~= seq![ks[0]]);
                assert(out@ =~= start + join_us(dedup_adj(t1)));
            }
        } else if sorted[i].0 != sorted[i - 1].0 {
            crate::display::push_char(out, '_');
            out.append(sorted[i].0.as_str());
            proof {
                let d0 = dedup_adj(t0);
                assert(dedup_adj(t1) == d0.push(ks[i as int]));
                assert(dedup_adj(t1).drop_last() =~= d0);
                assert(out@ =~= start + join_us(dedup_adj(t1)));
            }
        }
        i += 1;
    }
    assert(ks.take(sorted.len() as int) =~= ks);
}


/// The key of the instance a constraint on `ty` selects, for a class that
/// is `higher_kinded` or not: a higher-kinded class selects by the type
/// constructor at the head of the normalized type.
pub open spec fn class_head_key(higher_kinded: bool, ty: TyV) -> Result<Seq<char>, Seq<char>> {
    let t = normalize_for_key(ty);
    if higher_kinded {
        match t {
            TyV::Con(n) => Ok(n),
            TyV::App(h, _) => match *h {
                TyV::Con(n) => Ok(n),
                _ => Err(head_key_error()),
            },
            _ => Err(head_key_error()),
        }
    } else {
        match head_key(t) {
            Some(k) => Ok(k),
            None => Err(head_key_error()),
        }
    }
}

/// The instance key for a constraint of a class on `ty`; whether the class
/// is higher-kinded (a method type applies its parameter) is decided by the
/// caller from the class declarations.
pub fn instance_head_key_ty_for_class(higher_kinded: bool, ty: &Ty) -> (r: Result<String, String>)
    ensures
        match r {
            Ok(k) => class_head_key(higher_kinded, ty@) == Ok::<Seq<char>, Seq<char>>(k@),
            Err(e) => class_head_key(higher_kinded, ty@) == Err::<Seq<char>, Seq<char>>(e@),
        },
{
    let nt = normalize_ty_for_instance_key(ty);
    if higher_kinded {
        return match &nt {
            Ty::Con(name) => {
                let k = name.clone();
                assert(nt@ == TyV::Con(name@));
                Ok(k)
            },
            Ty::App { head, args } => match &**head {
                Ty::Con(name) => {
                    let k = name.clone();
                    assert(nt@ == TyV::App(Box::new(TyV::Con(name@)), view_seq(args@)));
                    Ok(k)
                },
                _ => {
                    assert(nt@ == TyV::App(Box::new((**head)@), view_seq(args@)));
                    Err(String::from_str("MVP: class constraints support only constructor/app instance heads"))
                },
            },
            _ => Err(String::from_str("MVP: class constraints support only constructor/app instance heads")),
        };
    }
    instance_head_key_ty(&nt)
}

} // verus!
