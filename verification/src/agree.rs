//! Agreement of types: the relation that a successful unification
//! establishes between the two sides once its substitution is applied.
use vstd::prelude::*;
use crate::fields::{
    dedup_last, has_key, last_val, lemma_dedup_entries, lemma_dedup_map, lemma_dedup_sub, lemma_has_key_map,
    lemma_last_val_in, lemma_residual_map, lemma_residual_sub, residual,
};
use crate::numeric::numeric_compatible_spec;
use crate::subst::{
    apply_fields_v, apply_fn, apply_seq_v, apply_v, lemma_apply_compose, lemma_apply_unfold, lemma_wf_resolvable, wf,
    SubstV,
};
use crate::ty::{field_sizes, lemma_field_sizes_elem, lemma_size_pos, lemma_sizes_elem, size, sizes, FieldsV, TyV};

verus! {

/// `a` and `b` are the same type up to what unification accepts: a variable
/// agrees only with itself; constructor names agree when equal or numerically
/// compatible; in records the last field of a name counts; an open record
/// agrees with a record whose fields agree with the ones it names and whose
/// other fields, ordered by name, agree with its rest; two open records agree
/// on their common names and on their rests.
pub open spec fn agree(a: TyV, b: TyV) -> bool
    decreases size(a) + size(b), 0nat,
{
    match a {
        TyV::Var(x) => b == TyV::Var(x),
        TyV::Con(x) => match b {
            TyV::Con(y) => x == y || numeric_compatible_spec(x, y),
            _ => false,
        },
        TyV::List(x) => match b {
            TyV::List(y) => agree(*x, *y),
            _ => false,
        },
        TyV::Tuple(xs) => match b {
            TyV::Tuple(ys) => agree_seq(xs, ys),
            _ => false,
        },
        TyV::Record(xs) => match b {
            TyV::Record(ys) => {
                proof {
                    lemma_dedup_sub(xs);
                }
                &&& xs.len() == ys.len()
                &&& dedup_last(xs).len() == dedup_last(ys).len()
                &&& agree_lookup(dedup_last(xs), ys, true)
            },
            TyV::RecordOpen(req, rest) => {
                proof {
                    lemma_residual_sub(xs, req);
                }
                agree_lookup(req, xs, true) && agree(*rest, TyV::Record(residual(xs, req)))
            },
            _ => false,
        },
        TyV::RecordOpen(req, rest) => match b {
            TyV::Record(act) => {
                proof {
                    lemma_residual_sub(act, req);
                }
                agree_lookup(req, act, true) && agree(*rest, TyV::Record(residual(act, req)))
            },
            TyV::RecordOpen(ys, ry) => {
                proof {
                    lemma_dedup_sub(req);
                }
                agree_lookup(dedup_last(req), ys, false) && agree(*rest, *ry)
            },
            _ => false,
        },
        TyV::App(ha, xs) => match b {
            TyV::App(hb, ys) => agree(*ha, *hb) && agree_seq(xs, ys),
            _ => false,
        },
        TyV::Func(a1, a2) => match b {
            TyV::Func(b1, b2) => agree(*a1, *b1) && agree(*a2, *b2),
            _ => false,
        },
    }
}

/// Two sequences of the same length that agree element by element.
pub open spec fn agree_seq(xs: Seq<TyV>, ys: Seq<TyV>) -> bool
    decreases sizes(xs) + sizes(ys), 1nat,
{
    if xs.len() == 0 || ys.len() == 0 {
        xs.len() == ys.len()
    } else {
        proof {
            lemma_size_pos(xs.last());
        }
        agree_seq(xs.drop_last(), ys.drop_last()) && agree(xs.last(), ys.last())
    }
}

/// Each field of `xs` agrees with the last field of its name in `ys`; a name
/// missing from `ys` is allowed only when not `strict`.
pub open spec fn agree_lookup(xs: FieldsV, ys: FieldsV, strict: bool) -> bool
    decreases field_sizes(xs) + field_sizes(ys), 1nat,
{
    if xs.len() == 0 {
        true
    } else {
        proof {
            lemma_size_pos(xs.last().1);
            lemma_last_val_size(ys, xs.last().0);
        }
        agree_lookup(xs.drop_last(), ys, strict) && entry_agrees(xs.last(), ys, strict)
            && (has_key(ys, xs.last().0) ==> agree(xs.last().1, last_val(ys, xs.last().0)))
    }
}

/// The name of `e` is found in `ys`, or need not be.
pub open spec fn entry_agrees(e: (Seq<char>, TyV), ys: FieldsV, strict: bool) -> bool {
    strict ==> has_key(ys, e.0)
}

pub proof fn lemma_last_val_size(ys: FieldsV, k: Seq<char>)
    ensures
        has_key(ys, k) ==> size(last_val(ys, k)) <= field_sizes(ys),
{
    if has_key(ys, k) {
        lemma_last_val_in(ys, k);
        let j = choose|j: int| 0 <= j < ys.len() && ys[j] == (k, last_val(ys, k));
        lemma_field_sizes_elem(ys, j);
    }
}

/// `agree_seq` element by element.
pub proof fn lemma_agree_seq_index(xs: Seq<TyV>, ys: Seq<TyV>)
    ensures
        agree_seq(xs, ys) <==> (xs.len() == ys.len() && forall|i: int|
            0 <= i < xs.len() ==> #[trigger] agree(xs[i], ys[i])),
    decreases xs.len(),
{
    if xs.len() > 0 && ys.len() > 0 {
        lemma_agree_seq_index(xs.drop_last(), ys.drop_last());
        if xs.len() == ys.len() && forall|i: int| 0 <= i < xs.len() ==> #[trigger] agree(xs[i], ys[i]) {
            assert forall|i: int| 0 <= i < xs.drop_last().len() implies #[trigger] agree(
                xs.drop_last()[i],
                ys.drop_last()[i],
            ) by {
                assert(agree(xs[i], ys[i]));
            }
            assert(agree(xs[xs.len() - 1], ys[ys.len() - 1]));
        }
        if agree_seq(xs, ys) {
            assert forall|i: int| 0 <= i < xs.len() implies #[trigger] agree(xs[i], ys[i]) by {
                if i < xs.len() - 1 {
                    assert(agree(xs.drop_last()[i], ys.drop_last()[i]));
                }
            }
        }
    }
}

/// `agree_lookup` field by field.
pub proof fn lemma_agree_lookup_index(xs: FieldsV, ys: FieldsV, strict: bool)
    ensures
        agree_lookup(xs, ys, strict) <==> forall|i: int| 0 <= i < xs.len() ==> lookup_ok(#[trigger] xs[i], ys, strict),
    decreases xs.len(),
{
    if xs.len() > 0 {
        lemma_agree_lookup_index(xs.drop_last(), ys, strict);
        if forall|i: int| 0 <= i < xs.len() ==> lookup_ok(#[trigger] xs[i], ys, strict) {
            assert forall|i: int| 0 <= i < xs.drop_last().len() implies lookup_ok(
                #[trigger] xs.drop_last()[i],
                ys,
                strict,
            ) by {
                assert(lookup_ok(xs[i], ys, strict));
            }
            assert(lookup_ok(xs[xs.len() - 1], ys, strict));
        }
        if agree_lookup(xs, ys, strict) {
            assert forall|i: int| 0 <= i < xs.len() implies lookup_ok(#[trigger] xs[i], ys, strict) by {
                if i < xs.len() - 1 {
                    assert(lookup_ok(xs.drop_last()[i], ys, strict));
                }
            }
        }
    }
}

/// What `agree_lookup` asks of one field.
pub open spec fn lookup_ok(e: (Seq<char>, TyV), ys: FieldsV, strict: bool) -> bool {
    &&& entry_agrees(e, ys, strict)
    &&& has_key(ys, e.0) ==> agree(e.1, last_val(ys, e.0))
}

/// Every type agrees with itself.
pub proof fn lemma_agree_refl(t: TyV)
    ensures
        agree(t, t),
    decreases size(t), 0nat,
{
    match t {
        TyV::Var(_) => {},
        TyV::Con(_) => {},
        TyV::List(a) => {
            lemma_agree_refl(*a);
        },
        TyV::Tuple(ts) => {
            lemma_agree_seq_refl(ts);
        },
        TyV::Record(fs) => {
            lemma_dedup_sub(fs);
            lemma_dedup_entries(fs);
            lemma_agree_lookup_refl_from(dedup_last(fs), fs, true);
        },
        TyV::RecordOpen(fs, r) => {
            lemma_dedup_sub(fs);
            lemma_dedup_entries(fs);
            lemma_agree_lookup_refl_from(dedup_last(fs), fs, false);
            lemma_agree_refl(*r);
        },
        TyV::App(h, args) => {
            lemma_agree_refl(*h);
            lemma_agree_seq_refl(args);
        },
        TyV::Func(a, b) => {
            lemma_agree_refl(*a);
            lemma_agree_refl(*b);
        },
    }
}

proof fn lemma_agree_seq_refl(ts: Seq<TyV>)
    ensures
        agree_seq(ts, ts),
    decreases sizes(ts), 1nat,
{
    if ts.len() > 0 {
        lemma_size_pos(ts.last());
        lemma_agree_seq_refl(ts.drop_last());
        lemma_agree_refl(ts.last());
    }
}

proof fn lemma_agree_lookup_refl_from(xs: FieldsV, fs: FieldsV, strict: bool)
    requires
        forall|i: int| 0 <= i < xs.len() ==> has_key(fs, (#[trigger] xs[i]).0) && xs[i].1 == last_val(
            fs,
            xs[i].0,
        ),
    ensures
        agree_lookup(xs, fs, strict),
    decreases field_sizes(xs), 1nat,
{
    if xs.len() > 0 {
        lemma_size_pos(xs.last().1);
        assert(xs.drop_last().len() == xs.len() - 1);
        assert forall|i: int| 0 <= i < xs.drop_last().len() implies has_key(fs, (#[trigger] xs.drop_last()[i]).0)
            && xs.drop_last()[i].1 == last_val(fs, xs.drop_last()[i].0) by {
            assert(xs.drop_last()[i] == xs[i]);
        }
        lemma_agree_lookup_refl_from(xs.drop_last(), fs, strict);
        assert(xs.last() == xs[xs.len() - 1]);
        lemma_agree_refl(xs.last().1);
    }
}


/// Applying a substitution to both sides keeps them in agreement.
pub proof fn lemma_agree_apply(s: SubstV, x: TyV, y: TyV)
    requires
        wf(s),
        agree(x, y),
    ensures
        agree(apply_v(s, x), apply_v(s, y)),
    decreases size(x) + size(y), 0nat,
{
    lemma_wf_resolvable(s, x);
    lemma_wf_resolvable(s, y);
    lemma_apply_unfold(s, x);
    lemma_apply_unfold(s, y);
    match x {
        TyV::Var(_) => {
            lemma_agree_refl(apply_v(s, x));
        },
        TyV::Con(_) => {},
        TyV::List(a) => {
            let b = y->List_0;
            lemma_agree_apply(s, *a, *b);
        },
        TyV::Tuple(xs) => {
            let ys = y->Tuple_0;
            lemma_agree_seq_apply(s, xs, ys);
        },
        TyV::Record(xs) => {
            match y {
                TyV::Record(ys) => {
                    lemma_dedup_sub(xs);
                    lemma_dedup_map(xs, apply_fn(s));
                    lemma_dedup_map(ys, apply_fn(s));
                    lemma_agree_lookup_apply(s, dedup_last(xs), ys, true);
                },
                TyV::RecordOpen(req, rest) => {
                    lemma_residual_sub(xs, req);
                    lemma_agree_lookup_apply(s, req, xs, true);
                    lemma_agree_apply(s, *rest, TyV::Record(residual(xs, req)));
                    lemma_wf_resolvable(s, TyV::Record(residual(xs, req)));
                    lemma_apply_unfold(s, TyV::Record(residual(xs, req)));
                    lemma_residual_map(xs, apply_fn(s), req, apply_fn(s));
                },
                _ => {},
            }
        },
        TyV::RecordOpen(req, rest) => {
            match y {
                TyV::Record(act) => {
                    lemma_residual_sub(act, req);
                    lemma_agree_lookup_apply(s, req, act, true);
                    lemma_agree_apply(s, *rest, TyV::Record(residual(act, req)));
                    lemma_wf_resolvable(s, TyV::Record(residual(act, req)));
                    lemma_apply_unfold(s, TyV::Record(residual(act, req)));
                    lemma_residual_map(act, apply_fn(s), req, apply_fn(s));
                },
                TyV::RecordOpen(ys, ry) => {
                    lemma_dedup_sub(req);
                    lemma_dedup_map(req, apply_fn(s));
                    lemma_agree_lookup_apply(s, dedup_last(req), ys, false);
                    lemma_agree_apply(s, *rest, *ry);
                },
                _ => {},
            }
        },
        TyV::App(ha, xs) => {
            let hb = y->App_0;
            let ys = y->App_1;
            lemma_agree_apply(s, *ha, *hb);
            lemma_agree_seq_apply(s, xs, ys);
        },
        TyV::Func(a1, a2) => {
            let b1 = y->Func_0;
            let b2 = y->Func_1;
            lemma_agree_apply(s, *a1, *b1);
            lemma_agree_apply(s, *a2, *b2);
        },
    }
}

proof fn lemma_agree_seq_apply(s: SubstV, xs: Seq<TyV>, ys: Seq<TyV>)
    requires
        wf(s),
        agree_seq(xs, ys),
    ensures
        agree_seq(apply_seq_v(s, xs), apply_seq_v(s, ys)),
    decreases sizes(xs) + sizes(ys), 1nat,
{
    lemma_agree_seq_index(xs, ys);
    lemma_agree_seq_index(apply_seq_v(s, xs), apply_seq_v(s, ys));
    assert forall|i: int| 0 <= i < xs.len() implies #[trigger] agree(apply_seq_v(s, xs)[i], apply_seq_v(s, ys)[i]) by {
        lemma_sizes_elem(xs, i);
        lemma_sizes_elem(ys, i);
        assert(agree(xs[i], ys[i]));
        lemma_agree_apply(s, xs[i], ys[i]);
    }
}

proof fn lemma_agree_lookup_apply(s: SubstV, xs: FieldsV, ys: FieldsV, strict: bool)
    requires
        wf(s),
        agree_lookup(xs, ys, strict),
    ensures
        agree_lookup(apply_fields_v(s, xs), apply_fields_v(s, ys), strict),
    decreases field_sizes(xs) + field_sizes(ys), 1nat,
{
    let xs2 = apply_fields_v(s, xs);
    let ys2 = apply_fields_v(s, ys);
    lemma_agree_lookup_index(xs, ys, strict);
    lemma_agree_lookup_index(xs2, ys2, strict);
    assert forall|i: int| 0 <= i < xs2.len() implies lookup_ok(#[trigger] xs2[i], ys2, strict) by {
        let k = xs[i].0;
        assert(lookup_ok(xs[i], ys, strict));
        assert(xs2[i] == (k, apply_v(s, xs[i].1)));
        lemma_has_key_map(ys, apply_fn(s), k);
        if has_key(ys, k) {
            lemma_field_sizes_elem(xs, i);
            lemma_last_val_size(ys, k);
            lemma_agree_apply(s, xs[i].1, last_val(ys, k));
        }
    }
}

/// Agreement under a substitution survives its extension.
pub proof fn lemma_agree_lift(s1: SubstV, s2: SubstV, x: TyV, y: TyV)
    requires
        wf(s1),
        wf(s2),
        s1.submap_of(s2),
        agree(apply_v(s1, x), apply_v(s1, y)),
    ensures
        agree(apply_v(s2, x), apply_v(s2, y)),
{
    lemma_agree_apply(s2, apply_v(s1, x), apply_v(s1, y));
    lemma_apply_compose(s1, s2, x);
    lemma_apply_compose(s1, s2, y);
}

} // verus!
