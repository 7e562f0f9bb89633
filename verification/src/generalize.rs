//! Generalising a type over the variables its environment leaves free, and
//! applying substitutions to constraints and schemes.
use vstd::prelude::*;
use std::collections::{HashMap, HashSet};
use crate::scheme::{constraint_ty, constraint_ty_ref, ftv_scheme_v, Constraint, ConstraintV, Scheme};
use crate::subst::{apply, apply_v, resolvable, subst_view, Subst, SubstV};
use crate::ty::{ftv, ftv_into, ftv_ty, ty_clone, view_fields, Ty, TyV};
use crate::fields::{find_last, has_key};
use crate::display::render;

verus! {

broadcast use vstd::std_specs::hash::group_hash_axioms;

/// The models of a list of constraints.
pub open spec fn constraint_views(cs: Seq<Constraint>) -> Seq<ConstraintV> {
    cs.map_values(|c: Constraint| c@)
}

/// The free variables of the constraints `cs`.
pub open spec fn ftv_constraints(cs: Seq<ConstraintV>) -> Set<u32> {
    Set::new(|v: u32| exists|i: int| 0 <= i < cs.len() && #[trigger] ftv(constraint_ty(cs[i])).contains(v))
}

/// The free variables of a constraint: those of the type it is about.
pub fn ftv_constraint(c: &Constraint) -> (r: HashSet<u32>)
    ensures
        r@ == ftv(constraint_ty(c@)),
{
    ftv_ty(constraint_ty_ref(c))
}

/// Each number is smaller than the next.
pub open spec fn increasing(s: Seq<u32>) -> bool {
    forall|i: int, j: int| 0 <= i < j < s.len() ==> #[trigger] s[i] < #[trigger] s[j]
}

/// Inserts `x`, not yet present, at its place in an increasing list.
fn insert_increasing(v: &mut Vec<u32>, x: u32)
    requires
        increasing(old(v)@),
        !old(v)@.contains(x),
    ensures
        increasing(final(v)@),
        final(v)@.to_set() == old(v)@.to_set().insert(x),
{
    let ghost s = v@;
    let mut p: usize = 0;
    while p < v.len() && v[p] < x
        invariant
            p <= v.len(),
            v@ == s,
            increasing(s),
            forall|i: int| 0 <= i < p ==> #[trigger] s[i] < x,
        decreases v.len() - p,
    {
        p += 1;
    }
    proof {
        if p < v.len() {
            assert(s[p as int] != x);
        }
    }
    v.insert(p, x);
    let ghost t = v@;
    proof {
        assert(t =~= s.take(p as int).push(x) + s.skip(p as int));
        assert forall|i: int, j: int| 0 <= i < j < t.len() implies #[trigger] t[i] < #[trigger] t[j] by {
            if j < p {
                assert(t[i] == s[i] && t[j] == s[j]);
            } else if j == p {
                assert(t[i] == s[i] && t[j] == x);
            } else if i == p {
                assert(t[j] == s[j - 1]);
                assert(s[p as int] >= x);
                if j - 1 > p {
                    assert(s[p as int] < s[j - 1]);
                }
            } else if i < p {
                assert(t[i] == s[i] && t[j] == s[j - 1]);
                assert(s[p as int] >= x);
                if j - 1 > p {
                    assert(s[p as int] < s[j - 1]);
                }
            } else {
                assert(t[i] == s[i - 1] && t[j] == s[j - 1]);
            }
        }
        assert forall|y: u32| t.to_set().contains(y) <==> s.to_set().insert(x).contains(y) by {
            if t.to_set().contains(y) {
                let k = choose|k: int| 0 <= k < t.len() && t[k] == y;
                if k < p {
                    assert(s[k] == y);
                } else if k > p {
                    assert(s[k - 1] == y);
                }
            }
            if s.to_set().contains(y) {
                let k = choose|k: int| 0 <= k < s.len() && s[k] == y;
                if k < p {
                    assert(t[k] == y);
                } else {
                    assert(t[k + 1] == y);
                }
            }
            if y == x {
                assert(t[p as int] == x);
            }
        }
        assert(t.to_set() =~= s.to_set().insert(x));
    }
}

/// Generalises `ty` with its `constraints` over the variables free in them
/// and not free in the environment, listed in increasing order.
pub fn generalize_qual_with_env_ftv(env_ftv: &HashSet<u32>, constraints: Vec<Constraint>, ty: Ty) -> (r: Scheme)
    ensures
        r.ty == ty,
        r.constraints == constraints,
        increasing(r.vars@),
        r.vars@.to_set() == ftv(ty@).union(ftv_constraints(constraint_views(constraints@))).difference(env_ftv@),
{
    let ghost cs = constraint_views(constraints@);
    let mut acc = ftv_ty(&ty);
    let mut i: usize = 0;
    while i < constraints.len()
        invariant
            i <= constraints.len(),
            cs == constraint_views(constraints@),
            acc@ == ftv(ty@).union(Set::new(|v: u32| exists|j: int| 0 <= j < i && #[trigger] ftv(constraint_ty(cs[j])).contains(v))),
        decreases constraints.len() - i,
    {
        ftv_into(constraint_ty_ref(&constraints[i]), &mut acc);
        proof {
            assert(cs[i as int] == constraints@[i as int]@);
            assert(acc@ =~= ftv(ty@).union(
                Set::new(|v: u32| exists|j: int| 0 <= j < i + 1 && #[trigger] ftv(constraint_ty(cs[j])).contains(v)),
            ));
        }
        i += 1;
    }
    let ghost all = acc@;
    assert(all =~= ftv(ty@).union(ftv_constraints(cs)));
    let ghost want = all.difference(env_ftv@);
    let mut vars: Vec<u32> = Vec::new();
    proof {
        assert(vstd::std_specs::iter::IteratorSpec::remaining(&vstd::std_specs::hash::spec_hash_keys_iter(&acc)).unref().to_set() == all);
    }
    for v in it: acc.iter()
        invariant
            all == acc@,
            want == all.difference(env_ftv@),
            it.seq().unref().to_set() == all,
            it.seq().no_duplicates(),
            increasing(vars@),
            forall|x: u32| #[trigger] vars@.contains(x) ==> want.contains(x) && exists|j: int| 0 <= j < it.index() && *it.seq()[j] == x,
            forall|x: u32| #[trigger] want.contains(x) ==> vars@.contains(x) || exists|j: int|
                it.index() <= j < it.seq().len() && *#[trigger] it.seq()[j] == x,
    {
        let ghost k = it.index();
        let ghost before = vars@;
        proof {
            assert(it.seq().unref()[k] == *v);
            assert(it.seq().unref().to_set().contains(*v));
        }
        if !env_ftv.contains(v) {
            proof {
                if before.contains(*v) {
                    let j = choose|j: int| 0 <= j < k && *it.seq()[j] == *v;
                    assert(it.seq()[j] == it.seq()[k]);
                }
            }
            insert_increasing(&mut vars, *v);
        }
        proof {
            assert forall|x: u32| #[trigger] vars@.contains(x) implies want.contains(x) && exists|j: int| 0 <= j < k + 1 && *it.seq()[j] == x by {
                assert(vars@.to_set().contains(x));
                if before.contains(x) {
                    assert(before.to_set().contains(x));
                    let j = choose|j: int| 0 <= j < k && *it.seq()[j] == x;
                } else {
                    assert(x == *v);
                }
            }
            assert forall|x: u32| #[trigger] want.contains(x) implies vars@.contains(x) || exists|j: int|
                k + 1 <= j < it.seq().len() && *#[trigger] it.seq()[j] == x by {
                if !before.contains(x) {
                    let j = choose|j: int| k <= j < it.seq().len() && *#[trigger] it.seq()[j] == x;
                    if j == k {
                        assert(x == *v);
                        assert(vars@.to_set().contains(x));
                    }
                } else {
                    assert(before.to_set().contains(x));
                    assert(vars@.to_set().contains(x));
                }
            }
        }
    }
    assert(vars@.to_set() =~= want);
    Scheme { vars, constraints, ty }
}

/// Generalising over the variables not free in the environment leaves no
/// free variable in the scheme beyond those of the environment.
pub proof fn law_generalize_closed(env: Set<u32>, vars: Seq<u32>, cs: Seq<ConstraintV>, t: TyV)
    requires
        vars.to_set() == ftv(t).union(ftv_constraints(cs)).difference(env),
    ensures
        ftv_scheme_v(vars, cs, t).subset_of(env),
{
    assert forall|v: u32| #[trigger] ftv_scheme_v(vars, cs, t).contains(v) implies env.contains(v) by {
        if !env.contains(v) {
            if ftv(t).contains(v) {
                assert(ftv(t).union(ftv_constraints(cs)).difference(env).contains(v));
            } else {
                let i = choose|i: int| 0 <= i < cs.len() && ftv(constraint_ty(cs[i])).contains(v);
                assert(ftv_constraints(cs).contains(v));
                assert(ftv(t).union(ftv_constraints(cs)).difference(env).contains(v));
            }
            assert(vars.to_set().contains(v));
        }
    }
}

/// The constraint `c` about the type `t` instead.
pub open spec fn with_constraint_ty(c: ConstraintV, t: TyV) -> ConstraintV {
    match c {
        ConstraintV::Show(_) => ConstraintV::Show(t),
        ConstraintV::ShowRow(_) => ConstraintV::ShowRow(t),
        ConstraintV::Eq(_) => ConstraintV::Eq(t),
        ConstraintV::EqRow(_) => ConstraintV::EqRow(t),
        ConstraintV::Class(n, _) => ConstraintV::Class(n, t),
        ConstraintV::Lacks(l, _) => ConstraintV::Lacks(l, t),
    }
}

/// Applying `s` to the type of a constraint.
pub open spec fn apply_constraint_v(s: SubstV, c: ConstraintV) -> ConstraintV {
    with_constraint_ty(c, apply_v(s, constraint_ty(c)))
}

/// Applies `subst` to the type of a constraint.
pub fn apply_constraint(subst: &Subst, c: &Constraint) -> (r: Constraint)
    requires
        resolvable(subst_view(subst@), constraint_ty(c@)),
    ensures
        r@ == apply_constraint_v(subst_view(subst@), c@),
{
    match c {
        Constraint::Show(t) => Constraint::Show(apply(subst, ty_clone(t))),
        Constraint::ShowRow(t) => Constraint::ShowRow(apply(subst, ty_clone(t))),
        Constraint::Eq(t) => Constraint::Eq(apply(subst, ty_clone(t))),
        Constraint::EqRow(t) => Constraint::EqRow(apply(subst, ty_clone(t))),
        Constraint::Class { class, ty } => Constraint::Class { class: class.clone(), ty: apply(subst, ty_clone(ty)) },
        Constraint::Lacks { label, row } => Constraint::Lacks { label: label.clone(), row: apply(subst, ty_clone(row)) },
    }
}

/// Applies `subst` to each constraint.
pub fn apply_constraints(subst: &Subst, cs: Vec<Constraint>) -> (r: Vec<Constraint>)
    requires
        forall|i: int| 0 <= i < cs.len() ==> resolvable(subst_view(subst@), constraint_ty(#[trigger] cs@[i]@)),
    ensures
        constraint_views(r@) == constraint_views(cs@).map_values(|c: ConstraintV| apply_constraint_v(subst_view(subst@), c)),
{
    let mut out: Vec<Constraint> = Vec::new();
    let mut i: usize = 0;
    while i < cs.len()
        invariant
            i <= cs.len(),
            forall|j: int| 0 <= j < cs.len() ==> resolvable(subst_view(subst@), constraint_ty(#[trigger] cs@[j]@)),
            out.len() == i,
            forall|j: int| 0 <= j < i ==> #[trigger] out@[j]@ == apply_constraint_v(subst_view(subst@), cs@[j]@),
        decreases cs.len() - i,
    {
        out.push(apply_constraint(subst, &cs[i]));
        i += 1;
    }
    assert(constraint_views(out@) =~= constraint_views(cs@).map_values(|c: ConstraintV| apply_constraint_v(subst_view(subst@), c)));
    out
}

/// The bindings of `s` for variables other than `vars`.
pub open spec fn without_vars(s: SubstV, vars: Seq<u32>) -> SubstV {
    s.remove_keys(vars.to_set())
}

/// Applying `s` under the quantifier of a scheme: its quantified variables
/// are left alone.
pub open spec fn scheme_subst(s: SubstV, vars: Seq<u32>) -> SubstV {
    if vars.len() == 0 {
        s
    } else {
        without_vars(s, vars)
    }
}

/// Applies `subst` to a scheme, leaving its quantified variables alone.
pub fn apply_scheme(subst: &Subst, s: &Scheme) -> (r: Scheme)
    requires
        resolvable(scheme_subst(subst_view(subst@), s.vars@), s.ty@),
        forall|i: int| 0 <= i < s.constraints.len() ==> resolvable(
            scheme_subst(subst_view(subst@), s.vars@),
            constraint_ty(#[trigger] s.constraints@[i]@),
        ),
    ensures
        r.vars@ == s.vars@,
        r.ty@ == apply_v(scheme_subst(subst_view(subst@), s.vars@), s.ty@),
        constraint_views(r.constraints@) == constraint_views(s.constraints@).map_values(
            |c: ConstraintV| apply_constraint_v(scheme_subst(subst_view(subst@), s.vars@), c),
        ),
{
    let ghost sv = subst_view(subst@);
    let mut sub: Subst = HashMap::new();
    for (k, t) in it: subst.iter()
        invariant
            sv == subst_view(subst@),
            forall|i: int| 0 <= i < it.seq().len() ==> subst@.contains_key(*(#[trigger] it.seq()[i]).0) && subst@[*it.seq()[i].0] == *it.seq()[i].1,
            forall|x: u32| #[trigger] sub@.contains_key(x) ==> subst@.contains_key(x) && !s.vars@.contains(x) && sub@[x]@ == subst@[x]@,
            forall|x: u32| #[trigger] subst@.contains_key(x) && !s.vars@.contains(x) ==> sub@.contains_key(x) || exists|i: int|
                it.index() <= i < it.seq().len() && *it.seq()[i].0 == x,
    {
        let mut j: usize = 0;
        let mut quantified = false;
        while j < s.vars.len() && !quantified
            invariant
                j <= s.vars.len(),
                quantified ==> s.vars@.contains(*k),
                !quantified ==> forall|m: int| 0 <= m < j ==> s.vars@[m] != *k,
            decreases s.vars.len() - j, if quantified { 0int } else { 1int },
        {
            if s.vars[j] == *k {
                quantified = true;
            } else {
                j += 1;
            }
        }
        if !quantified {
            sub.insert(*k, ty_clone(t));
        }
    }
    let ghost want = scheme_subst(sv, s.vars@);
    proof {
        assert forall|x: u32| #[trigger] subst_view(sub@).contains_key(x) <==> without_vars(sv, s.vars@).contains_key(x) by {}
        assert(subst_view(sub@) =~= without_vars(sv, s.vars@));
    }
    if s.vars.len() == 0 {
        let ty = apply(subst, ty_clone(&s.ty));
        let mut cs: Vec<Constraint> = Vec::new();
        let mut i: usize = 0;
        while i < s.constraints.len()
            invariant
                i <= s.constraints.len(),
                want == sv,
                sv == subst_view(subst@),
                forall|j: int| 0 <= j < s.constraints.len() ==> resolvable(want, constraint_ty(#[trigger] s.constraints@[j]@)),
                cs.len() == i,
                forall|j: int| 0 <= j < i ==> #[trigger] cs@[j]@ == apply_constraint_v(want, s.constraints@[j]@),
            decreases s.constraints.len() - i,
        {
            cs.push(apply_constraint(subst, &s.constraints[i]));
            i += 1;
        }
        assert(constraint_views(cs@) =~= constraint_views(s.constraints@).map_values(|c: ConstraintV| apply_constraint_v(want, c)));
        return Scheme { vars: Vec::new(), constraints: cs, ty };
    }
    let ty = apply(&sub, ty_clone(&s.ty));
    let mut cs: Vec<Constraint> = Vec::new();
    let mut i: usize = 0;
    while i < s.constraints.len()
        invariant
            i <= s.constraints.len(),
            want == subst_view(sub@),
            forall|j: int| 0 <= j < s.constraints.len() ==> resolvable(want, constraint_ty(#[trigger] s.constraints@[j]@)),
            cs.len() == i,
            forall|j: int| 0 <= j < i ==> #[trigger] cs@[j]@ == apply_constraint_v(want, s.constraints@[j]@),
        decreases s.constraints.len() - i,
    {
        cs.push(apply_constraint(&sub, &s.constraints[i]));
        i += 1;
    }
    assert(constraint_views(cs@) =~= constraint_views(s.constraints@).map_values(|c: ConstraintV| apply_constraint_v(want, c)));
    let mut vars: Vec<u32> = Vec::new();
    let mut k: usize = 0;
    while k < s.vars.len()
        invariant
            k <= s.vars.len(),
            vars@ == s.vars@.take(k as int),
        decreases s.vars.len() - k,
    {
        vars.push(s.vars[k]);
        k += 1;
        assert(vars@ =~= s.vars@.take(k as int));
    }
    assert(vars@ =~= s.vars@);
    Scheme { vars, constraints: cs, ty }
}


/// What a row needs so that it lacks the field `label`: nothing from a
/// closed record without it, the constraint itself from a row variable, and
/// the same of the rest of an open record without it. `Err` carries the row
/// that cannot lack it.
pub open spec fn lacks_v(label: Seq<char>, row: TyV) -> Result<Seq<ConstraintV>, TyV>
    decreases row,
{
    match row {
        TyV::Var(_) => Ok(seq![ConstraintV::Lacks(label, row)]),
        TyV::Record(fs) => if has_key(fs, label) {
            Err(row)
        } else {
            Ok(Seq::empty())
        },
        TyV::RecordOpen(fs, rest) => if has_key(fs, label) {
            Err(row)
        } else {
            lacks_v(label, *rest)
        },
        _ => Err(row),
    }
}

/// The error for a row `row` that cannot lack `label`.
pub open spec fn lacks_message(label: Seq<char>, row: TyV) -> Seq<char> {
    "cannot satisfy constraint: Lacks "@ + label + " "@ + render(row, 0, Map::empty())
}

fn lacks_error(label: &str, row: &Ty) -> (r: String)
    ensures
        r@ == lacks_message(label@, row@),
{
    let mut m = String::from_str("cannot satisfy constraint: Lacks ");
    m.append(label);
    m.append(" ");
    let d = row.display();
    m.append(d.as_str());
    m
}

/// Reduces the constraint that `row` lacks the field `label`.
pub fn entails_lacks(label: &str, row: &Ty) -> (r: Result<Vec<Constraint>, String>)
    ensures
        match r {
            Ok(cs) => lacks_v(label@, row@) == Ok::<Seq<ConstraintV>, TyV>(constraint_views(cs@)),
            Err(m) => lacks_v(label@, row@) matches Err(bad) && m@ == lacks_message(label@, bad),
        },
    decreases row,
{
    match row {
        Ty::Var(_) => {
            let c = Constraint::Lacks { label: String::from_str(label), row: ty_clone(row) };
            let out = vec![c];
            assert(constraint_views(out@) =~= seq![ConstraintV::Lacks(label@, row@)]);
            Ok(out)
        },
        Ty::Record(fields) => {
            let key = String::from_str(label);
            if find_last(fields, &key).is_some() {
                Err(lacks_error(label, row))
            } else {
                let out: Vec<Constraint> = Vec::new();
                assert(constraint_views(out@) =~= Seq::<ConstraintV>::empty());
                Ok(out)
            }
        },
        Ty::RecordOpen(fields, rest) => {
            let key = String::from_str(label);
            if find_last(fields, &key).is_some() {
                Err(lacks_error(label, row))
            } else {
                entails_lacks(label, rest)
            }
        },
        _ => Err(lacks_error(label, row)),
    }
}

} // verus!
