//! Type schemes, class constraints, and instantiation with fresh variables.
use vstd::prelude::*;
use std::collections::{HashMap, HashSet};
use crate::subst::{subst_view, SubstV};
use crate::ty::{
    field_sizes, ftv, ftv_into, ftv_ty, lemma_field_sizes_elem, lemma_sizes_elem, lemma_view_fields, lemma_view_seq,
    size, sizes, ty_clone, view_fields, view_seq, FieldsV, Ty, TyV,
};

verus! {

broadcast use vstd::std_specs::hash::group_hash_axioms;

/// A class constraint on a type.
#[derive(Debug, Clone, PartialEq, Eq)]
pub enum Constraint {
    Show(Ty),
    ShowRow(Ty),
    Eq(Ty),
    EqRow(Ty),
    /// User-defined typeclass constraint `C t`, by the class's name.
    Class { class: String, ty: Ty },
    /// Field absence constraint for row types.
    Lacks { label: String, row: Ty },
}

/// The model of a [`Constraint`].
pub enum ConstraintV {
    Show(TyV),
    ShowRow(TyV),
    Eq(TyV),
    EqRow(TyV),
    Class(Seq<char>, TyV),
    Lacks(Seq<char>, TyV),
}

impl View for Constraint {
    type V = ConstraintV;

    open spec fn view(&self) -> ConstraintV {
        match self {
            Constraint::Show(t) => ConstraintV::Show(t@),
            Constraint::ShowRow(t) => ConstraintV::ShowRow(t@),
            Constraint::Eq(t) => ConstraintV::Eq(t@),
            Constraint::EqRow(t) => ConstraintV::EqRow(t@),
            Constraint::Class { class, ty } => ConstraintV::Class(class@, ty@),
            Constraint::Lacks { label, row } => ConstraintV::Lacks(label@, row@),
        }
    }
}

/// The type a constraint is about.
pub open spec fn constraint_ty(c: ConstraintV) -> TyV {
    match c {
        ConstraintV::Show(t) => t,
        ConstraintV::ShowRow(t) => t,
        ConstraintV::Eq(t) => t,
        ConstraintV::EqRow(t) => t,
        ConstraintV::Class(_, t) => t,
        ConstraintV::Lacks(_, t) => t,
    }
}

/// A type scheme: `forall vars. constraints => ty`.
#[derive(Debug, Clone, PartialEq, Eq)]
pub struct Scheme {
    pub vars: Vec<u32>,
    pub constraints: Vec<Constraint>,
    pub ty: Ty,
}

impl Scheme {
    /// A scheme with no quantified variables and no constraints.
    pub fn mono(ty: Ty) -> (r: Self)
        ensures
            r.vars@ == Seq::<u32>::empty(),
            r.constraints@.len() == 0,
            r.ty == ty,
    {
        Scheme { vars: Vec::new(), constraints: Vec::new(), ty }
    }
}

/// The state of inference: the next fresh type variable.
#[derive(Debug)]
pub struct InferCtx {
    next_var: u32,
}

impl InferCtx {
    /// The number of the next fresh type variable.
    pub closed spec fn next(&self) -> nat {
        self.next_var as nat
    }

    /// A type variable not handed out before; the counter moves on.
    pub fn fresh(&mut self) -> (r: Ty)
        requires
            old(self).next() < u32::MAX,
        ensures
            r@ == TyV::Var(old(self).next() as u32),
            final(self).next() == old(self).next() + 1,
    {
        let v = self.next_var;
        self.next_var = self.next_var + 1;
        Ty::Var(v)
    }
}

impl Default for InferCtx {
    fn default() -> (r: Self)
        ensures
            r.next() == 0,
    {
        InferCtx { next_var: 0 }
    }
}

/// Replacing the variables that `m` maps, once, without following bindings.
pub open spec fn replace_v(t: TyV, m: SubstV) -> TyV
    decreases t, 1nat,
{
    match t {
        TyV::Var(v) => if m.contains_key(v) {
            m[v]
        } else {
            t
        },
        TyV::Con(_) => t,
        TyV::List(a) => TyV::List(Box::new(replace_v(*a, m))),
        TyV::Tuple(ts) => TyV::Tuple(replace_seq_v(ts, m)),
        TyV::Record(fs) => TyV::Record(replace_fields_v(fs, m)),
        TyV::RecordOpen(fs, r) => TyV::RecordOpen(replace_fields_v(fs, m), Box::new(replace_v(*r, m))),
        TyV::App(h, args) => TyV::App(Box::new(replace_v(*h, m)), replace_seq_v(args, m)),
        TyV::Func(a, b) => TyV::Func(Box::new(replace_v(*a, m)), Box::new(replace_v(*b, m))),
    }
}

pub open spec fn replace_seq_v(ts: Seq<TyV>, m: SubstV) -> Seq<TyV>
    decreases ts, 0nat,
{
    if ts.len() == 0 {
        Seq::empty()
    } else {
        replace_seq_v(ts.drop_last(), m).push(replace_v(ts.last(), m))
    }
}

pub open spec fn replace_fields_v(fs: FieldsV, m: SubstV) -> FieldsV
    decreases fs, 0nat,
{
    if fs.len() == 0 {
        Seq::empty()
    } else {
        replace_fields_v(fs.drop_last(), m).push((fs.last().0, replace_v(fs.last().1, m)))
    }
}

pub proof fn lemma_replace_seq_v(ts: Seq<TyV>, m: SubstV)
    ensures
        replace_seq_v(ts, m).len() == ts.len(),
        forall|i: int| 0 <= i < ts.len() ==> #[trigger] replace_seq_v(ts, m)[i] == replace_v(ts[i], m),
    decreases ts.len(),
{
    if ts.len() > 0 {
        lemma_replace_seq_v(ts.drop_last(), m);
        assert(replace_seq_v(ts, m) == replace_seq_v(ts.drop_last(), m).push(replace_v(ts.last(), m)));
    }
}

pub proof fn lemma_replace_fields_v(fs: FieldsV, m: SubstV)
    ensures
        replace_fields_v(fs, m).len() == fs.len(),
        forall|i: int| 0 <= i < fs.len() ==> #[trigger] replace_fields_v(fs, m)[i] == (fs[i].0, replace_v(fs[i].1, m)),
    decreases fs.len(),
{
    if fs.len() > 0 {
        lemma_replace_fields_v(fs.drop_last(), m);
        assert(replace_fields_v(fs, m) == replace_fields_v(fs.drop_last(), m).push(
            (fs.last().0, replace_v(fs.last().1, m)),
        ));
    }
}

/// Replacing in the type of a constraint.
pub open spec fn replace_constraint_v(c: ConstraintV, m: SubstV) -> ConstraintV {
    match c {
        ConstraintV::Show(t) => ConstraintV::Show(replace_v(t, m)),
        ConstraintV::ShowRow(t) => ConstraintV::ShowRow(replace_v(t, m)),
        ConstraintV::Eq(t) => ConstraintV::Eq(replace_v(t, m)),
        ConstraintV::EqRow(t) => ConstraintV::EqRow(replace_v(t, m)),
        ConstraintV::Class(n, t) => ConstraintV::Class(n, replace_v(t, m)),
        ConstraintV::Lacks(l, t) => ConstraintV::Lacks(l, replace_v(t, m)),
    }
}

/// Replaces the variables that `m` maps, once.
pub fn replace_vars(ty: &Ty, m: &HashMap<u32, Ty>) -> (r: Ty)
    ensures
        r@ == replace_v(ty@, subst_view(m@)),
    decreases size(ty@), 1nat,
{
    let ghost mv = subst_view(m@);
    match ty {
        Ty::Var(v) => match m.get(v) {
            Some(t) => {
                assert(mv[*v] == t@);
                ty_clone(t)
            },
            None => Ty::Var(*v),
        },
        Ty::Con(c) => Ty::Con(c.clone()),
        Ty::List(t) => Ty::List(Box::new(replace_vars(t, m))),
        Ty::Tuple(ts) => Ty::Tuple(replace_vec(ts, m, Ghost(size(ty@)))),
        Ty::Record(fs) => Ty::Record(replace_fields(fs, m, Ghost(size(ty@)))),
        Ty::RecordOpen(fs, r) => {
            let fs2 = replace_fields(fs, m, Ghost(size(ty@)));
            Ty::RecordOpen(fs2, Box::new(replace_vars(r, m)))
        },
        Ty::App { head, args } => {
            let h = replace_vars(head, m);
            Ty::App { head: Box::new(h), args: replace_vec(args, m, Ghost(size(ty@))) }
        },
        Ty::Func(a, b) => {
            let a2 = replace_vars(a, m);
            Ty::Func(Box::new(a2), Box::new(replace_vars(b, m)))
        },
    }
}

fn replace_vec(ts: &Vec<Ty>, m: &HashMap<u32, Ty>, Ghost(bound): Ghost<nat>) -> (r: Vec<Ty>)
    requires
        sizes(view_seq(ts@)) < bound,
    ensures
        view_seq(r@) == replace_seq_v(view_seq(ts@), subst_view(m@)),
    decreases bound, 0nat,
{
    let ghost vs = view_seq(ts@);
    let ghost mv = subst_view(m@);
    proof {
        lemma_view_seq(ts@);
        lemma_replace_seq_v(vs, mv);
    }
    let mut out: Vec<Ty> = Vec::new();
    let mut i: usize = 0;
    while i < ts.len()
        invariant
            i <= ts.len(),
            out.len() == i,
            vs == view_seq(ts@),
            vs.len() == ts.len(),
            forall|j: int| 0 <= j < ts.len() ==> #[trigger] vs[j] == ts@[j]@,
            sizes(vs) < bound,
            mv == subst_view(m@),
            forall|j: int| 0 <= j < i ==> (#[trigger] out@[j])@ == replace_v(vs[j], mv),
        decreases ts.len() - i,
    {
        proof {
            lemma_sizes_elem(vs, i as int);
        }
        let t = replace_vars(&ts[i], m);
        out.push(t);
        i += 1;
    }
    proof {
        lemma_view_seq(out@);
    }
    assert(view_seq(out@) =~= replace_seq_v(vs, mv));
    out
}

fn replace_fields(fs: &Vec<(String, Ty)>, m: &HashMap<u32, Ty>, Ghost(bound): Ghost<nat>) -> (r: Vec<(String, Ty)>)
    requires
        field_sizes(view_fields(fs@)) < bound,
    ensures
        view_fields(r@) == replace_fields_v(view_fields(fs@), subst_view(m@)),
    decreases bound, 0nat,
{
    let ghost vs = view_fields(fs@);
    let ghost mv = subst_view(m@);
    proof {
        lemma_view_fields(fs@);
        lemma_replace_fields_v(vs, mv);
    }
    let mut out: Vec<(String, Ty)> = Vec::new();
    let mut i: usize = 0;
    while i < fs.len()
        invariant
            i <= fs.len(),
            out.len() == i,
            vs == view_fields(fs@),
            vs.len() == fs.len(),
            forall|j: int| 0 <= j < fs.len() ==> #[trigger] vs[j] == (fs@[j].0@, fs@[j].1@),
            field_sizes(vs) < bound,
            mv == subst_view(m@),
            forall|j: int| 0 <= j < i ==> (#[trigger] out@[j]).0@ == vs[j].0 && out@[j].1@ == replace_v(vs[j].1, mv),
        decreases fs.len() - i,
    {
        proof {
            lemma_field_sizes_elem(vs, i as int);
        }
        assert(vs[i as int].1 == fs@[i as int].1@);
        let t = replace_vars(&fs[i].1, m);
        let n = fs[i].0.clone();
        out.push((n, t));
        i += 1;
    }
    proof {
        lemma_view_fields(out@);
    }
    assert(view_fields(out@) =~= replace_fields_v(vs, mv));
    out
}

/// Replaces in the type of a constraint.
fn replace_vars_constraint(c: &Constraint, m: &HashMap<u32, Ty>) -> (r: Constraint)
    ensures
        r@ == replace_constraint_v(c@, subst_view(m@)),
{
    match c {
        Constraint::Show(t) => Constraint::Show(replace_vars(t, m)),
        Constraint::ShowRow(t) => Constraint::ShowRow(replace_vars(t, m)),
        Constraint::Eq(t) => Constraint::Eq(replace_vars(t, m)),
        Constraint::EqRow(t) => Constraint::EqRow(replace_vars(t, m)),
        Constraint::Class { class, ty } => Constraint::Class { class: class.clone(), ty: replace_vars(ty, m) },
        Constraint::Lacks { label, row } => Constraint::Lacks { label: label.clone(), row: replace_vars(row, m) },
    }
}

/// The fresh variables that instantiation gives to `vars`, counting from
/// `n`: the `i`-th variable gets `n + i`, and a variable listed twice keeps
/// its last one.
pub open spec fn fresh_map(vars: Seq<u32>, n: nat) -> SubstV
    decreases vars.len(),
{
    if vars.len() == 0 {
        Map::empty()
    } else {
        fresh_map(vars.drop_last(), n).insert(vars.last(), TyV::Var((n + vars.len() - 1) as u32))
    }
}

/// Instantiates a scheme: its quantified variables become fresh variables
/// in its constraints and its type.
pub fn instantiate_qual(cx: &mut InferCtx, s: &Scheme) -> (r: (Vec<Constraint>, Ty))
    requires
        old(cx).next() + s.vars.len() <= u32::MAX,
    ensures
        final(cx).next() == old(cx).next() + s.vars.len(),
        r.1@ == replace_v(s.ty@, fresh_map(s.vars@, old(cx).next())),
        r.0.len() == s.constraints.len(),
        forall|i: int| 0 <= i < s.constraints.len() ==> (#[trigger] r.0@[i])@ == replace_constraint_v(
            s.constraints@[i]@,
            fresh_map(s.vars@, old(cx).next()),
        ),
{
    let ghost n0 = cx.next();
    let mut m: HashMap<u32, Ty> = HashMap::new();
    let mut i: usize = 0;
    assert(subst_view(m@) =~= fresh_map(s.vars@.take(0), n0));
    while i < s.vars.len()
        invariant
            i <= s.vars.len(),
            n0 + s.vars.len() <= u32::MAX,
            cx.next() == n0 + i,
            subst_view(m@) == fresh_map(s.vars@.take(i as int), n0),
        decreases s.vars.len() - i,
    {
        let t = cx.fresh();
        let ghost before = m@;
        m.insert(s.vars[i], t);
        proof {
            let vs = s.vars@.take(i + 1);
            assert(vs.drop_last() =~= s.vars@.take(i as int));
            assert(subst_view(m@) =~= subst_view(before).insert(s.vars@[i as int], t@));
        }
        i += 1;
    }
    assert(s.vars@.take(s.vars.len() as int) =~= s.vars@);
    let mut cs: Vec<Constraint> = Vec::new();
    let mut j: usize = 0;
    while j < s.constraints.len()
        invariant
            j <= s.constraints.len(),
            cs.len() == j,
            subst_view(m@) == fresh_map(s.vars@, n0),
            forall|k: int| 0 <= k < j ==> (#[trigger] cs@[k])@ == replace_constraint_v(
                s.constraints@[k]@,
                fresh_map(s.vars@, n0),
            ),
        decreases s.constraints.len() - j,
    {
        cs.push(replace_vars_constraint(&s.constraints[j], &m));
        j += 1;
    }
    let t = replace_vars(&s.ty, &m);
    (cs, t)
}

/// Instantiates a scheme and keeps its type.
pub fn instantiate(cx: &mut InferCtx, s: &Scheme) -> (r: Ty)
    requires
        old(cx).next() + s.vars.len() <= u32::MAX,
    ensures
        final(cx).next() == old(cx).next() + s.vars.len(),
        r@ == replace_v(s.ty@, fresh_map(s.vars@, old(cx).next())),
{
    let (_, ty) = instantiate_qual(cx, s);
    ty
}

/// The free variables of a scheme: those of its type and constraints, less
/// the quantified ones.
pub open spec fn ftv_scheme_v(vars: Seq<u32>, cs: Seq<ConstraintV>, ty: TyV) -> Set<u32> {
    ftv(ty).union(Set::new(|v: u32| exists|i: int| 0 <= i < cs.len() && ftv(constraint_ty(cs[i])).contains(v))).difference(
        vars.to_set(),
    )
}

/// The type a constraint is about.
pub(crate) fn constraint_ty_ref(c: &Constraint) -> (r: &Ty)
    ensures
        r@ == constraint_ty(c@),
{
    match c {
        Constraint::Show(t) => t,
        Constraint::ShowRow(t) => t,
        Constraint::Eq(t) => t,
        Constraint::EqRow(t) => t,
        Constraint::Class { ty, .. } => ty,
        Constraint::Lacks { row, .. } => row,
    }
}

/// The free variables of a scheme.
pub fn ftv_scheme(s: &Scheme) -> (r: HashSet<u32>)
    ensures
        r@ == ftv_scheme_v(s.vars@, s.constraints@.map_values(|c: Constraint| c@), s.ty@),
{
    let ghost cs = s.constraints@.map_values(|c: Constraint| c@);
    let mut acc = ftv_ty(&s.ty);
    let mut i: usize = 0;
    while i < s.constraints.len()
        invariant
            i <= s.constraints.len(),
            cs == s.constraints@.map_values(|c: Constraint| c@),
            acc@ == ftv(s.ty@).union(
                Set::new(|v: u32| exists|j: int| 0 <= j < i && ftv(constraint_ty(cs[j])).contains(v)),
            ),
        decreases s.constraints.len() - i,
    {
        let ghost before = acc@;
        ftv_into(constraint_ty_ref(&s.constraints[i]), &mut acc);
        proof {
            assert(cs[i as int] == s.constraints@[i as int]@);
            assert(acc@ =~= ftv(s.ty@).union(
                Set::new(|v: u32| exists|j: int| 0 <= j < i + 1 && ftv(constraint_ty(cs[j])).contains(v)),
            ));
        }
        i += 1;
    }
    let mut k: usize = 0;
    let ghost full = acc@;
    while k < s.vars.len()
        invariant
            k <= s.vars.len(),
            acc@ == full.difference(s.vars@.take(k as int).to_set()),
        decreases s.vars.len() - k,
    {
        acc.remove(&s.vars[k]);
        proof {
            assert(s.vars@.take(k + 1).to_set() =~= s.vars@.take(k as int).to_set().insert(s.vars@[k as int])) by {
                assert forall|x: u32| s.vars@.take(k + 1).to_set().contains(x) <==> s.vars@.take(
                    k as int,
                ).to_set().insert(s.vars@[k as int]).contains(x) by {
                    if s.vars@.take(k + 1).contains(x) {
                        let j = choose|j: int| 0 <= j < k + 1 && #[trigger] s.vars@.take(k + 1)[j] == x;
                        if j < k {
                            assert(s.vars@.take(k as int)[j] == x);
                        }
                    }
                    if s.vars@.take(k as int).contains(x) {
                        let j = choose|j: int| 0 <= j < k && #[trigger] s.vars@.take(k as int)[j] == x;
                        assert(s.vars@.take(k + 1)[j] == x);
                    }
                    if x == s.vars@[k as int] {
                        assert(s.vars@.take(k + 1)[k as int] == x);
                    }
                }
            }
            assert(acc@ =~= full.difference(s.vars@.take(k + 1).to_set()));
        }
        k += 1;
    }
    assert(s.vars@.take(s.vars.len() as int) =~= s.vars@);
    assert(acc@ =~= ftv_scheme_v(s.vars@, cs, s.ty@));
    acc
}

} // verus!
