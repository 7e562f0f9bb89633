//! Monotypes of the surface language and their mathematical model.
use vstd::prelude::*;
use std::collections::HashSet;

verus! {

broadcast use vstd::std_specs::hash::group_hash_axioms;

/// A monomorphic type.
#[derive(Debug)]
pub enum Ty {
    Var(u32),
    Con(String),
    List(Box<Ty>),
    Tuple(Vec<Ty>),
    Record(Vec<(String, Ty)>),
    /// Open record (required fields + residual row).
    RecordOpen(Vec<(String, Ty)>, Box<Ty>),
    App { head: Box<Ty>, args: Vec<Ty> },
    Func(Box<Ty>, Box<Ty>),
}

/// The mathematical model of a [`Ty`]: names are character sequences and
/// children are sequences.
pub enum TyV {
    Var(u32),
    Con(Seq<char>),
    List(Box<TyV>),
    Tuple(Seq<TyV>),
    Record(Seq<(Seq<char>, TyV)>),
    RecordOpen(Seq<(Seq<char>, TyV)>, Box<TyV>),
    App(Box<TyV>, Seq<TyV>),
    Func(Box<TyV>, Box<TyV>),
}

/// Record fields in the model.
pub type FieldsV = Seq<(Seq<char>, TyV)>;

impl View for Ty {
    type V = TyV;

    open spec fn view(&self) -> TyV
        decreases self, 1nat,
    {
        match self {
            Ty::Var(v) => TyV::Var(*v),
            Ty::Con(c) => TyV::Con(c@),
            Ty::List(a) => TyV::List(Box::new((**a).view())),
            Ty::Tuple(ts) => TyV::Tuple(view_seq(ts@)),
            Ty::Record(fs) => TyV::Record(view_fields(fs@)),
            Ty::RecordOpen(fs, r) => TyV::RecordOpen(view_fields(fs@), Box::new((**r).view())),
            Ty::App { head, args } => TyV::App(Box::new((**head).view()), view_seq(args@)),
            Ty::Func(a, b) => TyV::Func(Box::new((**a).view()), Box::new((**b).view())),
        }
    }
}

pub open spec fn view_seq(ts: Seq<Ty>) -> Seq<TyV>
    decreases ts, 0nat,
{
    if ts.len() == 0 {
        Seq::empty()
    } else {
        view_seq(ts.drop_last()).push(ts.last().view())
    }
}

pub open spec fn view_fields(fs: Seq<(String, Ty)>) -> FieldsV
    decreases fs, 0nat,
{
    if fs.len() == 0 {
        Seq::empty()
    } else {
        let last = fs.last();
        view_fields(fs.drop_last()).push((last.0@, last.1.view()))
    }
}

/// Number of nodes of a type.
pub open spec fn size(t: TyV) -> nat
    decreases t,
{
    match t {
        TyV::Var(_) => 1,
        TyV::Con(_) => 1,
        TyV::List(a) => 1 + size(*a),
        TyV::Tuple(ts) => 1 + sizes(ts),
        TyV::Record(fs) => 1 + field_sizes(fs),
        TyV::RecordOpen(fs, r) => 1 + field_sizes(fs) + size(*r),
        TyV::App(h, args) => 1 + size(*h) + sizes(args),
        TyV::Func(a, b) => 1 + size(*a) + size(*b),
    }
}

pub open spec fn sizes(ts: Seq<TyV>) -> nat
    decreases ts,
{
    if ts.len() == 0 {
        0
    } else {
        sizes(ts.drop_last()) + size(ts.last())
    }
}

pub open spec fn field_sizes(fs: FieldsV) -> nat
    decreases fs,
{
    if fs.len() == 0 {
        0
    } else {
        field_sizes(fs.drop_last()) + size(fs.last().1)
    }
}

/// Free type variables.
pub open spec fn ftv(t: TyV) -> Set<u32>
    decreases t,
{
    match t {
        TyV::Var(v) => set![v],
        TyV::Con(_) => Set::empty(),
        TyV::List(a) => ftv(*a),
        TyV::Tuple(ts) => Set::new(|v: u32| exists|i: int| 0 <= i < ts.len() && ftv(ts[i]).contains(v)),
        TyV::Record(fs) => Set::new(|v: u32| exists|i: int| 0 <= i < fs.len() && ftv(fs[i].1).contains(v)),
        TyV::RecordOpen(fs, r) => Set::new(|v: u32|
            (exists|i: int| 0 <= i < fs.len() && ftv(fs[i].1).contains(v)) || ftv(*r).contains(v)),
        TyV::App(h, args) => Set::new(|v: u32|
            ftv(*h).contains(v) || exists|i: int| 0 <= i < args.len() && ftv(args[i]).contains(v)),
        TyV::Func(a, b) => ftv(*a).union(ftv(*b)),
    }
}

pub proof fn lemma_view_seq(ts: Seq<Ty>)
    ensures
        view_seq(ts).len() == ts.len(),
        forall|i: int| 0 <= i < ts.len() ==> #[trigger] view_seq(ts)[i] == ts[i]@,
    decreases ts.len(),
{
    if ts.len() > 0 {
        lemma_view_seq(ts.drop_last());
        assert(view_seq(ts) == view_seq(ts.drop_last()).push(ts.last().view()));
    } else {
        assert(view_seq(ts) == Seq::<TyV>::empty());
    }
}

pub proof fn lemma_view_fields(fs: Seq<(String, Ty)>)
    ensures
        view_fields(fs).len() == fs.len(),
        forall|i: int| 0 <= i < fs.len() ==> #[trigger] view_fields(fs)[i] == (fs[i].0@, fs[i].1@),
    decreases fs.len(),
{
    if fs.len() > 0 {
        lemma_view_fields(fs.drop_last());
        assert(view_fields(fs) == view_fields(fs.drop_last()).push((fs.last().0@, fs.last().1.view())));
    } else {
        assert(view_fields(fs) == FieldsV::empty());
    }
}

pub proof fn lemma_sizes_elem(ts: Seq<TyV>, i: int)
    requires
        0 <= i < ts.len(),
    ensures
        size(ts[i]) <= sizes(ts),
    decreases ts.len(),
{
    if i < ts.len() - 1 {
        lemma_sizes_elem(ts.drop_last(), i);
    }
}

pub proof fn lemma_field_sizes_elem(fs: FieldsV, i: int)
    requires
        0 <= i < fs.len(),
    ensures
        size(fs[i].1) <= field_sizes(fs),
    decreases fs.len(),
{
    if i < fs.len() - 1 {
        lemma_field_sizes_elem(fs.drop_last(), i);
    }
}

pub proof fn lemma_size_pos(t: TyV)
    ensures
        size(t) >= 1,
{
}

/// A copy of a type with the same model.
pub fn ty_clone(t: &Ty) -> (r: Ty)
    ensures
        r@ == t@,
    decreases size(t@),
{
    match t {
        Ty::Var(v) => Ty::Var(*v),
        Ty::Con(c) => Ty::Con(c.clone()),
        Ty::List(a) => Ty::List(Box::new(ty_clone(a))),
        Ty::Tuple(ts) => Ty::Tuple(clone_tys(ts, Ghost(size(t@)))),
        Ty::Record(fs) => Ty::Record(clone_fields(fs, Ghost(size(t@)))),
        Ty::RecordOpen(fs, r) => {
            let fs2 = clone_fields(fs, Ghost(size(t@)));
            Ty::RecordOpen(fs2, Box::new(ty_clone(r)))
        },
        Ty::App { head, args } => {
            let h = ty_clone(head);
            Ty::App { head: Box::new(h), args: clone_tys(args, Ghost(size(t@))) }
        },
        Ty::Func(a, b) => {
            let a2 = ty_clone(a);
            Ty::Func(Box::new(a2), Box::new(ty_clone(b)))
        },
    }
}

fn clone_tys(ts: &Vec<Ty>, Ghost(bound): Ghost<nat>) -> (r: Vec<Ty>)
    requires
        sizes(view_seq(ts@)) < bound,
    ensures
        r.len() == ts.len(),
        view_seq(r@) == view_seq(ts@),
    decreases bound, 0nat,
{
    let ghost vs = view_seq(ts@);
    let mut out: Vec<Ty> = Vec::new();
    let mut i: usize = 0;
    while i < ts.len()
        invariant
            i <= ts.len(),
            out.len() == i,
            vs == view_seq(ts@),
            sizes(vs) < bound,
            forall|j: int| 0 <= j < i ==> out@[j]@ == ts@[j]@,
        decreases ts.len() - i,
    {
        proof {
            lemma_view_seq(ts@);
            lemma_sizes_elem(vs, i as int);
        }
        let c = ty_clone(&ts[i]);
        out.push(c);
        i += 1;
    }
    proof {
        lemma_view_seq(ts@);
        lemma_view_seq(out@);
    }
    assert(view_seq(out@) =~= view_seq(ts@));
    out
}

fn clone_fields(fs: &Vec<(String, Ty)>, Ghost(bound): Ghost<nat>) -> (r: Vec<(String, Ty)>)
    requires
        field_sizes(view_fields(fs@)) < bound,
    ensures
        view_fields(r@) == view_fields(fs@),
    decreases bound, 0nat,
{
    let mut out: Vec<(String, Ty)> = Vec::new();
    let mut i: usize = 0;
    while i < fs.len()
        invariant
            i <= fs.len(),
            out.len() == i,
            field_sizes(view_fields(fs@)) < bound,
            forall|j: int| 0 <= j < i ==> out@[j].0@ == fs@[j].0@ && out@[j].1@ == fs@[j].1@,
        decreases fs.len() - i,
    {
        proof {
            lemma_view_fields(fs@);
            lemma_field_sizes_elem(view_fields(fs@), i as int);
        }
        let c = ty_clone(&fs[i].1);
        let n = fs[i].0.clone();
        out.push((n, c));
        i += 1;
    }
    proof {
        lemma_view_fields(fs@);
        lemma_view_fields(out@);
    }
    assert forall|j: int| 0 <= j < fs.len() implies view_fields(out@)[j] == view_fields(fs@)[j] by {
        assert(out@[j].0@ == fs@[j].0@ && out@[j].1@ == fs@[j].1@);
    }
    assert(view_fields(out@) =~= view_fields(fs@));
    out
}

/// A copy of a list of fields with the same model.
pub(crate) fn clone_field_list(fs: &Vec<(String, Ty)>) -> (r: Vec<(String, Ty)>)
    ensures
        view_fields(r@) == view_fields(fs@),
        r.len() == fs.len(),
{
    let r = clone_fields(fs, Ghost(field_sizes(view_fields(fs@)) + 1));
    proof {
        lemma_view_fields(fs@);
        lemma_view_fields(r@);
    }
    r
}

impl Clone for Ty {
    fn clone(&self) -> (r: Ty)
        ensures
            r@ == self@,
    {
        ty_clone(self)
    }
}


pub open spec fn ftv_seq(ts: Seq<TyV>) -> Set<u32> {
    Set::new(|v: u32| exists|i: int| 0 <= i < ts.len() && ftv(ts[i]).contains(v))
}

pub open spec fn ftv_fields(fs: FieldsV) -> Set<u32> {
    Set::new(|v: u32| exists|i: int| 0 <= i < fs.len() && ftv(fs[i].1).contains(v))
}

/// A type has finitely many free variables.
pub proof fn lemma_ftv_finite(t: TyV)
    ensures
        ftv(t).finite(),
    decreases t, 1nat,
{
    match t {
        TyV::Var(v) => {},
        TyV::Con(_) => {},
        TyV::List(a) => {
            lemma_ftv_finite(*a);
        },
        TyV::Tuple(ts) => {
            lemma_ftv_seq_finite(ts);
            assert(ftv(t) =~= ftv_seq(ts));
        },
        TyV::Record(fs) => {
            lemma_ftv_fields_finite(fs);
            assert(ftv(t) =~= ftv_fields(fs));
        },
        TyV::RecordOpen(fs, r) => {
            lemma_ftv_fields_finite(fs);
            lemma_ftv_finite(*r);
            assert(ftv(t) =~= ftv_fields(fs).union(ftv(*r)));
        },
        TyV::App(h, args) => {
            lemma_ftv_seq_finite(args);
            lemma_ftv_finite(*h);
            assert(ftv(t) =~= ftv(*h).union(ftv_seq(args)));
        },
        TyV::Func(a, b) => {
            lemma_ftv_finite(*a);
            lemma_ftv_finite(*b);
        },
    }
}

pub proof fn lemma_ftv_seq_finite(ts: Seq<TyV>)
    ensures
        ftv_seq(ts).finite(),
    decreases ts, 0nat,
{
    if ts.len() == 0 {
        assert(ftv_seq(ts) =~= Set::empty());
    } else {
        lemma_ftv_seq_finite(ts.drop_last());
        lemma_ftv_finite(ts.last());
        assert forall|v: u32| ftv_seq(ts).contains(v) <==> ftv_seq(ts.drop_last()).union(ftv(ts.last())).contains(v) by {
            if ftv_seq(ts).contains(v) {
                let i = choose|i: int| 0 <= i < ts.len() && ftv(ts[i]).contains(v);
                if i < ts.len() - 1 {
                    assert(ts.drop_last()[i] == ts[i]);
                }
            }
            if ftv_seq(ts.drop_last()).contains(v) {
                let i = choose|i: int| 0 <= i < ts.len() - 1 && ftv(ts.drop_last()[i]).contains(v);
                assert(ts.drop_last()[i] == ts[i]);
            }
        }
        assert(ftv_seq(ts) =~= ftv_seq(ts.drop_last()).union(ftv(ts.last())));
    }
}

pub proof fn lemma_ftv_fields_finite(fs: FieldsV)
    ensures
        ftv_fields(fs).finite(),
    decreases fs, 0nat,
{
    if fs.len() == 0 {
        assert(ftv_fields(fs) =~= Set::empty());
    } else {
        lemma_ftv_fields_finite(fs.drop_last());
        assert(decreases_to!(fs => fs.last()));
        lemma_ftv_finite(fs.last().1);
        assert forall|v: u32| ftv_fields(fs).contains(v) <==> ftv_fields(fs.drop_last()).union(ftv(fs.last().1)).contains(v) by {
            if ftv_fields(fs).contains(v) {
                let i = choose|i: int| 0 <= i < fs.len() && ftv(fs[i].1).contains(v);
                if i < fs.len() - 1 {
                    assert(fs.drop_last()[i] == fs[i]);
                }
            }
            if ftv_fields(fs.drop_last()).contains(v) {
                let i = choose|i: int| 0 <= i < fs.len() - 1 && ftv(fs.drop_last()[i].1).contains(v);
                assert(fs.drop_last()[i] == fs[i]);
            }
        }
        assert(ftv_fields(fs) =~= ftv_fields(fs.drop_last()).union(ftv(fs.last().1)));
    }
}


/// The free type variables of a type.
pub fn ftv_ty(ty: &Ty) -> (r: HashSet<u32>)
    ensures
        r@ == ftv(ty@),
{
    let mut acc: HashSet<u32> = HashSet::new();
    ftv_into(ty, &mut acc);
    assert(acc@ =~= ftv(ty@));
    acc
}

pub(crate) fn ftv_into(t: &Ty, acc: &mut HashSet<u32>)
    ensures
        final(acc)@ == old(acc)@.union(ftv(t@)),
    decreases size(t@), 1nat,
{
    match t {
        Ty::Var(v) => {
            acc.insert(*v);
            assert(acc@ =~= old(acc)@.union(ftv(t@)));
        },
        Ty::Con(_) => {
            assert(acc@ =~= old(acc)@.union(ftv(t@)));
        },
        Ty::List(a) => {
            ftv_into(a, acc);
        },
        Ty::Tuple(ts) => {
            proof { lemma_view_seq(ts@); }
            ftv_vec(ts, acc, Ghost(size(t@)));
            assert(ftv(t@) =~= ftv_seq(view_seq(ts@)));
        },
        Ty::Record(fs) => {
            proof { lemma_view_fields(fs@); }
            ftv_field_vec(fs, acc, Ghost(size(t@)));
            assert(ftv(t@) =~= ftv_fields(view_fields(fs@)));
        },
        Ty::RecordOpen(fs, r) => {
            proof { lemma_view_fields(fs@); }
            ftv_field_vec(fs, acc, Ghost(size(t@)));
            ftv_into(r, acc);
            assert(ftv(t@) =~= ftv_fields(view_fields(fs@)).union(ftv((**r)@)));
            assert(acc@ =~= old(acc)@.union(ftv(t@)));
        },
        Ty::App { head, args } => {
            proof { lemma_view_seq(args@); }
            ftv_into(head, acc);
            ftv_vec(args, acc, Ghost(size(t@)));
            assert(ftv(t@) =~= ftv((**head)@).union(ftv_seq(view_seq(args@))));
            assert(acc@ =~= old(acc)@.union(ftv(t@)));
        },
        Ty::Func(a, b) => {
            ftv_into(a, acc);
            ftv_into(b, acc);
            assert(acc@ =~= old(acc)@.union(ftv(t@)));
        },
    }
}

fn ftv_vec(ts: &Vec<Ty>, acc: &mut HashSet<u32>, Ghost(bound): Ghost<nat>)
    requires
        sizes(view_seq(ts@)) < bound,
    ensures
        final(acc)@ == old(acc)@.union(ftv_seq(view_seq(ts@))),
    decreases bound, 0nat,
{
    let ghost a0 = acc@;
    let ghost vs = view_seq(ts@);
    proof { lemma_view_seq(ts@); }
    let mut i: usize = 0;
    while i < ts.len()
        invariant
            i <= ts.len(),
            vs == view_seq(ts@),
            vs.len() == ts.len(),
            forall|j: int| 0 <= j < ts.len() ==> #[trigger] vs[j] == ts@[j]@,
            sizes(vs) < bound,
            acc@ == a0.union(ftv_seq(vs.take(i as int))),
        decreases ts.len() - i,
    {
        proof { lemma_sizes_elem(vs, i as int); }
        ftv_into(&ts[i], acc);
        proof {
            let pre = vs.take(i as int);
            let post = vs.take(i + 1);
            assert forall|v: u32| ftv_seq(post).contains(v) <==> ftv_seq(pre).union(ftv(vs[i as int])).contains(v) by {
                if ftv_seq(post).contains(v) {
                    let j = choose|j: int| 0 <= j < post.len() && ftv(post[j]).contains(v);
                    if j < i {
                        assert(pre[j] == post[j]);
                    }
                }
                if ftv_seq(pre).contains(v) {
                    let j = choose|j: int| 0 <= j < pre.len() && ftv(pre[j]).contains(v);
                    assert(pre[j] == post[j]);
                }
                if ftv(vs[i as int]).contains(v) {
                    assert(post[i as int] == vs[i as int]);
                }
            }
            assert(ftv_seq(post) =~= ftv_seq(pre).union(ftv(vs[i as int])));
            assert(acc@ =~= a0.union(ftv_seq(post)));
        }
        i += 1;
    }
    assert(vs.take(ts.len() as int) =~= vs);
}

fn ftv_field_vec(fs: &Vec<(String, Ty)>, acc: &mut HashSet<u32>, Ghost(bound): Ghost<nat>)
    requires
        field_sizes(view_fields(fs@)) < bound,
    ensures
        final(acc)@ == old(acc)@.union(ftv_fields(view_fields(fs@))),
    decreases bound, 0nat,
{
    let ghost a0 = acc@;
    let ghost vs = view_fields(fs@);
    proof { lemma_view_fields(fs@); }
    let mut i: usize = 0;
    while i < fs.len()
        invariant
            i <= fs.len(),
            vs == view_fields(fs@),
            vs.len() == fs.len(),
            forall|j: int| 0 <= j < fs.len() ==> #[trigger] vs[j] == (fs@[j].0@, fs@[j].1@),
            field_sizes(vs) < bound,
            acc@ == a0.union(ftv_fields(vs.take(i as int))),
        decreases fs.len() - i,
    {
        proof { lemma_field_sizes_elem(vs, i as int); }
        assert(vs[i as int].1 == fs@[i as int].1@);
        ftv_into(&fs[i].1, acc);
        proof {
            let pre = vs.take(i as int);
            let post = vs.take(i + 1);
            assert forall|v: u32| ftv_fields(post).contains(v) <==> ftv_fields(pre).union(ftv(vs[i as int].1)).contains(v) by {
                if ftv_fields(post).contains(v) {
                    let j = choose|j: int| 0 <= j < post.len() && ftv(post[j].1).contains(v);
                    if j < i {
                        assert(pre[j] == post[j]);
                    }
                }
                if ftv_fields(pre).contains(v) {
                    let j = choose|j: int| 0 <= j < pre.len() && ftv(pre[j].1).contains(v);
                    assert(pre[j] == post[j]);
                }
                if ftv(vs[i as int].1).contains(v) {
                    assert(post[i as int] == vs[i as int]);
                }
            }
            assert(ftv_fields(post) =~= ftv_fields(pre).union(ftv(vs[i as int].1)));
            assert(acc@ =~= a0.union(ftv_fields(post)));
        }
        i += 1;
    }
    assert(vs.take(fs.len() as int) =~= vs);
}


/// Structural equality of types.
pub fn ty_eq(a: &Ty, b: &Ty) -> (r: bool)
    ensures
        r == (a@ == b@),
    decreases size(a@), 1nat,
{
    match (a, b) {
        (Ty::Var(x), Ty::Var(y)) => *x == *y,
        (Ty::Con(x), Ty::Con(y)) => *x == *y,
        (Ty::List(x), Ty::List(y)) => ty_eq(x, y),
        (Ty::Tuple(xs), Ty::Tuple(ys)) => {
            let r = tys_eq(xs, ys, Ghost(size(a@)));
            proof {
                lemma_view_seq(xs@);
                lemma_view_seq(ys@);
                if r {
                    assert(view_seq(xs@) =~= view_seq(ys@));
                }
                if a@ == b@ {
                    assert forall|i: int| 0 <= i < xs.len() implies (#[trigger] xs@[i])@ == ys@[i]@ by {
                        assert(view_seq(xs@)[i] == view_seq(ys@)[i]);
                    }
                }
            }
            r
        },
        (Ty::Record(xs), Ty::Record(ys)) => {
            let r = fields_eq(xs, ys, Ghost(size(a@)));
            proof {
                lemma_view_fields(xs@);
                lemma_view_fields(ys@);
                if r {
                    assert(view_fields(xs@) =~= view_fields(ys@));
                }
                if a@ == b@ {
                    assert forall|i: int| 0 <= i < xs.len() implies (#[trigger] xs@[i]).0@ == ys@[i].0@ && xs@[i].1@ == ys@[i].1@ by {
                        assert(view_fields(xs@)[i] == view_fields(ys@)[i]);
                    }
                }
            }
            r
        },
        (Ty::RecordOpen(xs, rx), Ty::RecordOpen(ys, ry)) => {
            let r1 = fields_eq(xs, ys, Ghost(size(a@)));
            let r2 = ty_eq(rx, ry);
            proof {
                lemma_view_fields(xs@);
                lemma_view_fields(ys@);
                if r1 {
                    assert(view_fields(xs@) =~= view_fields(ys@));
                }
                if a@ == b@ {
                    assert forall|i: int| 0 <= i < xs.len() implies (#[trigger] xs@[i]).0@ == ys@[i].0@ && xs@[i].1@ == ys@[i].1@ by {
                        assert(view_fields(xs@)[i] == view_fields(ys@)[i]);
                    }
                }
            }
            r1 && r2
        },
        (Ty::App { head: ha, args: xs }, Ty::App { head: hb, args: ys }) => {
            let r1 = ty_eq(ha, hb);
            let r2 = tys_eq(xs, ys, Ghost(size(a@)));
            proof {
                lemma_view_seq(xs@);
                lemma_view_seq(ys@);
                if r2 {
                    assert(view_seq(xs@) =~= view_seq(ys@));
                }
                if a@ == b@ {
                    assert forall|i: int| 0 <= i < xs.len() implies (#[trigger] xs@[i])@ == ys@[i]@ by {
                        assert(view_seq(xs@)[i] == view_seq(ys@)[i]);
                    }
                }
            }
            r1 && r2
        },
        (Ty::Func(a1, a2), Ty::Func(b1, b2)) => {
            let r1 = ty_eq(a1, b1);
            let r2 = ty_eq(a2, b2);
            r1 && r2
        },
        _ => false,
    }
}

fn tys_eq(xs: &Vec<Ty>, ys: &Vec<Ty>, Ghost(bound): Ghost<nat>) -> (r: bool)
    requires
        sizes(view_seq(xs@)) < bound,
    ensures
        r == (xs.len() == ys.len() && forall|i: int| 0 <= i < xs.len() ==> (#[trigger] xs@[i])@ == ys@[i]@),
    decreases bound, 0nat,
{
    if xs.len() != ys.len() {
        return false;
    }
    proof {
        lemma_view_seq(xs@);
    }
    let mut i: usize = 0;
    while i < xs.len()
        invariant
            i <= xs.len(),
            xs.len() == ys.len(),
            sizes(view_seq(xs@)) < bound,
            view_seq(xs@).len() == xs.len(),
            forall|j: int| 0 <= j < xs.len() ==> #[trigger] view_seq(xs@)[j] == xs@[j]@,
            forall|j: int| 0 <= j < i ==> (#[trigger] xs@[j])@ == ys@[j]@,
        decreases xs.len() - i,
    {
        proof {
            lemma_sizes_elem(view_seq(xs@), i as int);
        }
        if !ty_eq(&xs[i], &ys[i]) {
            return false;
        }
        i += 1;
    }
    true
}

fn fields_eq(xs: &Vec<(String, Ty)>, ys: &Vec<(String, Ty)>, Ghost(bound): Ghost<nat>) -> (r: bool)
    requires
        field_sizes(view_fields(xs@)) < bound,
    ensures
        r == (xs.len() == ys.len() && forall|i: int|
            0 <= i < xs.len() ==> (#[trigger] xs@[i]).0@ == ys@[i].0@ && xs@[i].1@ == ys@[i].1@),
    decreases bound, 0nat,
{
    if xs.len() != ys.len() {
        return false;
    }
    proof {
        lemma_view_fields(xs@);
    }
    let mut i: usize = 0;
    while i < xs.len()
        invariant
            i <= xs.len(),
            xs.len() == ys.len(),
            field_sizes(view_fields(xs@)) < bound,
            view_fields(xs@).len() == xs.len(),
            forall|j: int| 0 <= j < xs.len() ==> #[trigger] view_fields(xs@)[j] == (xs@[j].0@, xs@[j].1@),
            forall|j: int| 0 <= j < i ==> (#[trigger] xs@[j]).0@ == ys@[j].0@ && xs@[j].1@ == ys@[j].1@,
        decreases xs.len() - i,
    {
        proof {
            lemma_field_sizes_elem(view_fields(xs@), i as int);
        }
        assert(view_fields(xs@)[i as int].1 == xs@[i as int].1@);
        if xs[i].0 != ys[i].0 {
            return false;
        }
        if !ty_eq(&xs[i].1, &ys[i].1) {
            return false;
        }
        i += 1;
    }
    true
}

impl PartialEq for Ty {
    fn eq(&self, other: &Ty) -> (r: bool) {
        ty_eq(self, other)
    }
}

impl vstd::std_specs::cmp::PartialEqSpecImpl for Ty {
    open spec fn obeys_eq_spec() -> bool {
        true
    }

    open spec fn eq_spec(&self, other: &Ty) -> bool {
        self@ == other@
    }
}

impl Eq for Ty {
}

} // verus!
