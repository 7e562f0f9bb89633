//! Rendering types and schemes as text.
use vstd::prelude::*;
use std::collections::HashMap;
use crate::scheme::{Constraint, ConstraintV, Scheme};
use crate::ty::{
    field_sizes, lemma_field_sizes_elem, lemma_sizes_elem, lemma_view_fields, lemma_view_seq, size, sizes,
    view_fields, view_seq, FieldsV, Ty, TyV,
};

verus! {

broadcast use vstd::std_specs::hash::group_hash_axioms;

/// Names given to type variables.
pub type NamesV = Map<u32, Seq<char>>;

pub open spec fn names_view(m: Map<u32, String>) -> NamesV {
    m.map_values(|s: String| s@)
}

pub open spec fn digit_char(d: nat) -> char {
    (48 + d) as char
}

/// The decimal digits of `n`.
pub open spec fn decimal(n: nat) -> Seq<char>
    decreases n,
{
    if n < 10 {
        seq![digit_char(n)]
    } else {
        decimal(n / 10).push(digit_char(n % 10))
    }
}

pub open spec fn letter(i: nat) -> char {
    (97 + i) as char
}

/// The `i`-th display name of a variable: `a`..`z`, then `a1`..`z1`, ...
pub open spec fn var_name(i: nat) -> Seq<char> {
    if i / 26 == 0 {
        seq![letter(i % 26)]
    } else {
        seq![letter(i % 26)] + decimal(i / 26)
    }
}

pub open spec fn paren(b: bool, s: Seq<char>) -> Seq<char> {
    if b {
        seq!['('] + s + seq![')']
    } else {
        s
    }
}

/// The text of `t` in a context of precedence `prec` (0: function arrow,
/// 1: application, 2: atom), variables named by `names` or `t<n>`.
pub open spec fn render(t: TyV, prec: nat, names: NamesV) -> Seq<char>
    decreases t, 1nat,
{
    match t {
        TyV::Var(v) => if names.contains_key(v) {
            names[v]
        } else {
            seq!['t'] + decimal(v as nat)
        },
        TyV::Con(c) => c,
        TyV::List(a) => seq!['['] + render(*a, 0, names) + seq![']'],
        TyV::Tuple(ts) => seq!['('] + render_list(ts, names) + seq![')'],
        TyV::Record(fs) => seq!['{'] + render_fields(fs, names) + seq!['}'],
        TyV::RecordOpen(fs, r) => seq!['{'] + render_fields(fs, names) + (if fs.len() > 0 {
            seq![',', ' ']
        } else {
            Seq::empty()
        }) + seq!['.', '.', '.'] + render(*r, 2, names) + seq!['}'],
        TyV::App(h, args) => paren(prec > 1, render(*h, 2, names) + render_args(args, names)),
        TyV::Func(a, b) => paren(prec > 0, render(*a, 1, names) + seq![' ', '-', '>', ' '] + render(*b, 0, names)),
    }
}

/// The types separated by `, `.
pub open spec fn render_list(ts: Seq<TyV>, names: NamesV) -> Seq<char>
    decreases ts, 0nat,
{
    if ts.len() == 0 {
        Seq::empty()
    } else if ts.len() == 1 {
        render(ts[0], 0, names)
    } else {
        render_list(ts.drop_last(), names) + seq![',', ' '] + render(ts.last(), 0, names)
    }
}

/// The fields as `name: type`, separated by `, `.
pub open spec fn render_fields(fs: FieldsV, names: NamesV) -> Seq<char>
    decreases fs, 0nat,
{
    if fs.len() == 0 {
        Seq::empty()
    } else if fs.len() == 1 {
        fs[0].0 + seq![':', ' '] + render(fs[0].1, 0, names)
    } else {
        render_fields(fs.drop_last(), names) + seq![',', ' '] + fs.last().0 + seq![':', ' '] + render(
            fs.last().1,
            0,
            names,
        )
    }
}

/// Each argument preceded by a space, as atoms.
pub open spec fn render_args(ts: Seq<TyV>, names: NamesV) -> Seq<char>
    decreases ts, 0nat,
{
    if ts.len() == 0 {
        Seq::empty()
    } else {
        render_args(ts.drop_last(), names) + seq![' '] + render(ts.last(), 2, names)
    }
}

/// `String::push`: the string gets `c` at its end.
#[verifier::external_body]
pub(crate) fn push_char(s: &mut String, c: char)
    ensures
        final(s)@ == old(s)@.push(c),
{
    s.push(c);
}

pub(crate) fn push_chars2(s: &mut String, a: char, b: char)
    ensures
        final(s)@ == old(s)@ + seq![a, b],
{
    push_char(s, a);
    push_char(s, b);
    assert(s@ =~= old(s)@ + seq![a, b]);
}

/// Appends the decimal digits of `n`.
pub(crate) fn write_decimal(out: &mut String, n: u64)
    ensures
        final(out)@ == old(out)@ + decimal(n as nat),
    decreases n,
{
    if n >= 10 {
        write_decimal(out, n / 10);
    }
    let d: u8 = (n % 10) as u8;
    push_char(out, (48u8 + d) as char);
    proof {
        if n >= 10 {
            assert(out@ =~= old(out)@ + decimal(n as nat));
        } else {
            assert(out@ =~= old(out)@ + decimal(n as nat));
        }
    }
}

/// Appends the text of `ty` in a context of precedence `parent_prec`.
pub fn fmt_ty_prec(out: &mut String, ty: &Ty, parent_prec: u8, vars: &HashMap<u32, String>)
    ensures
        final(out)@ == old(out)@ + render(ty@, parent_prec as nat, names_view(vars@)),
    decreases size(ty@), 1nat,
{
    let ghost names = names_view(vars@);
    let ghost start = out@;
    match ty {
        Ty::Var(v) => {
            match vars.get(v) {
                Some(name) => {
                    out.append(name.as_str());
                },
                None => {
                    push_char(out, 't');
                    write_decimal(out, *v as u64);
                    assert(out@ =~= start + (seq!['t'] + decimal(*v as nat)));
                },
            }
        },
        Ty::Con(name) => {
            out.append(name.as_str());
        },
        Ty::List(t) => {
            push_char(out, '[');
            fmt_ty_prec(out, t, 0, vars);
            push_char(out, ']');
            assert(out@ =~= start + render(ty@, parent_prec as nat, names));
        },
        Ty::Tuple(ts) => {
            push_char(out, '(');
            fmt_list(out, ts, vars, Ghost(size(ty@)));
            push_char(out, ')');
            assert(out@ =~= start + render(ty@, parent_prec as nat, names));
        },
        Ty::Record(fs) => {
            push_char(out, '{');
            fmt_fields(out, fs, vars, Ghost(size(ty@)));
            push_char(out, '}');
            assert(out@ =~= start + render(ty@, parent_prec as nat, names));
        },
        Ty::RecordOpen(fs, rest) => {
            push_char(out, '{');
            fmt_fields(out, fs, vars, Ghost(size(ty@)));
            let ghost mid = out@;
            if fs.len() > 0 {
                push_chars2(out, ',', ' ');
            }
            let ghost mid2 = out@;
            push_char(out, '.');
            push_char(out, '.');
            push_char(out, '.');
            fmt_ty_prec(out, rest, 2, vars);
            push_char(out, '}');
            proof {
                lemma_view_fields(fs@);
                assert(mid2 == mid + (if view_fields(fs@).len() > 0 { seq![',', ' '] } else { Seq::empty() }));
            }
            assert(out@ =~= start + render(ty@, parent_prec as nat, names));
        },
        Ty::App { head, args } => {
            if parent_prec > 1 {
                push_char(out, '(');
            }
            let ghost p0 = out@;
            fmt_ty_prec(out, head, 2, vars);
            fmt_args(out, args, vars, Ghost(size(ty@)));
            let ghost p1 = out@;
            if parent_prec > 1 {
                push_char(out, ')');
            }
            assert(p1 =~= p0 + (render((**head)@, 2, names) + render_args(view_seq(args@), names)));
            assert(out@ =~= start + render(ty@, parent_prec as nat, names));
        },
        Ty::Func(a, b) => {
            if parent_prec > 0 {
                push_char(out, '(');
            }
            let ghost p0 = out@;
            fmt_ty_prec(out, a, 1, vars);
            push_chars2(out, ' ', '-');
            push_chars2(out, '>', ' ');
            fmt_ty_prec(out, b, 0, vars);
            let ghost p1 = out@;
            if parent_prec > 0 {
                push_char(out, ')');
            }
            assert(p1 =~= p0 + (render((**a)@, 1, names) + seq![' ', '-', '>', ' '] + render((**b)@, 0, names)));
            assert(out@ =~= start + render(ty@, parent_prec as nat, names));
        },
    }
}

fn fmt_list(out: &mut String, ts: &Vec<Ty>, vars: &HashMap<u32, String>, Ghost(bound): Ghost<nat>)
    requires
        sizes(view_seq(ts@)) < bound,
    ensures
        final(out)@ == old(out)@ + render_list(view_seq(ts@), names_view(vars@)),
    decreases bound, 0nat,
{
    let ghost vs = view_seq(ts@);
    let ghost names = names_view(vars@);
    let ghost start = out@;
    proof {
        lemma_view_seq(ts@);
    }
    let mut i: usize = 0;
    assert(vs.take(0) =~= Seq::<TyV>::empty());
    assert(out@ =~= start + render_list(vs.take(0), names));
    while i < ts.len()
        invariant
            i <= ts.len(),
            vs == view_seq(ts@),
            vs.len() == ts.len(),
            forall|j: int| 0 <= j < ts.len() ==> #[trigger] vs[j] == ts@[j]@,
            sizes(vs) < bound,
            names == names_view(vars@),
            out@ == start + render_list(vs.take(i as int), names),
        decreases ts.len() - i,
    {
        proof {
            lemma_sizes_elem(vs, i as int);
        }
        let ghost before = out@;
        if i > 0 {
            push_chars2(out, ',', ' ');
        }
        let ghost mid = out@;
        fmt_ty_prec(out, &ts[i], 0, vars);
        proof {
            let t1 = vs.take(i + 1);
            assert(t1.drop_last() =~= vs.take(i as int));
            assert(t1.last() == vs[i as int]);
            if i == 0 {
                assert(t1[0] == vs[0]);
                assert(out@ =~= start + render_list(t1, names));
            } else {
                assert(out@ =~= start + render_list(t1, names));
            }
        }
        i += 1;
    }
    assert(vs.take(ts.len() as int) =~= vs);
}

fn fmt_args(out: &mut String, ts: &Vec<Ty>, vars: &HashMap<u32, String>, Ghost(bound): Ghost<nat>)
    requires
        sizes(view_seq(ts@)) < bound,
    ensures
        final(out)@ == old(out)@ + render_args(view_seq(ts@), names_view(vars@)),
    decreases bound, 0nat,
{
    let ghost vs = view_seq(ts@);
    let ghost names = names_view(vars@);
    let ghost start = out@;
    proof {
        lemma_view_seq(ts@);
    }
    let mut i: usize = 0;
    assert(vs.take(0) =~= Seq::<TyV>::empty());
    assert(out@ =~= start + render_args(vs.take(0), names));
    while i < ts.len()
        invariant
            i <= ts.len(),
            vs == view_seq(ts@),
            vs.len() == ts.len(),
            forall|j: int| 0 <= j < ts.len() ==> #[trigger] vs[j] == ts@[j]@,
            sizes(vs) < bound,
            names == names_view(vars@),
            out@ == start + render_args(vs.take(i as int), names),
        decreases ts.len() - i,
    {
        proof {
            lemma_sizes_elem(vs, i as int);
        }
        push_char(out, ' ');
        fmt_ty_prec(out, &ts[i], 2, vars);
        proof {
            let t1 = vs.take(i + 1);
            assert(t1.drop_last() =~= vs.take(i as int));
            assert(t1.last() == vs[i as int]);
            assert(out@ =~= start + render_args(t1, names));
        }
        i += 1;
    }
    assert(vs.take(ts.len() as int) =~= vs);
}

fn fmt_fields(out: &mut String, fs: &Vec<(String, Ty)>, vars: &HashMap<u32, String>, Ghost(bound): Ghost<nat>)
    requires
        field_sizes(view_fields(fs@)) < bound,
    ensures
        final(out)@ == old(out)@ + render_fields(view_fields(fs@), names_view(vars@)),
    decreases bound, 0nat,
{
    let ghost vs = view_fields(fs@);
    let ghost names = names_view(vars@);
    let ghost start = out@;
    proof {
        lemma_view_fields(fs@);
    }
    let mut i: usize = 0;
    assert(vs.take(0) =~= FieldsV::empty());
    assert(out@ =~= start + render_fields(vs.take(0), names));
    while i < fs.len()
        invariant
            i <= fs.len(),
            vs == view_fields(fs@),
            vs.len() == fs.len(),
            forall|j: int| 0 <= j < fs.len() ==> #[trigger] vs[j] == (fs@[j].0@, fs@[j].1@),
            field_sizes(vs) < bound,
            names == names_view(vars@),
            out@ == start + render_fields(vs.take(i as int), names),
        decreases fs.len() - i,
    {
        proof {
            lemma_field_sizes_elem(vs, i as int);
        }
        assert(vs[i as int].1 == fs@[i as int].1@);
        if i > 0 {
            push_chars2(out, ',', ' ');
        }
        let ghost mid = out@;
        out.append(fs[i].0.as_str());
        push_chars2(out, ':', ' ');
        fmt_ty_prec(out, &fs[i].1, 0, vars);
        proof {
            let t1 = vs.take(i + 1);
            assert(t1.drop_last() =~= vs.take(i as int));
            assert(t1.last() == vs[i as int]);
            if i == 0 {
                assert(t1[0] == vs[0]);
                assert(out@ =~= start + render_fields(t1, names));
            } else {
                assert(out@ =~= start + render_fields(t1, names));
            }
        }
        i += 1;
    }
    assert(vs.take(fs.len() as int) =~= vs);
}

impl Ty {
    /// The text of the type, with variables shown as `t<n>`.
    pub fn display(&self) -> (r: String)
        ensures
            r@ == render(self@, 0, Map::empty()),
    {
        let vars: HashMap<u32, String> = HashMap::new();
        let mut out = String::new();
        assert(names_view(vars@) =~= Map::<u32, Seq<char>>::empty());
        fmt_ty_prec(&mut out, self, 0, &vars);
        assert(out@ =~= render(self@, 0, Map::empty()));
        out
    }
}


/// The names `assign_ty_var_names` gives: each variable of `t` not yet named,
/// in order of first occurrence, gets the next name.
pub open spec fn assign_v(t: TyV, m: NamesV) -> NamesV
    decreases t, 1nat,
{
    match t {
        TyV::Var(v) => if m.contains_key(v) {
            m
        } else {
            m.insert(v, var_name(m.dom().len()))
        },
        TyV::Con(_) => m,
        TyV::List(a) => assign_v(*a, m),
        TyV::Tuple(ts) => assign_seq(ts, m),
        TyV::Record(fs) => assign_fields(fs, m),
        TyV::RecordOpen(fs, r) => assign_v(*r, assign_fields(fs, m)),
        TyV::App(h, args) => assign_seq(args, assign_v(*h, m)),
        TyV::Func(a, b) => assign_v(*b, assign_v(*a, m)),
    }
}

pub open spec fn assign_seq(ts: Seq<TyV>, m: NamesV) -> NamesV
    decreases ts, 0nat,
{
    if ts.len() == 0 {
        m
    } else {
        assign_v(ts.last(), assign_seq(ts.drop_last(), m))
    }
}

pub open spec fn assign_fields(fs: FieldsV, m: NamesV) -> NamesV
    decreases fs, 0nat,
{
    if fs.len() == 0 {
        m
    } else {
        assign_v(fs.last().1, assign_fields(fs.drop_last(), m))
    }
}

/// The `i`-th variable name.
fn next_name(i: usize) -> (r: String)
    ensures
        r@ == var_name(i as nat),
{
    let mut out = String::new();
    let k: u8 = (i % 26) as u8;
    push_char(&mut out, (97u8 + k) as char);
    if i / 26 != 0 {
        write_decimal(&mut out, (i / 26) as u64);
    }
    assert(out@ =~= var_name(i as nat));
    out
}

/// Names each variable of `ty` not yet in `vars`, in order of first
/// occurrence.
pub fn assign_ty_var_names(ty: &Ty, vars: &mut HashMap<u32, String>)
    ensures
        names_view(final(vars)@) == assign_v(ty@, names_view(old(vars)@)),
    decreases size(ty@), 1nat,
{
    match ty {
        Ty::Var(v) => {
            if !vars.contains_key(v) {
                let n = vars.len();
                let name = next_name(n);
                let ghost before = vars@;
                vars.insert(*v, name);
                proof {
                    assert(names_view(before).dom() =~= before.dom());
                    assert(names_view(vars@) =~= names_view(before).insert(*v, var_name(n as nat)));
                }
            }
        },
        Ty::Con(_) => {},
        Ty::List(a) => {
            assign_ty_var_names(a, vars);
        },
        Ty::Tuple(ts) => {
            assign_vec(ts, vars, Ghost(size(ty@)));
        },
        Ty::Record(fs) => {
            assign_field_vec(fs, vars, Ghost(size(ty@)));
        },
        Ty::RecordOpen(fs, r) => {
            assign_field_vec(fs, vars, Ghost(size(ty@)));
            assign_ty_var_names(r, vars);
        },
        Ty::App { head, args } => {
            assign_ty_var_names(head, vars);
            assign_vec(args, vars, Ghost(size(ty@)));
        },
        Ty::Func(a, b) => {
            assign_ty_var_names(a, vars);
            assign_ty_var_names(b, vars);
        },
    }
}

fn assign_vec(ts: &Vec<Ty>, vars: &mut HashMap<u32, String>, Ghost(bound): Ghost<nat>)
    requires
        sizes(view_seq(ts@)) < bound,
    ensures
        names_view(final(vars)@) == assign_seq(view_seq(ts@), names_view(old(vars)@)),
    decreases bound, 0nat,
{
    let ghost vs = view_seq(ts@);
    let ghost m0 = names_view(vars@);
    proof {
        lemma_view_seq(ts@);
    }
    let mut i: usize = 0;
    assert(vs.take(0) =~= Seq::<TyV>::empty());
    while i < ts.len()
        invariant
            i <= ts.len(),
            vs == view_seq(ts@),
            vs.len() == ts.len(),
            forall|j: int| 0 <= j < ts.len() ==> #[trigger] vs[j] == ts@[j]@,
            sizes(vs) < bound,
            names_view(vars@) == assign_seq(vs.take(i as int), m0),
        decreases ts.len() - i,
    {
        proof {
            lemma_sizes_elem(vs, i as int);
        }
        assign_ty_var_names(&ts[i], vars);
        proof {
            let t1 = vs.take(i + 1);
            assert(t1.drop_last() =~= vs.take(i as int));
            assert(t1.last() == vs[i as int]);
        }
        i += 1;
    }
    assert(vs.take(ts.len() as int) =~= vs);
}

fn assign_field_vec(fs: &Vec<(String, Ty)>, vars: &mut HashMap<u32, String>, Ghost(bound): Ghost<nat>)
    requires
        field_sizes(view_fields(fs@)) < bound,
    ensures
        names_view(final(vars)@) == assign_fields(view_fields(fs@), names_view(old(vars)@)),
    decreases bound, 0nat,
{
    let ghost vs = view_fields(fs@);
    let ghost m0 = names_view(vars@);
    proof {
        lemma_view_fields(fs@);
    }
    let mut i: usize = 0;
    assert(vs.take(0) =~= FieldsV::empty());
    while i < fs.len()
        invariant
            i <= fs.len(),
            vs == view_fields(fs@),
            vs.len() == fs.len(),
            forall|j: int| 0 <= j < fs.len() ==> #[trigger] vs[j] == (fs@[j].0@, fs@[j].1@),
            field_sizes(vs) < bound,
            names_view(vars@) == assign_fields(vs.take(i as int), m0),
        decreases fs.len() - i,
    {
        proof {
            lemma_field_sizes_elem(vs, i as int);
        }
        assert(vs[i as int].1 == fs@[i as int].1@);
        assign_ty_var_names(&fs[i].1, vars);
        proof {
            let t1 = vs.take(i + 1);
            assert(t1.drop_last() =~= vs.take(i as int));
            assert(t1.last() == vs[i as int]);
        }
        i += 1;
    }
    assert(vs.take(fs.len() as int) =~= vs);
}

/// The names shared by the texts of `a` and `b`.
pub open spec fn pair_names(a: TyV, b: TyV) -> NamesV {
    assign_v(b, assign_v(a, Map::empty()))
}

/// The texts of `a` and `b`, their variables named alike, in order of first
/// occurrence in `a` and then `b`.
pub fn pretty_ty_pair(a: &Ty, b: &Ty) -> (r: (String, String))
    ensures
        r.0@ == render(a@, 0, pair_names(a@, b@)),
        r.1@ == render(b@, 0, pair_names(a@, b@)),
{
    let mut vars: HashMap<u32, String> = HashMap::new();
    assert(names_view(vars@) =~= Map::<u32, Seq<char>>::empty());
    assign_ty_var_names(a, &mut vars);
    assign_ty_var_names(b, &mut vars);
    let mut sa = String::new();
    fmt_ty_prec(&mut sa, a, 0, &vars);
    let mut sb = String::new();
    fmt_ty_prec(&mut sb, b, 0, &vars);
    assert(sa@ =~= render(a@, 0, pair_names(a@, b@)));
    assert(sb@ =~= render(b@, 0, pair_names(a@, b@)));
    (sa, sb)
}


/// Inserts `x` before the first element greater than it.
pub open spec fn insert_u32(s: Seq<u32>, x: u32) -> Seq<u32>
    decreases s.len(),
{
    if s.len() == 0 {
        seq![x]
    } else if x < s[0] {
        seq![x] + s
    } else {
        seq![s[0]] + insert_u32(s.drop_first(), x)
    }
}

/// The numbers in increasing order.
pub open spec fn sort_u32(s: Seq<u32>) -> Seq<u32>
    decreases s.len(),
{
    if s.len() == 0 {
        s
    } else {
        insert_u32(sort_u32(s.drop_last()), s.last())
    }
}

fn insert_u32_vec(v: &mut Vec<u32>, x: u32)
    ensures
        final(v)@ == insert_u32(old(v)@, x),
{
    let ghost s = v@;
    let mut p: usize = 0;
    assert(s.skip(0) =~= s);
    assert(s.take(0) + insert_u32(s, x) =~= insert_u32(s, x));
    let mut done = false;
    while p < v.len() && !done
        invariant
            p <= v.len(),
            s == v@,
            insert_u32(s, x) == s.take(p as int) + insert_u32(s.skip(p as int), x),
            done ==> p < v.len() && x < s[p as int],
        decreases v.len() - p, if done { 0int } else { 1int },
    {
        if x < v[p] {
            done = true;
        } else {
            let ghost sp = s.skip(p as int);
            assert(sp[0] == s[p as int]);
            assert(sp.drop_first() =~= s.skip(p + 1));
            assert(s.take(p + 1) + insert_u32(s.skip(p + 1), x) =~= s.take(p as int) + (seq![s[p as int]] + insert_u32(
                s.skip(p + 1),
                x,
            )));
            p += 1;
        }
    }
    proof {
        if p < v.len() {
            assert(s.skip(p as int)[0] == s[p as int]);
        } else {
            assert(s.skip(p as int) =~= Seq::<u32>::empty());
        }
    }
    v.insert(p, x);
    assert(v@ =~= s.take(p as int) + insert_u32(s.skip(p as int), x));
}

/// The numbers of `vars` in increasing order.
fn sort_vars(vars: &Vec<u32>) -> (r: Vec<u32>)
    ensures
        r@ == sort_u32(vars@),
{
    let mut out: Vec<u32> = Vec::new();
    let mut i: usize = 0;
    assert(vars@.take(0) =~= Seq::<u32>::empty());
    while i < vars.len()
        invariant
            i <= vars.len(),
            out@ == sort_u32(vars@.take(i as int)),
        decreases vars.len() - i,
    {
        assert(vars@.take(i + 1).drop_last() =~= vars@.take(i as int));
        insert_u32_vec(&mut out, vars[i]);
        i += 1;
    }
    assert(vars@.take(vars.len() as int) =~= vars@);
    out
}

/// The name of the `i`-th quantified variable of a scheme.
pub open spec fn scheme_var_name(i: nat) -> Seq<char> {
    if i < 26 {
        seq![letter(i)]
    } else {
        seq!['a'] + decimal(i)
    }
}

/// The names of the quantified variables, in the order given.
pub open spec fn scheme_names(vs: Seq<u32>) -> NamesV
    decreases vs.len(),
{
    if vs.len() == 0 {
        Map::empty()
    } else {
        scheme_names(vs.drop_last()).insert(vs.last(), scheme_var_name((vs.len() - 1) as nat))
    }
}

proof fn lemma_scheme_names_dom(vs: Seq<u32>)
    ensures
        forall|k: int| 0 <= k < vs.len() ==> scheme_names(vs).contains_key(#[trigger] vs[k]),
    decreases vs.len(),
{
    if vs.len() > 0 {
        lemma_scheme_names_dom(vs.drop_last());
        assert forall|k: int| 0 <= k < vs.len() implies scheme_names(vs).contains_key(#[trigger] vs[k]) by {
            if k < vs.len() - 1 {
                assert(vs.drop_last()[k] == vs[k]);
            }
        }
    }
}

/// Each quantified variable's name preceded by a space.
pub open spec fn render_binders(vs: Seq<u32>, names: NamesV) -> Seq<char>
    decreases vs.len(),
{
    if vs.len() == 0 {
        Seq::empty()
    } else {
        render_binders(vs.drop_last(), names) + seq![' '] + names[vs.last()]
    }
}

pub open spec fn render_constraint(c: ConstraintV, names: NamesV) -> Seq<char> {
    match c {
        ConstraintV::Show(t) => "Show "@ + render(t, 0, names),
        ConstraintV::ShowRow(t) => "ShowRow "@ + render(t, 0, names),
        ConstraintV::Eq(t) => "Eq "@ + render(t, 0, names),
        ConstraintV::EqRow(t) => "EqRow "@ + render(t, 0, names),
        ConstraintV::Class(n, t) => n + " "@ + render(t, 0, names),
        ConstraintV::Lacks(l, t) => "Lacks \""@ + l + "\" "@ + render(t, 0, names),
    }
}

pub open spec fn render_constraint_list(cs: Seq<ConstraintV>, names: NamesV) -> Seq<char>
    decreases cs.len(),
{
    if cs.len() == 0 {
        Seq::empty()
    } else if cs.len() == 1 {
        render_constraint(cs[0], names)
    } else {
        render_constraint_list(cs.drop_last(), names) + ", "@ + render_constraint(cs.last(), names)
    }
}

/// One constraint as it is; several in parentheses, separated by `, `.
pub open spec fn render_constraints(cs: Seq<ConstraintV>, names: NamesV) -> Seq<char> {
    if cs.len() == 1 {
        render_constraint(cs[0], names)
    } else {
        "("@ + render_constraint_list(cs, names) + ")"@
    }
}

/// The text of a scheme: `forall a b. (C1, C2) => t`, its quantified
/// variables named `a`, `b`, ... in increasing order of number.
pub open spec fn render_scheme(vars: Seq<u32>, cs: Seq<ConstraintV>, ty: TyV) -> Seq<char> {
    let vs = sort_u32(vars);
    let names = scheme_names(vs);
    (if vars.len() == 0 {
        Seq::empty()
    } else {
        "forall"@ + render_binders(vs, names) + ". "@
    }) + (if cs.len() == 0 {
        Seq::empty()
    } else {
        render_constraints(cs, names) + " => "@
    }) + render(ty, 0, names)
}

fn fmt_constraint(out: &mut String, c: &Constraint, vars: &HashMap<u32, String>)
    ensures
        final(out)@ == old(out)@ + render_constraint(c@, names_view(vars@)),
{
    let ghost start = out@;
    let ghost names = names_view(vars@);
    match c {
        Constraint::Show(t) => {
            out.append("Show ");
            fmt_ty_prec(out, t, 0, vars);
        },
        Constraint::ShowRow(t) => {
            out.append("ShowRow ");
            fmt_ty_prec(out, t, 0, vars);
        },
        Constraint::Eq(t) => {
            out.append("Eq ");
            fmt_ty_prec(out, t, 0, vars);
        },
        Constraint::EqRow(t) => {
            out.append("EqRow ");
            fmt_ty_prec(out, t, 0, vars);
        },
        Constraint::Class { class, ty } => {
            out.append(class.as_str());
            out.append(" ");
            fmt_ty_prec(out, ty, 0, vars);
        },
        Constraint::Lacks { label, row } => {
            out.append("Lacks \"");
            out.append(label.as_str());
            out.append("\" ");
            fmt_ty_prec(out, row, 0, vars);
        },
    }
    assert(out@ =~= start + render_constraint(c@, names));
}

fn fmt_constraints(out: &mut String, cs: &Vec<Constraint>, vars: &HashMap<u32, String>)
    requires
        cs.len() > 0,
    ensures
        final(out)@ == old(out)@ + render_constraints(cs@.map_values(|c: Constraint| c@), names_view(vars@)),
{
    let ghost cv = cs@.map_values(|c: Constraint| c@);
    let ghost names = names_view(vars@);
    let ghost start = out@;
    if cs.len() == 1 {
        fmt_constraint(out, &cs[0], vars);
        return;
    }
    out.append("(");
    let ghost s1 = out@;
    let mut i: usize = 0;
    assert(cv.take(0) =~= Seq::<ConstraintV>::empty());
    while i < cs.len()
        invariant
            i <= cs.len(),
            cv == cs@.map_values(|c: Constraint| c@),
            names == names_view(vars@),
            out@ == s1 + render_constraint_list(cv.take(i as int), names),
        decreases cs.len() - i,
    {
        if i > 0 {
            out.append(", ");
        }
        fmt_constraint(out, &cs[i], vars);
        proof {
            let t1 = cv.take(i + 1);
            assert(t1.drop_last() =~= cv.take(i as int));
            assert(t1.last() == cs@[i as int]@);
            if i == 0 {
                assert(t1[0] == cs@[0]@);
            }
            assert(out@ =~= s1 + render_constraint_list(t1, names));
        }
        i += 1;
    }
    assert(cv.take(cs.len() as int) =~= cv);
    out.append(")");
    assert(out@ =~= start + render_constraints(cv, names));
}

fn scheme_var_name_exec(i: usize) -> (r: String)
    ensures
        r@ == scheme_var_name(i as nat),
{
    let mut out = String::new();
    if i < 26 {
        let k: u8 = i as u8;
        push_char(&mut out, (97u8 + k) as char);
    } else {
        push_char(&mut out, 'a');
        write_decimal(&mut out, i as u64);
    }
    assert(out@ =~= scheme_var_name(i as nat));
    out
}

impl Scheme {
    /// The text of the scheme.
    pub fn display(&self) -> (r: String)
        ensures
            r@ == render_scheme(self.vars@, self.constraints@.map_values(|c: Constraint| c@), self.ty@),
    {
        let ghost cv = self.constraints@.map_values(|c: Constraint| c@);
        let vs = sort_vars(&self.vars);
        let mut names: HashMap<u32, String> = HashMap::new();
        let mut i: usize = 0;
        assert(vs@.take(0) =~= Seq::<u32>::empty());
        assert(names_view(names@) =~= scheme_names(vs@.take(0)));
        while i < vs.len()
            invariant
                i <= vs.len(),
                names_view(names@) == scheme_names(vs@.take(i as int)),
            decreases vs.len() - i,
        {
            let name = scheme_var_name_exec(i);
            let ghost before = names@;
            names.insert(vs[i], name);
            proof {
                assert(vs@.take(i + 1).drop_last() =~= vs@.take(i as int));
                assert(names_view(names@) =~= names_view(before).insert(vs@[i as int], scheme_var_name(i as nat)));
            }
            i += 1;
        }
        assert(vs@.take(vs.len() as int) =~= vs@);
        let ghost nv = names_view(names@);
        let mut out = String::new();
        proof {
            lemma_scheme_names_dom(vs@);
        }
        if self.vars.len() > 0 {
            out.append("forall");
            let ghost s1 = out@;
            let mut j: usize = 0;
            assert(vs@.take(0) =~= Seq::<u32>::empty());
            while j < vs.len()
                invariant
                    j <= vs.len(),
                    nv == names_view(names@),
                    nv == scheme_names(vs@),
                    forall|k: int| 0 <= k < vs.len() ==> nv.contains_key(#[trigger] vs@[k]),
                    out@ == s1 + render_binders(vs@.take(j as int), nv),
                decreases vs.len() - j,
            {
                push_char(&mut out, ' ');
                let v = vs[j];
                assert(nv.contains_key(v));
                let name = names.get(&v);
                match name {
                    Some(n) => {
                        out.append(n.as_str());
                    },
                    None => {},
                }
                proof {
                    assert(vs@.take(j + 1).drop_last() =~= vs@.take(j as int));
                    assert(out@ =~= s1 + render_binders(vs@.take(j + 1), nv));
                }
                j += 1;
            }
            assert(vs@.take(vs.len() as int) =~= vs@);
            out.append(". ");
        }
        let ghost p1 = out@;
        if self.constraints.len() > 0 {
            fmt_constraints(&mut out, &self.constraints, &names);
            out.append(" => ");
        }
        let ghost p2 = out@;
        fmt_ty_prec(&mut out, &self.ty, 0, &names);
        assert(out@ =~= render_scheme(self.vars@, cv, self.ty@));
        out
    }
}

} // verus!
