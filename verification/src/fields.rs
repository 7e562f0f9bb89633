//! Record fields: lookup by name, de-duplication, and ordering by name.
use vstd::prelude::*;
use crate::ty::{field_sizes, lemma_view_fields, ty_clone, view_fields, FieldsV, Ty, TyV};

verus! {

/// `fs` has a field named `k`.
pub open spec fn has_key(fs: FieldsV, k: Seq<char>) -> bool
    decreases fs.len(),
{
    fs.len() > 0 && (fs.last().0 == k || has_key(fs.drop_last(), k))
}

/// The type of the last field named `k` (later fields win, as in a map built
/// from the fields in order).
pub open spec fn last_val(fs: FieldsV, k: Seq<char>) -> TyV
    decreases fs.len(),
{
    if fs.len() == 0 {
        TyV::Var(0)
    } else if fs.last().0 == k {
        fs.last().1
    } else {
        last_val(fs.drop_last(), k)
    }
}

/// `fs` without its fields named `k`.
pub open spec fn remove_key(fs: FieldsV, k: Seq<char>) -> FieldsV
    decreases fs.len(),
{
    if fs.len() == 0 {
        fs
    } else {
        let r = remove_key(fs.drop_last(), k);
        if fs.last().0 == k {
            r
        } else {
            r.push(fs.last())
        }
    }
}

/// One field per name, carrying the last type given to that name, in the
/// order of the names' last occurrences.
pub open spec fn dedup_last(fs: FieldsV) -> FieldsV
    decreases fs.len(),
{
    if fs.len() == 0 {
        fs
    } else {
        remove_key(dedup_last(fs.drop_last()), fs.last().0).push(fs.last())
    }
}

/// The fields of `fs` whose names are not names of `req`.
pub open spec fn without_keys(fs: FieldsV, req: FieldsV) -> FieldsV
    decreases fs.len(),
{
    if fs.len() == 0 {
        fs
    } else {
        let r = without_keys(fs.drop_last(), req);
        if has_key(req, fs.last().0) {
            r
        } else {
            r.push(fs.last())
        }
    }
}

/// Lexicographic order of names by character.
pub open spec fn key_lt(a: Seq<char>, b: Seq<char>) -> bool
    decreases a.len(),
{
    if a.len() == 0 {
        b.len() > 0
    } else if b.len() == 0 {
        false
    } else if a[0] != b[0] {
        a[0] < b[0]
    } else {
        key_lt(a.drop_first(), b.drop_first())
    }
}

/// Inserts `x` before the first field whose name is greater than its own.
pub open spec fn insert_sorted(fs: FieldsV, x: (Seq<char>, TyV)) -> FieldsV
    decreases fs.len(),
{
    if fs.len() == 0 {
        seq![x]
    } else if key_lt(x.0, fs[0].0) {
        seq![x] + fs
    } else {
        seq![fs[0]] + insert_sorted(fs.drop_first(), x)
    }
}

/// The fields ordered by name (stable).
pub open spec fn sort_fields(fs: FieldsV) -> FieldsV
    decreases fs.len(),
{
    if fs.len() == 0 {
        fs
    } else {
        insert_sorted(sort_fields(fs.drop_last()), fs.last())
    }
}

/// The fields of `actual` left over when the names of `req` are taken out:
/// one per name, ordered by name.
pub open spec fn residual(actual: FieldsV, req: FieldsV) -> FieldsV {
    sort_fields(without_keys(dedup_last(actual), req))
}

/// The characters of a string.
pub fn chars_of(s: &String) -> (r: Vec<char>)
    ensures
        r@ == s@,
{
    let n = s.as_str().unicode_len();
    let mut out: Vec<char> = Vec::new();
    let mut i: usize = 0;
    while i < n
        invariant
            n == s@.len(),
            i <= n,
            out@ == s@.take(i as int),
        decreases n - i,
    {
        let c = s.as_str().get_char(i);
        out.push(c);
        i += 1;
        assert(out@ =~= s@.take(i as int));
    }
    assert(s@.take(n as int) =~= s@);
    out
}

/// `a` comes before `b` in lexicographic order by character.
pub fn name_lt(a: &String, b: &String) -> (r: bool)
    ensures
        r == key_lt(a@, b@),
{
    let ca = chars_of(a);
    let cb = chars_of(b);
    let mut i: usize = 0;
    assert(a@.skip(0) =~= a@);
    assert(b@.skip(0) =~= b@);
    while i < ca.len() && i < cb.len() && ca[i] == cb[i]
        invariant
            i <= ca.len(),
            i <= cb.len(),
            ca@ == a@,
            cb@ == b@,
            ca@.take(i as int) == cb@.take(i as int),
            key_lt(a@, b@) == key_lt(a@.skip(i as int), b@.skip(i as int)),
        decreases ca.len() - i,
    {
        assert(a@.skip(i as int).drop_first() =~= a@.skip(i + 1));
        assert(b@.skip(i as int).drop_first() =~= b@.skip(i + 1));
        i += 1;
        assert(ca@.take(i as int) =~= cb@.take(i as int));
    }
    if i == ca.len() {
        i < cb.len()
    } else if i == cb.len() {
        false
    } else {
        assert(a@.skip(i as int)[0] == ca@[i as int]);
        assert(b@.skip(i as int)[0] == cb@[i as int]);
        ca[i] < cb[i]
    }
}


/// Index of the last field named `k`, if any.
pub fn find_last(fs: &Vec<(String, Ty)>, k: &String) -> (r: Option<usize>)
    ensures
        r is None <==> !has_key(view_fields(fs@), k@),
        r matches Some(i) ==> i < fs.len() && fs@[i as int].0@ == k@
            && fs@[i as int].1@ == last_val(view_fields(fs@), k@),
{
    let ghost vf = view_fields(fs@);
    proof {
        lemma_view_fields(fs@);
    }
    let mut i: usize = fs.len();
    assert(vf.take(i as int) =~= vf);
    while i > 0
        invariant
            i <= fs.len(),
            vf == view_fields(fs@),
            vf.len() == fs.len(),
            forall|j: int| 0 <= j < fs.len() ==> #[trigger] vf[j] == (fs@[j].0@, fs@[j].1@),
            has_key(vf, k@) == has_key(vf.take(i as int), k@),
            last_val(vf, k@) == last_val(vf.take(i as int), k@),
        decreases i,
    {
        assert(vf.take(i as int).drop_last() =~= vf.take(i - 1));
        assert(vf.take(i as int).last() == vf[i - 1]);
        if fs[i - 1].0 == *k {
            return Some(i - 1);
        }
        i -= 1;
    }
    None
}

/// `fs` without its fields named `k`.
pub fn remove_key_vec(fs: &Vec<(String, Ty)>, k: &String) -> (r: Vec<(String, Ty)>)
    ensures
        view_fields(r@) == remove_key(view_fields(fs@), k@),
{
    let ghost vf = view_fields(fs@);
    proof {
        lemma_view_fields(fs@);
    }
    let mut out: Vec<(String, Ty)> = Vec::new();
    let mut i: usize = 0;
    proof {
        lemma_view_fields(out@);
        assert(vf.take(0) =~= FieldsV::empty());
        assert(view_fields(out@) =~= remove_key(vf.take(0), k@));
    }
    while i < fs.len()
        invariant
            i <= fs.len(),
            vf == view_fields(fs@),
            vf.len() == fs.len(),
            forall|j: int| 0 <= j < fs.len() ==> #[trigger] vf[j] == (fs@[j].0@, fs@[j].1@),
            view_fields(out@) == remove_key(vf.take(i as int), k@),
        decreases fs.len() - i,
    {
        assert(vf.take(i + 1).drop_last() =~= vf.take(i as int));
        assert(vf.take(i + 1).last() == vf[i as int]);
        if fs[i].0 != *k {
            let c = ty_clone(&fs[i].1);
            let n = fs[i].0.clone();
            let ghost before = out@;
            out.push((n, c));
            proof {
                lemma_view_fields(before);
                lemma_view_fields(out@);
                assert(view_fields(out@) =~= view_fields(before).push(vf[i as int]));
            }
        }
        i += 1;
    }
    assert(vf.take(fs.len() as int) =~= vf);
    out
}

/// One field per name, carrying the last type given to that name.
pub fn dedup_fields(fs: &Vec<(String, Ty)>) -> (r: Vec<(String, Ty)>)
    ensures
        view_fields(r@) == dedup_last(view_fields(fs@)),
{
    let ghost vf = view_fields(fs@);
    proof {
        lemma_view_fields(fs@);
    }
    let mut out: Vec<(String, Ty)> = Vec::new();
    let mut i: usize = 0;
    proof {
        lemma_view_fields(out@);
        assert(vf.take(0) =~= FieldsV::empty());
        assert(view_fields(out@) =~= dedup_last(vf.take(0)));
    }
    while i < fs.len()
        invariant
            i <= fs.len(),
            vf == view_fields(fs@),
            vf.len() == fs.len(),
            forall|j: int| 0 <= j < fs.len() ==> #[trigger] vf[j] == (fs@[j].0@, fs@[j].1@),
            view_fields(out@) == dedup_last(vf.take(i as int)),
        decreases fs.len() - i,
    {
        assert(vf.take(i + 1).drop_last() =~= vf.take(i as int));
        assert(vf.take(i + 1).last() == vf[i as int]);
        let mut next = remove_key_vec(&out, &fs[i].0);
        let c = ty_clone(&fs[i].1);
        let n = fs[i].0.clone();
        let ghost before = next@;
        next.push((n, c));
        proof {
            lemma_view_fields(before);
            lemma_view_fields(next@);
            assert(view_fields(next@) =~= view_fields(before).push(vf[i as int]));
        }
        out = next;
        i += 1;
    }
    assert(vf.take(fs.len() as int) =~= vf);
    out
}

/// The fields of `fs` whose names are not names of `req`.
pub fn without_keys_vec(fs: &Vec<(String, Ty)>, req: &Vec<(String, Ty)>) -> (r: Vec<(String, Ty)>)
    ensures
        view_fields(r@) == without_keys(view_fields(fs@), view_fields(req@)),
{
    let ghost vf = view_fields(fs@);
    proof {
        lemma_view_fields(fs@);
    }
    let mut out: Vec<(String, Ty)> = Vec::new();
    let mut i: usize = 0;
    proof {
        lemma_view_fields(out@);
        assert(vf.take(0) =~= FieldsV::empty());
        assert(view_fields(out@) =~= without_keys(vf.take(0), view_fields(req@)));
    }
    while i < fs.len()
        invariant
            i <= fs.len(),
            vf == view_fields(fs@),
            vf.len() == fs.len(),
            forall|j: int| 0 <= j < fs.len() ==> #[trigger] vf[j] == (fs@[j].0@, fs@[j].1@),
            view_fields(out@) == without_keys(vf.take(i as int), view_fields(req@)),
        decreases fs.len() - i,
    {
        assert(vf.take(i + 1).drop_last() =~= vf.take(i as int));
        assert(vf.take(i + 1).last() == vf[i as int]);
        let found = find_last(req, &fs[i].0);
        if found.is_none() {
            let c = ty_clone(&fs[i].1);
            let n = fs[i].0.clone();
            let ghost before = out@;
            out.push((n, c));
            proof {
                lemma_view_fields(before);
                lemma_view_fields(out@);
                assert(view_fields(out@) =~= view_fields(before).push(vf[i as int]));
            }
        }
        i += 1;
    }
    assert(vf.take(fs.len() as int) =~= vf);
    out
}

/// Inserts `x` before the first field whose name is greater than its own.
fn insert_sorted_vec(fs: &mut Vec<(String, Ty)>, x: (String, Ty))
    ensures
        view_fields(final(fs)@) == insert_sorted(view_fields(old(fs)@), (x.0@, x.1@)),
{
    let ghost vf = view_fields(fs@);
    let ghost vx = (x.0@, x.1@);
    proof {
        lemma_view_fields(fs@);
    }
    let mut p: usize = 0;
    assert(vf.skip(0) =~= vf);
    assert(vf.take(0) + insert_sorted(vf, vx) =~= insert_sorted(vf, vx));
    let mut done = false;
    while p < fs.len() && !done
        invariant
            p <= fs.len(),
            vf == view_fields(fs@),
            vf.len() == fs.len(),
            forall|j: int| 0 <= j < fs.len() ==> #[trigger] vf[j] == (fs@[j].0@, fs@[j].1@),
            insert_sorted(vf, vx) == vf.take(p as int) + insert_sorted(vf.skip(p as int), vx),
            done ==> p < fs.len() && key_lt(vx.0, vf[p as int].0),
            vx == (x.0@, x.1@),
        decreases fs.len() - p, if done { 0int } else { 1int },
    {
        if name_lt(&x.0, &fs[p].0) {
            done = true;
        } else {
            let ghost sp = vf.skip(p as int);
            assert(sp[0] == vf[p as int]);
            assert(sp.drop_first() =~= vf.skip(p + 1));
            assert(insert_sorted(sp, vx) == seq![sp[0]] + insert_sorted(sp.drop_first(), vx));
            assert(vf.take(p + 1) + insert_sorted(vf.skip(p + 1), vx) =~= vf.take(p as int) + (seq![vf[p as int]]
                + insert_sorted(vf.skip(p + 1), vx)));
            p += 1;
        }
    }
    proof {
        if p < fs.len() {
            assert(vf.skip(p as int)[0] == vf[p as int]);
        } else {
            assert(vf.skip(p as int) =~= FieldsV::empty());
        }
    }
    let ghost before = fs@;
    fs.insert(p, x);
    proof {
        lemma_view_fields(fs@);
        assert(view_fields(fs@) =~= vf.take(p as int) + insert_sorted(vf.skip(p as int), vx));
    }
}

/// The fields ordered by name.
pub fn sort_fields_vec(fs: Vec<(String, Ty)>) -> (r: Vec<(String, Ty)>)
    ensures
        view_fields(r@) == sort_fields(view_fields(fs@)),
{
    let ghost vf = view_fields(fs@);
    proof {
        lemma_view_fields(fs@);
    }
    let mut out: Vec<(String, Ty)> = Vec::new();
    let mut i: usize = 0;
    proof {
        lemma_view_fields(out@);
        assert(vf.take(0) =~= FieldsV::empty());
        assert(view_fields(out@) =~= sort_fields(vf.take(0)));
    }
    while i < fs.len()
        invariant
            i <= fs.len(),
            vf == view_fields(fs@),
            vf.len() == fs.len(),
            forall|j: int| 0 <= j < fs.len() ==> #[trigger] vf[j] == (fs@[j].0@, fs@[j].1@),
            view_fields(out@) == sort_fields(vf.take(i as int)),
        decreases fs.len() - i,
    {
        assert(vf.take(i + 1).drop_last() =~= vf.take(i as int));
        assert(vf.take(i + 1).last() == vf[i as int]);
        let c = ty_clone(&fs[i].1);
        let n = fs[i].0.clone();
        insert_sorted_vec(&mut out, (n, c));
        i += 1;
    }
    assert(vf.take(fs.len() as int) =~= vf);
    out
}

/// The fields of `actual` left over when the names of `req` are taken out,
/// one per name, ordered by name.
pub fn residual_vec(actual: &Vec<(String, Ty)>, req: &Vec<(String, Ty)>) -> (r: Vec<(String, Ty)>)
    ensures
        view_fields(r@) == residual(view_fields(actual@), view_fields(req@)),
{
    let d = dedup_fields(actual);
    let w = without_keys_vec(&d, req);
    sort_fields_vec(w)
}


/// Every field of `a` is a field of `b`, and `a` is no larger.
pub open spec fn sub_fields(a: FieldsV, b: FieldsV) -> bool {
    &&& forall|i: int| 0 <= i < a.len() ==> b.contains(#[trigger] a[i])
    &&& field_sizes(a) <= field_sizes(b)
}

pub proof fn lemma_field_sizes_concat(a: FieldsV, b: FieldsV)
    ensures
        field_sizes(a + b) == field_sizes(a) + field_sizes(b),
    decreases b.len(),
{
    if b.len() == 0 {
        assert(a + b =~= a);
    } else {
        lemma_field_sizes_concat(a, b.drop_last());
        assert((a + b).drop_last() =~= a + b.drop_last());
        assert((a + b).last() == b.last());
    }
}

pub proof fn lemma_sub_fields_push(a: FieldsV, b: FieldsV, x: (Seq<char>, TyV))
    requires
        sub_fields(a, b),
    ensures
        sub_fields(a.push(x), b.push(x)),
{
    assert(b.push(x).drop_last() =~= b);
    assert(a.push(x).drop_last() =~= a);
    assert forall|i: int| 0 <= i < a.push(x).len() implies b.push(x).contains(#[trigger] a.push(x)[i]) by {
        if i < a.len() {
            let j = choose|j: int| 0 <= j < b.len() && b[j] == a[i];
            assert(b.push(x)[j] == a[i]);
        } else {
            assert(b.push(x)[b.len() as int] == x);
        }
    }
}

pub proof fn lemma_sub_fields_drop(a: FieldsV, b: FieldsV)
    requires
        sub_fields(a, b.drop_last()),
        b.len() > 0,
    ensures
        sub_fields(a, b),
{
    assert forall|i: int| 0 <= i < a.len() implies b.contains(#[trigger] a[i]) by {
        let j = choose|j: int| 0 <= j < b.drop_last().len() && b.drop_last()[j] == a[i];
        assert(b[j] == a[i]);
    }
}

pub proof fn lemma_sub_fields_trans(a: FieldsV, b: FieldsV, c: FieldsV)
    requires
        sub_fields(a, b),
        sub_fields(b, c),
    ensures
        sub_fields(a, c),
{
    assert forall|i: int| 0 <= i < a.len() implies c.contains(#[trigger] a[i]) by {
        let j = choose|j: int| 0 <= j < b.len() && b[j] == a[i];
        assert(c.contains(b[j]));
    }
}

pub proof fn lemma_sub_fields_refl(a: FieldsV)
    ensures
        sub_fields(a, a),
{
    assert forall|i: int| 0 <= i < a.len() implies a.contains(#[trigger] a[i]) by {}
}

pub proof fn lemma_remove_key_sub(fs: FieldsV, k: Seq<char>)
    ensures
        sub_fields(remove_key(fs, k), fs),
    decreases fs.len(),
{
    if fs.len() == 0 {
        lemma_sub_fields_refl(fs);
    } else {
        lemma_remove_key_sub(fs.drop_last(), k);
        let r = remove_key(fs.drop_last(), k);
        if fs.last().0 == k {
            lemma_sub_fields_drop(r, fs);
        } else {
            lemma_sub_fields_push(r, fs.drop_last(), fs.last());
            assert(fs.drop_last().push(fs.last()) =~= fs);
        }
    }
}

pub proof fn lemma_dedup_sub(fs: FieldsV)
    ensures
        sub_fields(dedup_last(fs), fs),
    decreases fs.len(),
{
    if fs.len() == 0 {
        lemma_sub_fields_refl(fs);
    } else {
        lemma_dedup_sub(fs.drop_last());
        let d = dedup_last(fs.drop_last());
        lemma_remove_key_sub(d, fs.last().0);
        lemma_sub_fields_trans(remove_key(d, fs.last().0), d, fs.drop_last());
        lemma_sub_fields_push(remove_key(d, fs.last().0), fs.drop_last(), fs.last());
        assert(fs.drop_last().push(fs.last()) =~= fs);
    }
}

pub proof fn lemma_without_keys_sub(fs: FieldsV, req: FieldsV)
    ensures
        sub_fields(without_keys(fs, req), fs),
    decreases fs.len(),
{
    if fs.len() == 0 {
        lemma_sub_fields_refl(fs);
    } else {
        lemma_without_keys_sub(fs.drop_last(), req);
        let r = without_keys(fs.drop_last(), req);
        if has_key(req, fs.last().0) {
            lemma_sub_fields_drop(r, fs);
        } else {
            lemma_sub_fields_push(r, fs.drop_last(), fs.last());
            assert(fs.drop_last().push(fs.last()) =~= fs);
        }
    }
}

pub proof fn lemma_insert_sorted_sub(fs: FieldsV, x: (Seq<char>, TyV))
    ensures
        field_sizes(insert_sorted(fs, x)) == field_sizes(fs) + field_sizes(seq![x]),
        forall|i: int| 0 <= i < insert_sorted(fs, x).len() ==> #[trigger] insert_sorted(fs, x)[i] == x
            || fs.contains(insert_sorted(fs, x)[i]),
        insert_sorted(fs, x).len() == fs.len() + 1,
    decreases fs.len(),
{
    if fs.len() == 0 {
    } else if key_lt(x.0, fs[0].0) {
        lemma_field_sizes_concat(seq![x], fs);
        assert forall|i: int| 0 <= i < insert_sorted(fs, x).len() implies #[trigger] insert_sorted(fs, x)[i] == x
            || fs.contains(insert_sorted(fs, x)[i]) by {
            if i > 0 {
                assert(insert_sorted(fs, x)[i] == fs[i - 1]);
            }
        }
    } else {
        let rest = fs.drop_first();
        lemma_insert_sorted_sub(rest, x);
        lemma_field_sizes_concat(seq![fs[0]], insert_sorted(rest, x));
        lemma_field_sizes_concat(seq![fs[0]], rest);
        assert(seq![fs[0]] + rest =~= fs);
        assert forall|i: int| 0 <= i < insert_sorted(fs, x).len() implies #[trigger] insert_sorted(fs, x)[i] == x
            || fs.contains(insert_sorted(fs, x)[i]) by {
            if i == 0 {
                assert(insert_sorted(fs, x)[0] == fs[0]);
            } else {
                assert(insert_sorted(fs, x)[i] == insert_sorted(rest, x)[i - 1]);
                if insert_sorted(rest, x)[i - 1] != x {
                    let j = choose|j: int| 0 <= j < rest.len() && rest[j] == insert_sorted(rest, x)[i - 1];
                    assert(fs[j + 1] == rest[j]);
                }
            }
        }
    }
}

pub proof fn lemma_sort_sub(fs: FieldsV)
    ensures
        sub_fields(sort_fields(fs), fs),
        field_sizes(sort_fields(fs)) == field_sizes(fs),
    decreases fs.len(),
{
    if fs.len() == 0 {
        lemma_sub_fields_refl(fs);
    } else {
        lemma_sort_sub(fs.drop_last());
        let r = sort_fields(fs.drop_last());
        lemma_insert_sorted_sub(r, fs.last());
        assert(field_sizes(seq![fs.last()]) == field_sizes(seq![fs.last()].drop_last()) + crate::ty::size(fs.last().1));
        assert(seq![fs.last()].drop_last() =~= FieldsV::empty());
        assert forall|i: int| 0 <= i < sort_fields(fs).len() implies fs.contains(#[trigger] sort_fields(fs)[i]) by {
            let e = sort_fields(fs)[i];
            if e == fs.last() {
                assert(fs[fs.len() - 1] == e);
            } else {
                let j = choose|j: int| 0 <= j < r.len() && r[j] == e;
                let m = choose|m: int| 0 <= m < fs.drop_last().len() && fs.drop_last()[m] == r[j];
                assert(fs[m] == e);
            }
        }
    }
}

/// What is left over of `actual` is made of fields of `actual`.
pub proof fn lemma_residual_sub(actual: FieldsV, req: FieldsV)
    ensures
        sub_fields(residual(actual, req), actual),
{
    lemma_dedup_sub(actual);
    lemma_without_keys_sub(dedup_last(actual), req);
    lemma_sort_sub(without_keys(dedup_last(actual), req));
    lemma_sub_fields_trans(without_keys(dedup_last(actual), req), dedup_last(actual), actual);
    lemma_sub_fields_trans(residual(actual, req), without_keys(dedup_last(actual), req), actual);
}

/// The last field named `k` is a field of `fs`.
pub proof fn lemma_last_val_in(fs: FieldsV, k: Seq<char>)
    requires
        has_key(fs, k),
    ensures
        fs.contains((k, last_val(fs, k))),
    decreases fs.len(),
{
    if fs.last().0 == k {
        assert(fs[fs.len() - 1] == (k, last_val(fs, k)));
    } else {
        lemma_last_val_in(fs.drop_last(), k);
        let j = choose|j: int| 0 <= j < fs.drop_last().len() && fs.drop_last()[j] == (k, last_val(fs.drop_last(), k));
        assert(fs[j] == fs.drop_last()[j]);
    }
}


/// The fields with each type mapped by `f`, names kept.
pub open spec fn map_vals(fs: FieldsV, f: spec_fn(TyV) -> TyV) -> FieldsV {
    fs.map_values(|e: (Seq<char>, TyV)| (e.0, f(e.1)))
}

proof fn lemma_map_vals_drop_last(fs: FieldsV, f: spec_fn(TyV) -> TyV)
    requires
        fs.len() > 0,
    ensures
        map_vals(fs, f).drop_last() == map_vals(fs.drop_last(), f),
        map_vals(fs, f).last() == (fs.last().0, f(fs.last().1)),
{
    assert(map_vals(fs, f).drop_last() =~= map_vals(fs.drop_last(), f));
}

/// Mapping the types keeps the names, and maps the last type of each name.
pub proof fn lemma_has_key_map(fs: FieldsV, f: spec_fn(TyV) -> TyV, k: Seq<char>)
    ensures
        has_key(map_vals(fs, f), k) == has_key(fs, k),
        has_key(fs, k) ==> last_val(map_vals(fs, f), k) == f(last_val(fs, k)),
    decreases fs.len(),
{
    if fs.len() > 0 {
        lemma_map_vals_drop_last(fs, f);
        lemma_has_key_map(fs.drop_last(), f, k);
    }
}

pub proof fn lemma_remove_key_map(fs: FieldsV, f: spec_fn(TyV) -> TyV, k: Seq<char>)
    ensures
        remove_key(map_vals(fs, f), k) == map_vals(remove_key(fs, k), f),
    decreases fs.len(),
{
    if fs.len() == 0 {
        assert(map_vals(fs, f) =~= fs);
        assert(map_vals(remove_key(fs, k), f) =~= fs);
    } else {
        lemma_map_vals_drop_last(fs, f);
        lemma_remove_key_map(fs.drop_last(), f, k);
        let r = remove_key(fs.drop_last(), k);
        if fs.last().0 != k {
            assert(map_vals(r, f).push((fs.last().0, f(fs.last().1))) =~= map_vals(r.push(fs.last()), f));
        }
    }
}

pub proof fn lemma_dedup_map(fs: FieldsV, f: spec_fn(TyV) -> TyV)
    ensures
        dedup_last(map_vals(fs, f)) == map_vals(dedup_last(fs), f),
    decreases fs.len(),
{
    if fs.len() == 0 {
        assert(map_vals(fs, f) =~= fs);
        assert(map_vals(dedup_last(fs), f) =~= fs);
    } else {
        lemma_map_vals_drop_last(fs, f);
        lemma_dedup_map(fs.drop_last(), f);
        let d = dedup_last(fs.drop_last());
        lemma_remove_key_map(d, f, fs.last().0);
        let r = remove_key(d, fs.last().0);
        assert(map_vals(r, f).push((fs.last().0, f(fs.last().1))) =~= map_vals(r.push(fs.last()), f));
    }
}

pub proof fn lemma_without_keys_map(fs: FieldsV, f: spec_fn(TyV) -> TyV, req: FieldsV, g: spec_fn(TyV) -> TyV)
    ensures
        without_keys(map_vals(fs, f), map_vals(req, g)) == map_vals(without_keys(fs, req), f),
    decreases fs.len(),
{
    if fs.len() == 0 {
        assert(map_vals(fs, f) =~= fs);
        assert(map_vals(without_keys(fs, req), f) =~= fs);
    } else {
        lemma_map_vals_drop_last(fs, f);
        lemma_without_keys_map(fs.drop_last(), f, req, g);
        lemma_has_key_map(req, g, fs.last().0);
        let r = without_keys(fs.drop_last(), req);
        if !has_key(req, fs.last().0) {
            assert(map_vals(r, f).push((fs.last().0, f(fs.last().1))) =~= map_vals(r.push(fs.last()), f));
        }
    }
}

pub proof fn lemma_insert_sorted_map(fs: FieldsV, f: spec_fn(TyV) -> TyV, x: (Seq<char>, TyV))
    ensures
        insert_sorted(map_vals(fs, f), (x.0, f(x.1))) == map_vals(insert_sorted(fs, x), f),
    decreases fs.len(),
{
    let m = map_vals(fs, f);
    let y = (x.0, f(x.1));
    if fs.len() == 0 {
        assert(map_vals(seq![x], f) =~= seq![y]);
    } else if key_lt(x.0, fs[0].0) {
        assert(seq![y] + m =~= map_vals(seq![x] + fs, f));
    } else {
        assert(m.drop_first() =~= map_vals(fs.drop_first(), f));
        lemma_insert_sorted_map(fs.drop_first(), f, x);
        let ins = insert_sorted(fs.drop_first(), x);
        assert(seq![m[0]] + map_vals(ins, f) =~= map_vals(seq![fs[0]] + ins, f));
    }
}

pub proof fn lemma_sort_map(fs: FieldsV, f: spec_fn(TyV) -> TyV)
    ensures
        sort_fields(map_vals(fs, f)) == map_vals(sort_fields(fs), f),
    decreases fs.len(),
{
    if fs.len() == 0 {
        assert(map_vals(fs, f) =~= fs);
        assert(map_vals(sort_fields(fs), f) =~= fs);
    } else {
        lemma_map_vals_drop_last(fs, f);
        lemma_sort_map(fs.drop_last(), f);
        lemma_insert_sorted_map(sort_fields(fs.drop_last()), f, fs.last());
    }
}

/// What is left over does not depend on the types, only on the names.
pub proof fn lemma_residual_map(act: FieldsV, f: spec_fn(TyV) -> TyV, req: FieldsV, g: spec_fn(TyV) -> TyV)
    ensures
        residual(map_vals(act, f), map_vals(req, g)) == map_vals(residual(act, req), f),
{
    lemma_dedup_map(act, f);
    lemma_without_keys_map(dedup_last(act), f, req, g);
    lemma_sort_map(without_keys(dedup_last(act), req), f);
}

/// The fields of `remove_key(fs, k)` are fields of `fs` with another name.
pub proof fn lemma_remove_key_elems(fs: FieldsV, k: Seq<char>)
    ensures
        forall|i: int| 0 <= i < remove_key(fs, k).len() ==> (#[trigger] remove_key(fs, k)[i]).0 != k
            && fs.contains(remove_key(fs, k)[i]),
    decreases fs.len(),
{
    lemma_remove_key_sub(fs, k);
    if fs.len() > 0 {
        lemma_remove_key_elems(fs.drop_last(), k);
        let r = remove_key(fs.drop_last(), k);
        assert forall|i: int| 0 <= i < remove_key(fs, k).len() implies (#[trigger] remove_key(fs, k)[i]).0 != k by {
            if i < r.len() {
                assert(remove_key(fs, k)[i] == r[i]);
            }
        }
    }
}

/// Each field that de-duplication keeps carries the last type of its name.
pub proof fn lemma_dedup_entries(fs: FieldsV)
    ensures
        forall|i: int| 0 <= i < dedup_last(fs).len() ==> has_key(fs, (#[trigger] dedup_last(fs)[i]).0)
            && dedup_last(fs)[i].1 == last_val(fs, dedup_last(fs)[i].0),
    decreases fs.len(),
{
    if fs.len() > 0 {
        let k = fs.last().0;
        let d = dedup_last(fs.drop_last());
        lemma_dedup_entries(fs.drop_last());
        lemma_remove_key_elems(d, k);
        let r = remove_key(d, k);
        assert forall|i: int| 0 <= i < dedup_last(fs).len() implies has_key(fs, (#[trigger] dedup_last(fs)[i]).0)
            && dedup_last(fs)[i].1 == last_val(fs, dedup_last(fs)[i].0) by {
            if i < r.len() {
                assert(dedup_last(fs)[i] == r[i]);
                let j = choose|j: int| 0 <= j < d.len() && d[j] == r[i];
                assert(has_key(fs.drop_last(), d[j].0));
            }
        }
    }
}


/// Ordering keeps the number of fields.
pub proof fn lemma_sort_len(fs: FieldsV)
    ensures
        sort_fields(fs).len() == fs.len(),
    decreases fs.len(),
{
    if fs.len() > 0 {
        lemma_sort_len(fs.drop_last());
        lemma_insert_sorted_sub(sort_fields(fs.drop_last()), fs.last());
    }
}

} // verus!
