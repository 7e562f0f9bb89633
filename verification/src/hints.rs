//! Hints on where type constructor names come from, for unification
//! diagnostics.
use vstd::prelude::*;
use crate::fields::{key_lt, name_lt};
use crate::names::{first_unqual_ctor, is_ascii_upper, str_chars, str_eq, ty_has_list_char, ty_has_unqualified_type_ctor, QualName, UnqualName};
use crate::ty::Ty;
use crate::unify::UnifyError;

verus! {

/// What unqualified names resolve to. In each list a later entry for a name
/// replaces an earlier one.
#[derive(Debug, Default)]
pub struct NameHints {
    /// Unqualified type constructor name and its qualified name.
    pub type_ctor: Vec<(UnqualName, QualName)>,
    /// Unqualified value constructor name and its qualified name.
    pub value_ctor: Vec<(UnqualName, QualName)>,
    /// Unqualified type alias name and its qualified name.
    pub type_alias: Vec<(UnqualName, QualName)>,
    /// Local aliases whose right-hand side is a bare name.
    pub type_alias_rhs_unqual: Vec<(UnqualName, UnqualName)>,
}

/// A qualified name as `(module, name)`.
pub type QualV = (Seq<char>, Seq<char>);

pub open spec fn qual_view(q: QualName) -> QualV {
    (q.module.0@, q.name.0@)
}

/// `module.name`.
pub open spec fn qual_key(q: QualV) -> Seq<char> {
    q.0 + seq!['.'] + q.1
}

pub open spec fn entry_views(es: Seq<(UnqualName, QualName)>) -> Seq<(Seq<char>, QualV)> {
    es.map_values(|e: (UnqualName, QualName)| (e.0.0@, qual_view(e.1)))
}

/// What `k` resolves to: the last entry for it.
pub open spec fn resolve(es: Seq<(Seq<char>, QualV)>, k: Seq<char>) -> Option<QualV>
    decreases es.len(),
{
    if es.len() == 0 {
        None
    } else if es.last().0 == k {
        Some(es.last().1)
    } else {
        resolve(es.drop_last(), k)
    }
}

/// The last entry for `name`, if any.
pub(crate) fn lookup<'a>(es: &'a Vec<(UnqualName, QualName)>, name: &str) -> (r: Option<&'a QualName>)
    ensures
        match resolve(entry_views(es@), name@) {
            Some(q) => r is Some && qual_view(*r->Some_0) == q,
            None => r is None,
        },
{
    let ghost ev = entry_views(es@);
    let mut i: usize = es.len();
    assert(ev.take(i as int) =~= ev);
    while i > 0
        invariant
            i <= es.len(),
            ev == entry_views(es@),
            resolve(ev, name@) == resolve(ev.take(i as int), name@),
        decreases i,
    {
        let ghost t = ev.take(i as int);
        proof {
            assert(t.drop_last() =~= ev.take(i - 1));
            assert(t.last() == ev[i - 1]);
        }
        if str_eq(es[i - 1].0.0.as_str(), name) {
            return Some(&es[i - 1].1);
        }
        i -= 1;
    }
    assert(ev.take(0) =~= Seq::<(Seq<char>, QualV)>::empty());
    None
}

/// The hint that an unqualified name resolves to `q`.
pub open spec fn ctor_hint_text(name: Seq<char>, q: QualV) -> Seq<char> {
    " (hint: type ctor `"@ + name + "` resolves to `"@ + qual_key(q) + "`)"@
}

/// The hint for a unification failure: for the first of `a` and `b` whose
/// first unqualified type constructor has a known resolution, that
/// resolution; otherwise nothing.
pub open spec fn unify_hint(a: crate::ty::TyV, b: crate::ty::TyV, es: Seq<(Seq<char>, QualV)>) -> Seq<char> {
    let na = first_unqual_ctor(a);
    let nb = first_unqual_ctor(b);
    if na is Some && resolve(es, na->Some_0) is Some {
        ctor_hint_text(na->Some_0, resolve(es, na->Some_0)->Some_0)
    } else if nb is Some && resolve(es, nb->Some_0) is Some {
        ctor_hint_text(nb->Some_0, resolve(es, nb->Some_0)->Some_0)
    } else {
        Seq::empty()
    }
}

fn append_key(out: &mut String, q: &QualName)
    ensures
        final(out)@ == old(out)@ + qual_key(qual_view(*q)),
{
    let k = q.as_key();
    out.append(k.as_str());
}

/// The hint for a unification failure of `a` with `b`.
pub fn format_unify_name_hints(a: &Ty, b: &Ty, hints: &NameHints) -> (r: String)
    ensures
        r@ == unify_hint(a@, b@, entry_views(hints.type_ctor@)),
{
    let na = ty_has_unqualified_type_ctor(a);
    if let Some(name) = &na {
        if let Some(q) = lookup(&hints.type_ctor, name.as_str()) {
            let mut out = String::from_str(" (hint: type ctor `");
            out.append(name.as_str());
            out.append("` resolves to `");
            append_key(&mut out, q);
            out.append("`)");
            return out;
        }
    }
    let nb = ty_has_unqualified_type_ctor(b);
    if let Some(name) = &nb {
        if let Some(q) = lookup(&hints.type_ctor, name.as_str()) {
            let mut out = String::from_str(" (hint: type ctor `");
            out.append(name.as_str());
            out.append("` resolves to `");
            append_key(&mut out, q);
            out.append("`)");
            return out;
        }
    }
    String::new()
}

/// The hint for an unknown constructor name.
pub open spec fn unknown_ctor_hint(name: Seq<char>, es: Seq<(Seq<char>, QualV)>) -> Seq<char> {
    if name.contains('.') {
        " (hint: check qualified imports / aliasing)"@
    } else if name.len() > 0 && is_ascii_upper(name[0]) && resolve(es, name) is Some {
        " (hint: `"@ + name + "` resolves to `"@ + qual_key(resolve(es, name)->Some_0) + "`)"@
    } else {
        Seq::empty()
    }
}

/// The hint for an unknown constructor name.
pub fn format_unknown_ctor_name_hint(name: &str, hints: &NameHints) -> (r: String)
    ensures
        r@ == unknown_ctor_hint(name@, entry_views(hints.type_ctor@)),
{
    let cs = str_chars(name);
    let mut i: usize = 0;
    while i < cs.len()
        invariant
            i <= cs.len(),
            cs@ == name@,
            forall|j: int| 0 <= j < i ==> cs@[j] != '.',
        decreases cs.len() - i,
    {
        if cs[i] == '.' {
            assert(name@.contains('.')) by {
                assert(name@[i as int] == '.');
            }
            return String::from_str(" (hint: check qualified imports / aliasing)");
        }
        i += 1;
    }
    assert(!name@.contains('.'));
    if cs.len() > 0 && 'A' <= cs[0] && cs[0] <= 'Z' {
        if let Some(q) = lookup(&hints.type_ctor, name) {
            let mut out = String::from_str(" (hint: `");
            out.append(name);
            out.append("` resolves to `");
            append_key(&mut out, q);
            out.append("`)");
            return out;
        }
    }
    String::new()
}

/// The kind of name a definition hint is about.
#[derive(Debug, Clone, Copy, PartialEq, Eq, Hash, Structural)]
pub enum DefHintKind {
    TypeCtor,
    TypeAlias,
}

/// A name seen in a type, with what it resolves to.
#[derive(Debug, Clone, PartialEq, Eq, Hash)]
pub struct DefHint {
    pub kind: DefHintKind,
    /// Unqualified name that appeared in the type or error.
    pub unqualified: UnqualName,
    /// Resolved qualified name.
    pub qualified: QualName,
}

/// A definition hint as `(kind, name, (module, name))`.
pub type DefHintV = (DefHintKind, Seq<char>, QualV);

pub open spec fn def_hint_view(h: DefHint) -> DefHintV {
    (h.kind, h.unqualified.0@, qual_view(h.qualified))
}

/// The hint for the first unqualified type constructor of `t`, if it
/// resolves.
pub open spec fn ctor_hint_of(t: crate::ty::TyV, es: Seq<(Seq<char>, QualV)>) -> Option<DefHintV> {
    match first_unqual_ctor(t) {
        Some(n) => match resolve(es, n) {
            Some(q) => Some((DefHintKind::TypeCtor, n, q)),
            None => None,
        },
        None => None,
    }
}

/// `x` sorts before `y`: by name, then by qualified key.
pub open spec fn hint_lt(x: DefHintV, y: DefHintV) -> bool {
    key_lt(x.1, y.1) || (x.1 == y.1 && key_lt(qual_key(x.2), qual_key(y.2)))
}

/// The hints for `a` and `b`, ordered by name and key, each once.
pub open spec fn def_hints(a: crate::ty::TyV, b: crate::ty::TyV, es: Seq<(Seq<char>, QualV)>) -> Seq<DefHintV> {
    match (ctor_hint_of(a, es), ctor_hint_of(b, es)) {
        (Some(x), Some(y)) => if x == y {
            seq![x]
        } else if hint_lt(y, x) {
            seq![y, x]
        } else {
            seq![x, y]
        },
        (Some(x), None) => seq![x],
        (None, Some(y)) => seq![y],
        (None, None) => Seq::empty(),
    }
}

fn ctor_hint(t: &Ty, hints: &NameHints) -> (r: Option<DefHint>)
    ensures
        match ctor_hint_of(t@, entry_views(hints.type_ctor@)) {
            Some(h) => r is Some && def_hint_view(r->Some_0) == h,
            None => r is None,
        },
{
    match ty_has_unqualified_type_ctor(t) {
        Some(name) => match lookup(&hints.type_ctor, name.as_str()) {
            Some(q) => {
                let qm = q.module.0.clone();
                let qn = q.name.0.clone();
                Some(
                    DefHint {
                        kind: DefHintKind::TypeCtor,
                        unqualified: UnqualName(name),
                        qualified: QualName { module: crate::names::ModuleName(qm), name: UnqualName(qn) },
                    },
                )
            },
            None => None,
        },
        None => None,
    }
}

fn same_hint(x: &DefHint, y: &DefHint) -> (r: bool)
    ensures
        r == (def_hint_view(*x) == def_hint_view(*y)),
{
    x.kind == y.kind && x.unqualified.0 == y.unqualified.0 && x.qualified.module.0 == y.qualified.module.0
        && x.qualified.name.0 == y.qualified.name.0
}

fn hint_before(x: &DefHint, y: &DefHint) -> (r: bool)
    ensures
        r == hint_lt(def_hint_view(*x), def_hint_view(*y)),
{
    if name_lt(&x.unqualified.0, &y.unqualified.0) {
        return true;
    }
    if x.unqualified.0 != y.unqualified.0 {
        return false;
    }
    let kx = x.qualified.as_key();
    let ky = y.qualified.as_key();
    name_lt(&kx, &ky)
}

/// The definition hints for a unification failure of `a` with `b`.
pub fn collect_unify_def_hints(a: &Ty, b: &Ty, hints: &NameHints) -> (r: Vec<DefHint>)
    ensures
        r@.map_values(|h: DefHint| def_hint_view(h)) == def_hints(a@, b@, entry_views(hints.type_ctor@)),
{
    let ha = ctor_hint(a, hints);
    let hb = ctor_hint(b, hints);
    let mut out: Vec<DefHint> = Vec::new();
    match (ha, hb) {
        (Some(x), Some(y)) => {
            if same_hint(&x, &y) {
                out.push(x);
            } else if hint_before(&y, &x) {
                out.push(y);
                out.push(x);
            } else {
                out.push(x);
                out.push(y);
            }
        },
        (Some(x), None) => {
            out.push(x);
        },
        (None, Some(y)) => {
            out.push(y);
        },
        (None, None) => {},
    }
    assert(out@.map_values(|h: DefHint| def_hint_view(h)) =~= def_hints(a@, b@, entry_views(hints.type_ctor@)));
    out
}

/// The text of a failed unification: the error, the goal with both sides
/// (variables named alike), then the hint and the notes.
pub open spec fn unify_goal_text(e: Seq<char>, ctx: Seq<char>, a: Seq<char>, b: Seq<char>, hint: Seq<char>, notes: Seq<char>) -> Seq<char> {
    e + " (unify goal: "@ + ctx + ": here = "@ + a + ", other = "@ + b + ")"@ + hint + notes
}

/// The message for a failed unification of `a` with `b` in context `ctx`.
pub fn unify_goal_message(e: UnifyError, ctx: &str, a: &Ty, b: &Ty, hint: &str, notes: &str) -> (r: String)
    ensures
        r@ == unify_goal_text(
            e.message_spec(),
            ctx@,
            crate::display::render(a@, 0, crate::display::pair_names(a@, b@)),
            crate::display::render(b@, 0, crate::display::pair_names(a@, b@)),
            hint@,
            notes@,
        ),
{
    let (pa, pb) = crate::display::pretty_ty_pair(a, b);
    let mut out = e.message();
    out.append(" (unify goal: ");
    out.append(ctx);
    out.append(": here = ");
    out.append(pa.as_str());
    out.append(", other = ");
    out.append(pb.as_str());
    out.append(")");
    out.append(hint);
    out.append(notes);
    out
}


/// The rank by which hints of each kind are ordered: constructors first.
pub open spec fn kind_rank(k: DefHintKind) -> int {
    match k {
        DefHintKind::TypeCtor => 0,
        DefHintKind::TypeAlias => 2,
    }
}

/// The order of evidence: by kind, then by name, then by qualified key.
pub open spec fn evidence_lt(x: DefHintV, y: DefHintV) -> bool {
    kind_rank(x.0) < kind_rank(y.0) || (x.0 == y.0 && hint_lt(x, y))
}

/// Inserts `x` before the first hint that comes after it.
pub open spec fn insert_evidence(s: Seq<DefHintV>, x: DefHintV) -> Seq<DefHintV>
    decreases s.len(),
{
    if s.len() == 0 {
        seq![x]
    } else if evidence_lt(x, s[0]) {
        seq![x] + s
    } else {
        seq![s[0]] + insert_evidence(s.drop_first(), x)
    }
}

/// The hints in evidence order; hints that compare equal keep their order.
pub open spec fn sort_evidence(s: Seq<DefHintV>) -> Seq<DefHintV>
    decreases s.len(),
{
    if s.len() == 0 {
        s
    } else {
        insert_evidence(sort_evidence(s.drop_last()), s.last())
    }
}

/// Drops each hint equal to the one before it.
pub open spec fn dedup_hints(s: Seq<DefHintV>) -> Seq<DefHintV>
    decreases s.len(),
{
    if s.len() <= 1 {
        s
    } else if s.last() == s[s.len() - 2] {
        dedup_hints(s.drop_last())
    } else {
        dedup_hints(s.drop_last()).push(s.last())
    }
}

/// Alias uses seen while the types were built, as alias hints.
pub open spec fn alias_hints(es: Seq<(Seq<char>, QualV)>) -> Seq<DefHintV> {
    es.map_values(|e: (Seq<char>, QualV)| (DefHintKind::TypeAlias, e.0, e.1))
}

/// The hint for the conventional `String` alias: what it resolves to, or
/// `Prelude.String`.
pub open spec fn string_alias_hint(aliases: Seq<(Seq<char>, QualV)>) -> DefHintV {
    (DefHintKind::TypeAlias, "String"@, match resolve(aliases, "String"@) {
        Some(q) => q,
        None => ("Prelude"@, "String"@),
    })
}

/// The evidence for a failed unification of `a` with `b`: the constructor
/// hints of both sides, the alias uses seen, and the `String` alias when a
/// side is `[Char]`; ordered, each once.
pub open spec fn unify_evidence_v(
    a: crate::ty::TyV,
    b: crate::ty::TyV,
    ctors: Seq<(Seq<char>, QualV)>,
    aliases: Seq<(Seq<char>, QualV)>,
    seen: Seq<(Seq<char>, QualV)>,
) -> Seq<DefHintV> {
    let list_char = crate::ty::TyV::List(Box::new(crate::ty::TyV::Con("Char"@)));
    let raw = def_hints(a, b, ctors) + alias_hints(seen) + if a == list_char || b == list_char {
        seq![string_alias_hint(aliases)]
    } else {
        Seq::empty()
    };
    dedup_hints(sort_evidence(raw))
}

fn copy_hint(h: &DefHint) -> (r: DefHint)
    ensures
        def_hint_view(r) == def_hint_view(*h),
{
    DefHint {
        kind: h.kind,
        unqualified: UnqualName(h.unqualified.0.clone()),
        qualified: QualName {
            module: crate::names::ModuleName(h.qualified.module.0.clone()),
            name: UnqualName(h.qualified.name.0.clone()),
        },
    }
}

fn evidence_before(x: &DefHint, y: &DefHint) -> (r: bool)
    ensures
        r == evidence_lt(def_hint_view(*x), def_hint_view(*y)),
{
    let rx: u8 = match x.kind {
        DefHintKind::TypeCtor => 0,
        DefHintKind::TypeAlias => 2,
    };
    let ry: u8 = match y.kind {
        DefHintKind::TypeCtor => 0,
        DefHintKind::TypeAlias => 2,
    };
    if rx < ry {
        return true;
    }
    if rx != ry {
        return false;
    }
    hint_before(x, y)
}

pub open spec fn hint_views(v: Seq<DefHint>) -> Seq<DefHintV> {
    v.map_values(|h: DefHint| def_hint_view(h))
}

fn insert_evidence_vec(v: &mut Vec<DefHint>, x: DefHint)
    ensures
        hint_views(final(v)@) == insert_evidence(hint_views(old(v)@), def_hint_view(x)),
{
    let ghost s = hint_views(v@);
    let ghost xv = def_hint_view(x);
    let mut p: usize = 0;
    assert(s.skip(0) =~= s);
    assert(s.take(0) + insert_evidence(s, xv) =~= insert_evidence(s, xv));
    let mut done = false;
    while p < v.len() && !done
        invariant
            p <= v.len(),
            s == hint_views(v@),
            xv == def_hint_view(x),
            insert_evidence(s, xv) == s.take(p as int) + insert_evidence(s.skip(p as int), xv),
            done ==> p < v.len() && evidence_lt(xv, s[p as int]),
        decreases v.len() - p, if done { 0int } else { 1int },
    {
        if evidence_before(&x, &v[p]) {
            done = true;
        } else {
            let ghost sp = s.skip(p as int);
            assert(sp[0] == s[p as int]);
            assert(sp.drop_first() =~= s.skip(p + 1));
            assert(s.take(p + 1) + insert_evidence(s.skip(p + 1), xv) =~= s.take(p as int) + (seq![s[p as int]]
                + insert_evidence(s.skip(p + 1), xv)));
            p += 1;
        }
    }
    proof {
        if p < v.len() {
            assert(s.skip(p as int)[0] == s[p as int]);
        } else {
            assert(s.skip(p as int) =~= Seq::<DefHintV>::empty());
        }
    }
    v.insert(p, x);
    assert(hint_views(v@) =~= s.take(p as int) + insert_evidence(s.skip(p as int), xv));
}

/// The definition evidence for a failed unification of `a` with `b`, given
/// the alias uses `seen` while the types were built.
pub fn unify_def_evidence(a: &Ty, b: &Ty, hints: &NameHints, seen: &Vec<(UnqualName, QualName)>) -> (r: Vec<DefHint>)
    ensures
        hint_views(r@) == unify_evidence_v(
            a@,
            b@,
            entry_views(hints.type_ctor@),
            entry_views(hints.type_alias@),
            entry_views(seen@),
        ),
{
    let ghost sv = entry_views(seen@);
    let mut raw = collect_unify_def_hints(a, b, hints);
    let ghost base = hint_views(raw@);
    assert(base == def_hints(a@, b@, entry_views(hints.type_ctor@)));
    let mut i: usize = 0;
    while i < seen.len()
        invariant
            i <= seen.len(),
            sv == entry_views(seen@),
            hint_views(raw@) == base + alias_hints(sv.take(i as int)),
        decreases seen.len() - i,
    {
        let e = &seen[i];
        let h = DefHint {
            kind: DefHintKind::TypeAlias,
            unqualified: UnqualName(e.0.0.clone()),
            qualified: QualName {
                module: crate::names::ModuleName(e.1.module.0.clone()),
                name: UnqualName(e.1.name.0.clone()),
            },
        };
        let ghost before = hint_views(raw@);
        let ghost hv = def_hint_view(h);
        assert(sv[i as int] == (seen@[i as int].0.0@, qual_view(seen@[i as int].1)));
        assert(hv == (DefHintKind::TypeAlias, sv[i as int].0, sv[i as int].1));
        raw.push(h);
        proof {
            assert(hint_views(raw@) =~= before.push(hv));
            assert(alias_hints(sv.take(i + 1)) =~= alias_hints(sv.take(i as int)).push((DefHintKind::TypeAlias, sv[i as int].0, sv[i as int].1)));
            assert(hint_views(raw@) =~= base + alias_hints(sv.take(i + 1)));
        }
        i += 1;
    }
    assert(sv.take(seen.len() as int) =~= sv);
    let ghost with_seen = hint_views(raw@);
    if ty_has_list_char(a) || ty_has_list_char(b) {
        let q = match lookup(&hints.type_alias, "String") {
            Some(q) => QualName {
                module: crate::names::ModuleName(q.module.0.clone()),
                name: UnqualName(q.name.0.clone()),
            },
            None => QualName {
                module: crate::names::ModuleName(String::from_str("Prelude")),
                name: UnqualName(String::from_str("String")),
            },
        };
        let h = DefHint { kind: DefHintKind::TypeAlias, unqualified: UnqualName(String::from_str("String")), qualified: q };
        raw.push(h);
        assert(hint_views(raw@) =~= with_seen + seq![string_alias_hint(entry_views(hints.type_alias@))]);
    } else {
        assert(hint_views(raw@) =~= with_seen + Seq::<DefHintV>::empty());
    }
    let ghost all = hint_views(raw@);
    let mut sorted: Vec<DefHint> = Vec::new();
    let mut k: usize = 0;
    assert(all.take(0) =~= Seq::<DefHintV>::empty());
    assert(hint_views(sorted@) =~= Seq::<DefHintV>::empty());
    while k < raw.len()
        invariant
            k <= raw.len(),
            all == hint_views(raw@),
            hint_views(sorted@) == sort_evidence(all.take(k as int)),
        decreases raw.len() - k,
    {
        assert(all.take(k + 1).drop_last() =~= all.take(k as int));
        assert(all[k as int] == def_hint_view(raw@[k as int]));
        insert_evidence_vec(&mut sorted, copy_hint(&raw[k]));
        k += 1;
    }
    assert(all.take(raw.len() as int) =~= all);
    let ghost ss = hint_views(sorted@);
    let mut out: Vec<DefHint> = Vec::new();
    let mut j: usize = 0;
    assert(ss.take(0) =~= Seq::<DefHintV>::empty());
    assert(hint_views(out@) =~= Seq::<DefHintV>::empty());
    while j < sorted.len()
        invariant
            j <= sorted.len(),
            ss == hint_views(sorted@),
            hint_views(out@) == dedup_hints(ss.take(j as int)),
        decreases sorted.len() - j,
    {
        let ghost t1 = ss.take(j + 1);
        proof {
            assert(t1.drop_last() =~= ss.take(j as int));
            assert(t1.last() == ss[j as int]);
            if j > 0 {
                assert(t1[j - 1] == ss[j - 1]);
            }
        }
        if j == 0 || !same_hint(&sorted[j], &sorted[j - 1]) {
            let ghost before = out@;
            out.push(copy_hint(&sorted[j]));
            proof {
                if j == 0 {
                    assert(dedup_hints(t1) =~= t1);
                }
                assert(hint_views(out@) =~= hint_views(before).push(ss[j as int]));
            }
        }
        j += 1;
    }
    assert(ss.take(sorted.len() as int) =~= ss);
    out
}

} // verus!
