//! Where unqualified names come from: the hints that a module's type
//! aliases and data declarations (and those of the prelude) give for
//! diagnostics.
use vstd::prelude::*;
use crate::hints::{entry_views, lookup, qual_view, resolve, NameHints, QualV};
use crate::names::{is_ascii_upper, last_dot, str_chars, str_eq, string_views, ModuleName, QualName, UnqualName};

verus! {

/// The parts of a top-level item that name hints are collected from.
pub enum HintItem {
    /// `type name = rhs`; `rhs` is the right-hand side where it is a single
    /// type name, and `None` for any other type.
    TypeAlias { name: String, rhs: Option<String> },
    /// `data name = ...` with the names of its constructors.
    DataDecl { name: String, ctors: Vec<String> },
    /// Any other item.
    Other,
}

/// A module as name hints see it: its declared name and its items.
pub struct HintModule {
    pub name: Option<String>,
    pub items: Vec<HintItem>,
}

/// The model of a [`HintItem`].
pub enum ItemV {
    TypeAlias(Seq<char>, Option<Seq<char>>),
    DataDecl(Seq<char>, Seq<Seq<char>>),
    Other,
}

pub open spec fn item_view(it: HintItem) -> ItemV {
    match it {
        HintItem::TypeAlias { name, rhs } => ItemV::TypeAlias(
            name@,
            opt_str(rhs),
        ),
        HintItem::DataDecl { name, ctors } => ItemV::DataDecl(name@, string_views(ctors@)),
        HintItem::Other => ItemV::Other,
    }
}

pub open spec fn items_view(items: Seq<HintItem>) -> Seq<ItemV> {
    items.map_values(|it: HintItem| item_view(it))
}

/// The model of [`NameHints`]: each table as its list of entries.
pub struct HintsV {
    pub type_ctor: Seq<(Seq<char>, QualV)>,
    pub value_ctor: Seq<(Seq<char>, QualV)>,
    pub type_alias: Seq<(Seq<char>, QualV)>,
    pub rhs: Seq<(Seq<char>, Seq<char>)>,
}

pub open spec fn rhs_views(es: Seq<(UnqualName, UnqualName)>) -> Seq<(Seq<char>, Seq<char>)> {
    es.map_values(|e: (UnqualName, UnqualName)| (e.0.0@, e.1.0@))
}

pub open spec fn opt_str(o: Option<String>) -> Option<Seq<char>> {
    match o {
        Some(s) => Some(s@),
        None => None,
    }
}

pub open spec fn hints_view(h: NameHints) -> HintsV {
    HintsV {
        type_ctor: entry_views(h.type_ctor@),
        value_ctor: entry_views(h.value_ctor@),
        type_alias: entry_views(h.type_alias@),
        rhs: rhs_views(h.type_alias_rhs_unqual@),
    }
}

pub open spec fn no_hints() -> HintsV {
    HintsV { type_ctor: seq![], value_ctor: seq![], type_alias: seq![], rhs: seq![] }
}

/// The name a module is known by: its declared name, or `Main`.
pub open spec fn module_label(name: Option<Seq<char>>) -> Seq<char> {
    match name {
        Some(n) => n,
        None => "Main"@,
    }
}

/// The name begins with an upper-case ASCII letter.
pub open spec fn starts_upper(s: Seq<char>) -> bool {
    s.len() > 0 && is_ascii_upper(s[0])
}

/// `r` ends with `.` followed by `n`.
pub open spec fn ends_with_dot_name(r: Seq<char>, n: Seq<char>) -> bool {
    r.len() >= n.len() + 1 && r.skip(r.len() - n.len() - 1) == seq!['.'] + n
}

/// `s` split at its last `.` into module and name.
pub open spec fn parse_qual(s: Seq<char>) -> Option<QualV> {
    if last_dot(s) < 0 {
        None
    } else {
        Some((s.take(last_dot(s)), s.skip(last_dot(s) + 1)))
    }
}

/// The entries with `(k, q)` added where `k` has no entry yet.
pub open spec fn put_new(es: Seq<(Seq<char>, QualV)>, k: Seq<char>, q: QualV) -> Seq<(Seq<char>, QualV)> {
    if resolve(es, k) is Some {
        es
    } else {
        es.push((k, q))
    }
}

pub open spec fn with_type_ctor(h: HintsV, es: Seq<(Seq<char>, QualV)>) -> HintsV {
    HintsV { type_ctor: es, value_ctor: h.value_ctor, type_alias: h.type_alias, rhs: h.rhs }
}

pub open spec fn with_value_ctor(h: HintsV, es: Seq<(Seq<char>, QualV)>) -> HintsV {
    HintsV { type_ctor: h.type_ctor, value_ctor: es, type_alias: h.type_alias, rhs: h.rhs }
}

pub open spec fn with_type_alias(h: HintsV, es: Seq<(Seq<char>, QualV)>) -> HintsV {
    HintsV { type_ctor: h.type_ctor, value_ctor: h.value_ctor, type_alias: es, rhs: h.rhs }
}

pub open spec fn with_rhs(h: HintsV, es: Seq<(Seq<char>, Seq<char>)>) -> HintsV {
    HintsV { type_ctor: h.type_ctor, value_ctor: h.value_ctor, type_alias: h.type_alias, rhs: es }
}

/// The hints of `type name = rhs` in the module `m`: a forwarder
/// `name = Q.name` maps `name` to `Q.name` (as a type constructor where
/// `name` is capitalised, else as an alias); a bare right-hand side is kept
/// as a local alias chain; a capitalised alias resolves to `m.name`.
pub open spec fn alias_hints(h: HintsV, m: Seq<char>, name: Seq<char>, rhs: Option<Seq<char>>) -> HintsV {
    let h1 = match rhs {
        Some(r) => if ends_with_dot_name(r, name) && parse_qual(r) is Some {
            if starts_upper(name) {
                with_type_ctor(h, h.type_ctor.push((name, parse_qual(r)->Some_0)))
            } else {
                with_type_alias(h, h.type_alias.push((name, parse_qual(r)->Some_0)))
            }
        } else {
            h
        },
        None => h,
    };
    let h2 = match rhs {
        Some(r) => if !r.contains('.') {
            with_rhs(h1, h1.rhs.push((name, r)))
        } else {
            h1
        },
        None => h1,
    };
    if starts_upper(name) {
        with_type_alias(h2, h2.type_alias.push((name, (m, name))))
    } else {
        h2
    }
}

/// The type constructor hint of `data name` in the module `m`: a qualified
/// `Q.N` maps `N` to `Q.N`, a capitalised bare name `N` to `m.N`; an entry
/// into the prelude replaces an earlier one, any other is added only for a
/// name with no entry yet.
pub open spec fn data_hints(h: HintsV, m: Seq<char>, name: Seq<char>) -> HintsV {
    match parse_qual(name) {
        Some(q) => if starts_upper(q.1) {
            if q.0 == "Prelude"@ {
                with_type_ctor(h, h.type_ctor.push((q.1, q)))
            } else {
                with_type_ctor(h, put_new(h.type_ctor, q.1, q))
            }
        } else {
            h
        },
        None => if starts_upper(name) {
            if m == "Prelude"@ {
                with_type_ctor(h, h.type_ctor.push((name, (m, name))))
            } else {
                with_type_ctor(h, put_new(h.type_ctor, name, (m, name)))
            }
        } else {
            h
        },
    }
}

/// The value constructor hints of constructors named `ctors`: each
/// qualified `Q.C` maps `C` to `Q.C` where `C` has no entry yet.
pub open spec fn ctor_hints(h: HintsV, ctors: Seq<Seq<char>>) -> HintsV
    decreases ctors.len(),
{
    if ctors.len() == 0 {
        h
    } else {
        let h0 = ctor_hints(h, ctors.drop_last());
        match parse_qual(ctors.last()) {
            Some(q) => if starts_upper(q.1) {
                with_value_ctor(h0, put_new(h0.value_ctor, q.1, q))
            } else {
                h0
            },
            None => h0,
        }
    }
}

/// The hints that one item of the module `m` gives.
pub open spec fn item_hints(h: HintsV, m: Seq<char>, it: ItemV) -> HintsV {
    match it {
        ItemV::TypeAlias(name, rhs) => alias_hints(h, m, name, rhs),
        ItemV::DataDecl(name, ctors) => ctor_hints(data_hints(h, m, name), ctors),
        ItemV::Other => h,
    }
}

/// The hints of the items in order.
pub open spec fn items_hints(h: HintsV, m: Seq<char>, its: Seq<ItemV>) -> HintsV
    decreases its.len(),
{
    if its.len() == 0 {
        h
    } else {
        item_hints(items_hints(h, m, its.drop_last()), m, its.last())
    }
}

/// The hints that one prelude item adds: its forwarders and type
/// constructors, each only where the name has no entry yet.
pub open spec fn prelude_item_hints(h: HintsV, m: Seq<char>, it: ItemV) -> HintsV {
    match it {
        ItemV::TypeAlias(name, rhs) => match rhs {
            Some(r) => if ends_with_dot_name(r, name) && parse_qual(r) is Some {
                if starts_upper(name) {
                    with_type_ctor(h, put_new(h.type_ctor, name, parse_qual(r)->Some_0))
                } else {
                    with_type_alias(h, put_new(h.type_alias, name, parse_qual(r)->Some_0))
                }
            } else {
                h
            },
            None => h,
        },
        ItemV::DataDecl(name, _) => match parse_qual(name) {
            Some(q) => if starts_upper(q.1) {
                with_type_ctor(h, put_new(h.type_ctor, q.1, q))
            } else {
                h
            },
            None => if starts_upper(name) {
                with_type_ctor(h, put_new(h.type_ctor, name, (m, name)))
            } else {
                h
            },
        },
        ItemV::Other => h,
    }
}

pub open spec fn prelude_hints(h: HintsV, m: Seq<char>, its: Seq<ItemV>) -> HintsV
    decreases its.len(),
{
    if its.len() == 0 {
        h
    } else {
        prelude_item_hints(prelude_hints(h, m, its.drop_last()), m, its.last())
    }
}

fn starts_upper_exec(s: &str) -> (r: bool)
    ensures
        r == starts_upper(s@),
{
    let n = s.unicode_len();
    if n == 0 {
        return false;
    }
    let c = s.get_char(0);
    'A' <= c && c <= 'Z'
}

pub(crate) fn has_dot(s: &str) -> (r: bool)
    ensures
        r == s@.contains('.'),
{
    let cs = str_chars(s);
    let mut i: usize = 0;
    while i < cs.len()
        invariant
            i <= cs.len(),
            cs@ == s@,
            forall|j: int| 0 <= j < i ==> cs@[j] != '.',
        decreases cs.len() - i,
    {
        if cs[i] == '.' {
            assert(s@[i as int] == '.');
            return true;
        }
        i += 1;
    }
    false
}

fn ends_with_dot_name_exec(r: &str, n: &str) -> (b: bool)
    ensures
        b == ends_with_dot_name(r@, n@),
{
    let rc = str_chars(r);
    let nc = str_chars(n);
    if rc.len() <= nc.len() {
        return false;
    }
    let off = rc.len() - nc.len() - 1;
    let ghost want = seq!['.'] + n@;
    if rc[off] != '.' {
        assert(r@.skip(off as int)[0] != want[0]);
        return false;
    }
    let mut j: usize = 0;
    while j < nc.len()
        invariant
            j <= nc.len(),
            rc@ == r@,
            nc@ == n@,
            off + nc.len() + 1 == rc.len(),
            want == seq!['.'] + n@,
            rc@[off as int] == '.',
            forall|k: int| 0 <= k < j ==> rc@[off + 1 + k] == nc@[k],
        decreases nc.len() - j,
    {
        if rc[off + 1 + j] != nc[j] {
            assert(r@.skip(off as int)[j + 1] != want[j + 1]);
            return false;
        }
        j += 1;
    }
    assert(r@.skip(off as int) =~= want);
    true
}

fn qual_of(m: &str, n: &str) -> (r: QualName)
    ensures
        qual_view(r) == (m@, n@),
{
    QualName { module: ModuleName(m.to_owned()), name: UnqualName(n.to_owned()) }
}

proof fn lemma_entry_views_push(es: Seq<(UnqualName, QualName)>, e: (UnqualName, QualName))
    ensures
        entry_views(es.push(e)) == entry_views(es).push((e.0.0@, qual_view(e.1))),
{
    assert(entry_views(es.push(e)) =~= entry_views(es).push((e.0.0@, qual_view(e.1))));
}

fn push_entry(es: &mut Vec<(UnqualName, QualName)>, k: &str, q: QualName)
    ensures
        entry_views(final(es)@) == entry_views(old(es)@).push((k@, qual_view(q))),
{
    let e = (UnqualName(k.to_owned()), q);
    proof {
        lemma_entry_views_push(es@, e);
    }
    es.push(e);
}

fn put_new_entry(es: &mut Vec<(UnqualName, QualName)>, k: &str, q: QualName)
    ensures
        entry_views(final(es)@) == put_new(entry_views(old(es)@), k@, qual_view(q)),
{
    if lookup(es, k).is_none() {
        push_entry(es, k, q);
    }
}

proof fn lemma_rhs_views_push(es: Seq<(UnqualName, UnqualName)>, e: (UnqualName, UnqualName))
    ensures
        rhs_views(es.push(e)) == rhs_views(es).push((e.0.0@, e.1.0@)),
{
    assert(rhs_views(es.push(e)) =~= rhs_views(es).push((e.0.0@, e.1.0@)));
}

fn add_alias_hints(h: &mut NameHints, m: &str, name: &str, rhs: &Option<String>)
    ensures
        hints_view(*final(h)) == alias_hints(hints_view(*old(h)), m@, name@, opt_str(*rhs)),
{
    let up = starts_upper_exec(name);
    if let Some(r) = rhs {
        if ends_with_dot_name_exec(r.as_str(), name) {
            if let Some(q) = QualName::parse(r.as_str()) {
                if up {
                    push_entry(&mut h.type_ctor, name, q);
                } else {
                    push_entry(&mut h.type_alias, name, q);
                }
            }
        }
    }
    if let Some(r) = rhs {
        if !has_dot(r.as_str()) {
            let e = (UnqualName(name.to_owned()), UnqualName(r.clone()));
            proof {
                lemma_rhs_views_push(h.type_alias_rhs_unqual@, e);
            }
            h.type_alias_rhs_unqual.push(e);
        }
    }
    if up {
        push_entry(&mut h.type_alias, name, qual_of(m, name));
    }
}

fn add_data_hints(h: &mut NameHints, m: &str, name: &str)
    ensures
        hints_view(*final(h)) == data_hints(hints_view(*old(h)), m@, name@),
{
    match QualName::parse(name) {
        Some(q) => {
            if starts_upper_exec(q.name.0.as_str()) {
                let base = q.name.0.clone();
                if str_eq(q.module.0.as_str(), "Prelude") {
                    push_entry(&mut h.type_ctor, base.as_str(), q);
                } else {
                    put_new_entry(&mut h.type_ctor, base.as_str(), q);
                }
            }
        },
        None => {
            if starts_upper_exec(name) {
                if str_eq(m, "Prelude") {
                    push_entry(&mut h.type_ctor, name, qual_of(m, name));
                } else {
                    put_new_entry(&mut h.type_ctor, name, qual_of(m, name));
                }
            }
        },
    }
}

fn add_ctor_hints(h: &mut NameHints, ctors: &Vec<String>)
    ensures
        hints_view(*final(h)) == ctor_hints(hints_view(*old(h)), string_views(ctors@)),
{
    let ghost h0 = hints_view(*h);
    let ghost cv = string_views(ctors@);
    let mut i: usize = 0;
    assert(cv.take(0) =~= Seq::<Seq<char>>::empty());
    while i < ctors.len()
        invariant
            i <= ctors.len(),
            cv == string_views(ctors@),
            hints_view(*h) == ctor_hints(h0, cv.take(i as int)),
        decreases ctors.len() - i,
    {
        let c = &ctors[i];
        proof {
            assert(cv.take(i + 1).drop_last() =~= cv.take(i as int));
            assert(cv.take(i + 1).last() == c@);
        }
        if let Some(q) = QualName::parse(c.as_str()) {
            if starts_upper_exec(q.name.0.as_str()) {
                let base = q.name.0.clone();
                put_new_entry(&mut h.value_ctor, base.as_str(), q);
            }
        }
        i += 1;
    }
    assert(cv.take(ctors.len() as int) =~= cv);
}

fn add_item_hints(h: &mut NameHints, m: &str, it: &HintItem)
    ensures
        hints_view(*final(h)) == item_hints(hints_view(*old(h)), m@, item_view(*it)),
{
    match it {
        HintItem::TypeAlias { name, rhs } => add_alias_hints(h, m, name.as_str(), rhs),
        HintItem::DataDecl { name, ctors } => {
            add_data_hints(h, m, name.as_str());
            add_ctor_hints(h, ctors);
        },
        HintItem::Other => {},
    }
}

fn add_prelude_item_hints(h: &mut NameHints, m: &str, it: &HintItem)
    ensures
        hints_view(*final(h)) == prelude_item_hints(hints_view(*old(h)), m@, item_view(*it)),
{
    match it {
        HintItem::TypeAlias { name, rhs } => {
            if let Some(r) = rhs {
                if ends_with_dot_name_exec(r.as_str(), name.as_str()) {
                    if let Some(q) = QualName::parse(r.as_str()) {
                        if starts_upper_exec(name.as_str()) {
                            put_new_entry(&mut h.type_ctor, name.as_str(), q);
                        } else {
                            put_new_entry(&mut h.type_alias, name.as_str(), q);
                        }
                    }
                }
            }
        },
        HintItem::DataDecl { name, ctors: _ } => {
            match QualName::parse(name.as_str()) {
                Some(q) => {
                    if starts_upper_exec(q.name.0.as_str()) {
                        let base = q.name.0.clone();
                        put_new_entry(&mut h.type_ctor, base.as_str(), q);
                    }
                },
                None => {
                    if starts_upper_exec(name.as_str()) {
                        put_new_entry(&mut h.type_ctor, name.as_str(), qual_of(m, name.as_str()));
                    }
                },
            }
        },
        HintItem::Other => {},
    }
}

/// The hints of a module's items, then those that the prelude's items add
/// for names with no entry yet.
pub open spec fn module_hints(module: HintModule, prelude: Option<HintModule>) -> HintsV {
    let h = items_hints(no_hints(), module_label(opt_str(module.name)), items_view(module.items@));
    match prelude {
        None => h,
        Some(p) => prelude_hints(h, module_label(opt_str(p.name)), items_view(p.items@)),
    }
}

fn label_of(name: &Option<String>) -> (r: &str)
    ensures
        r@ == module_label(opt_str(*name)),
{
    match name {
        Some(n) => n.as_str(),
        None => "Main",
    }
}

/// The name hints of a module: what its forwarding aliases, local aliases,
/// data declarations and qualified constructors say of unqualified names,
/// and then, for names still without an entry, what the prelude's
/// forwarders and data declarations say (where the prelude could be loaded).
pub fn collect_unqualified_name_hints_from_imported(module: &HintModule, prelude: Option<&HintModule>) -> (r: NameHints)
    ensures
        hints_view(r) == module_hints(
            *module,
            match prelude {
                Some(p) => Some(*p),
                None => None,
            },
        ),
{
    let mut h = NameHints {
        type_ctor: Vec::new(),
        value_ctor: Vec::new(),
        type_alias: Vec::new(),
        type_alias_rhs_unqual: Vec::new(),
    };
    assert(entry_views(h.type_ctor@) =~= seq![]);
    assert(entry_views(h.value_ctor@) =~= seq![]);
    assert(entry_views(h.type_alias@) =~= seq![]);
    assert(rhs_views(h.type_alias_rhs_unqual@) =~= seq![]);
    assert(hints_view(h) == no_hints());
    let m = label_of(&module.name);
    let ghost iv = items_view(module.items@);
    let mut i: usize = 0;
    assert(iv.take(0) =~= Seq::<ItemV>::empty());
    while i < module.items.len()
        invariant
            i <= module.items.len(),
            iv == items_view(module.items@),
            m@ == module_label(opt_str(module.name)),
            hints_view(h) == items_hints(no_hints(), m@, iv.take(i as int)),
        decreases module.items.len() - i,
    {
        proof {
            assert(iv.take(i + 1).drop_last() =~= iv.take(i as int));
            assert(iv.take(i + 1).last() == item_view(module.items@[i as int]));
        }
        add_item_hints(&mut h, m, &module.items[i]);
        i += 1;
    }
    assert(iv.take(module.items.len() as int) =~= iv);
    if let Some(p) = prelude {
        let pm = label_of(&p.name);
        let ghost pv = items_view(p.items@);
        let ghost h1 = hints_view(h);
        let mut j: usize = 0;
        assert(pv.take(0) =~= Seq::<ItemV>::empty());
        while j < p.items.len()
            invariant
                j <= p.items.len(),
                pv == items_view(p.items@),
                pm@ == module_label(opt_str(p.name)),
                hints_view(h) == prelude_hints(h1, pm@, pv.take(j as int)),
            decreases p.items.len() - j,
        {
            proof {
                assert(pv.take(j + 1).drop_last() =~= pv.take(j as int));
                assert(pv.take(j + 1).last() == item_view(p.items@[j as int]));
            }
            add_prelude_item_hints(&mut h, pm, &p.items[j]);
            j += 1;
        }
        assert(pv.take(p.items.len() as int) =~= pv);
    }
    h
}

} // verus!
