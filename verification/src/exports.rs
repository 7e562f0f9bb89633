//! Per-module export tables: exported names and what each one names.
use vstd::prelude::*;
use std::collections::HashSet;
use crate::fields::{key_lt, name_lt};
use crate::qualify::{lemma_key_lt_irreflexive, lemma_key_lt_total, lemma_key_lt_transitive};

verus! {

/// Symbol kind for module exports.
#[derive(Debug, Clone, Copy, PartialEq, Eq, Hash, Structural)]
pub enum SymbolKind {
    /// Value-level binding (function, constant, pattern-bound name).
    Value,
    /// Type constructor (from data declaration).
    Type,
    /// Type alias.
    TypeAlias,
    /// Data constructor.
    Ctor,
    /// Type class.
    Class,
    /// Instance declaration.
    Instance,
}

/// Exported names, each with the kind of symbol it names; a name occurs
/// once, and the entries are kept in order of their names, so two tables
/// are equal exactly when they hold the same entries.
#[derive(Debug, PartialEq, Eq)]
pub struct ExportTable {
    entries: Vec<(String, SymbolKind)>,
}

/// The table that a sequence of entries describes: later entries of a name
/// replace earlier ones.
pub open spec fn entries_map(es: Seq<(Seq<char>, SymbolKind)>) -> Map<Seq<char>, SymbolKind>
    decreases es.len(),
{
    if es.len() == 0 {
        Map::empty()
    } else {
        entries_map(es.drop_last()).insert(es.last().0, es.last().1)
    }
}

/// The names of a set of strings.
pub open spec fn name_views(set: Set<String>) -> Set<Seq<char>> {
    set.map(|s: String| s@)
}

impl ExportTable {
    #[verifier::type_invariant]
    spec fn names_sorted(self) -> bool {
        forall|i: int, j: int|
            0 <= i < j < self.entries@.len() ==> crate::fields::key_lt(#[trigger] self.entries@[i].0@, #[trigger] self.entries@[j].0@)
    }

    spec fn entry_views(self) -> Seq<(Seq<char>, SymbolKind)> {
        self.entries@.map_values(|e: (String, SymbolKind)| (e.0@, e.1))
    }
}

impl View for ExportTable {
    type V = Map<Seq<char>, SymbolKind>;

    closed spec fn view(&self) -> Map<Seq<char>, SymbolKind> {
        entries_map(self.entry_views())
    }
}

proof fn lemma_entries_map(es: Seq<(Seq<char>, SymbolKind)>)
    requires
        forall|i: int, j: int| 0 <= i < j < es.len() ==> es[i].0 != es[j].0,
    ensures
        entries_map(es).dom().finite(),
        entries_map(es).dom().len() == es.len(),
        forall|k: Seq<char>| #[trigger] entries_map(es).dom().contains(k) <==> exists|i: int|
            0 <= i < es.len() && es[i].0 == k,
        forall|i: int| 0 <= i < es.len() ==> #[trigger] entries_map(es)[es[i].0] == es[i].1,
    decreases es.len(),
{
    if es.len() > 0 {
        let d = es.drop_last();
        lemma_entries_map(d);
        assert forall|k: Seq<char>| #[trigger] entries_map(es).dom().contains(k) <==> exists|i: int|
            0 <= i < es.len() && es[i].0 == k by {
            if entries_map(d).dom().contains(k) {
                let i = choose|i: int| 0 <= i < d.len() && d[i].0 == k;
                assert(es[i].0 == k);
            }
            if exists|i: int| 0 <= i < es.len() && es[i].0 == k {
                let i = choose|i: int| 0 <= i < es.len() && es[i].0 == k;
                if i < es.len() - 1 {
                    assert(d[i].0 == k);
                }
            }
        }
        assert(!entries_map(d).dom().contains(es.last().0)) by {
            if entries_map(d).dom().contains(es.last().0) {
                let i = choose|i: int| 0 <= i < d.len() && d[i].0 == es.last().0;
                assert(es[i].0 == es[es.len() - 1].0);
            }
        }
        assert forall|i: int| 0 <= i < es.len() implies #[trigger] entries_map(es)[es[i].0] == es[i].1 by {
            if i < es.len() - 1 {
                assert(d[i] == es[i]);
                assert(es[i].0 != es[es.len() - 1].0);
            }
        }
    } else {
        assert(entries_map(es).dom() =~= Set::empty());
    }
}

proof fn lemma_sorted_distinct(es: Seq<(Seq<char>, SymbolKind)>)
    requires
        forall|i: int, j: int| 0 <= i < j < es.len() ==> key_lt(#[trigger] es[i].0, #[trigger] es[j].0),
    ensures
        forall|i: int, j: int| 0 <= i < j < es.len() ==> es[i].0 != es[j].0,
{
    assert forall|i: int, j: int| 0 <= i < j < es.len() implies es[i].0 != es[j].0 by {
        assert(key_lt(es[i].0, es[j].0));
        if es[i].0 == es[j].0 {
            lemma_key_lt_irreflexive(es[i].0);
        }
    }
}

/// `HashSet::insert` on strings: the set afterwards holds the names it held
/// and the name of `name`.
#[verifier::external_body]
fn insert_name(set: &mut HashSet<String>, name: String)
    ensures
        name_views(final(set)@) == name_views(old(set)@).insert(name@),
{
    set.insert(name);
}

impl ExportTable {
    /// An empty table.
    pub fn new() -> (r: Self)
        ensures
            r@ == Map::<Seq<char>, SymbolKind>::empty(),
    {
        let r = ExportTable { entries: Vec::new() };
        assert(r.entry_views() =~= Seq::<(Seq<char>, SymbolKind)>::empty());
        r
    }

    /// Records `name` as exported with `kind`, replacing its earlier kind.
    pub fn insert(&mut self, name: String, kind: SymbolKind)
        ensures
            final(self)@ == old(self)@.insert(name@, kind),
    {
        proof {
            use_type_invariant(&*self);
        }
        let ghost old_es = self.entry_views();
        proof {
            assert forall|i: int, j: int| 0 <= i < j < old_es.len() implies key_lt(#[trigger] old_es[i].0, #[trigger] old_es[j].0) by {
                assert(key_lt(self.entries@[i].0@, self.entries@[j].0@));
            }
            lemma_sorted_distinct(old_es);
            lemma_entries_map(old_es);
        }
        let ghost name_v = name@;
        let mut p: usize = 0;
        while p < self.entries.len() && name_lt(&self.entries[p].0, &name)
            invariant
                p <= self.entries.len(),
                old_es == self.entry_views(),
                name_v == name@,
                forall|j: int| 0 <= j < p ==> key_lt(#[trigger] old_es[j].0, name_v),
            decreases self.entries.len() - p,
        {
            assert(old_es[p as int].0 == self.entries@[p as int].0@);
            p += 1;
        }
        let mut es: Vec<(String, SymbolKind)> = Vec::new();
        std::mem::swap(&mut es, &mut self.entries);
        assert(es@.map_values(|e: (String, SymbolKind)| (e.0@, e.1)) == old_es);
        if p < es.len() && es[p].0 == name {
            es.set(p, (name, kind));
            proof {
                let i = p as int;
                let new_es = es@.map_values(|e: (String, SymbolKind)| (e.0@, e.1));
                assert(new_es =~= old_es.update(i, (name_v, kind)));
                assert(old_es[i].0 == name_v);
                assert forall|a: int, b: int| 0 <= a < b < new_es.len() implies key_lt(#[trigger] new_es[a].0, #[trigger] new_es[b].0) by {
                    assert(new_es[a].0 == old_es[a].0);
                    assert(new_es[b].0 == old_es[b].0);
                }
                lemma_sorted_distinct(new_es);
                lemma_entries_map(new_es);
                assert forall|a: int, b: int| 0 <= a < b < es@.len() implies key_lt(#[trigger] es@[a].0@, #[trigger] es@[b].0@) by {
                    assert(new_es[a].0 == es@[a].0@ && new_es[b].0 == es@[b].0@);
                }
                let m1 = entries_map(new_es);
                let m2 = entries_map(old_es).insert(name_v, kind);
                assert forall|k: Seq<char>| m1.dom().contains(k) <==> m2.dom().contains(k) by {
                    if m1.dom().contains(k) {
                        let j = choose|j: int| 0 <= j < new_es.len() && new_es[j].0 == k;
                        assert(old_es[j].0 == k);
                    }
                    if entries_map(old_es).dom().contains(k) {
                        let j = choose|j: int| 0 <= j < old_es.len() && old_es[j].0 == k;
                        assert(new_es[j].0 == k);
                    }
                }
                assert forall|k: Seq<char>| #[trigger] m1.dom().contains(k) implies m1[k] == m2[k] by {
                    let j = choose|j: int| 0 <= j < new_es.len() && new_es[j].0 == k;
                    assert(m1[new_es[j].0] == new_es[j].1);
                    if j != i {
                        assert(old_es[j] == new_es[j]);
                        assert(entries_map(old_es)[old_es[j].0] == old_es[j].1);
                    }
                }
                assert(m1 =~= m2);
            }
        } else {
            proof {
                if p < es.len() {
                    assert(old_es[p as int].0 == es@[p as int].0@);
                    assert(!key_lt(old_es[p as int].0, name_v));
                    assert(old_es[p as int].0 != name_v);
                    lemma_key_lt_total(old_es[p as int].0, name_v);
                }
            }
            es.insert(p, (name, kind));
            proof {
                let i = p as int;
                let new_es = es@.map_values(|e: (String, SymbolKind)| (e.0@, e.1));
                assert(new_es =~= old_es.insert(i, (name_v, kind)));
                assert forall|j: int| i <= j < old_es.len() implies key_lt(name_v, #[trigger] old_es[j].0) by {
                    if j > i {
                        lemma_key_lt_transitive(name_v, old_es[i].0, old_es[j].0);
                    }
                }
                assert forall|a: int, b: int| 0 <= a < b < new_es.len() implies key_lt(#[trigger] new_es[a].0, #[trigger] new_es[b].0) by {
                    if b < i {
                        assert(new_es[a] == old_es[a] && new_es[b] == old_es[b]);
                    } else if b == i {
                        assert(new_es[a] == old_es[a]);
                    } else if a == i {
                        assert(new_es[b] == old_es[b - 1]);
                    } else if a < i {
                        assert(new_es[a] == old_es[a] && new_es[b] == old_es[b - 1]);
                        lemma_key_lt_transitive(old_es[a].0, name_v, old_es[b - 1].0);
                    } else {
                        assert(new_es[a] == old_es[a - 1] && new_es[b] == old_es[b - 1]);
                    }
                }
                assert forall|j: int| 0 <= j < old_es.len() implies old_es[j].0 != name_v by {
                    if j < i {
                        assert(key_lt(old_es[j].0, name_v));
                        if old_es[j].0 == name_v {
                            lemma_key_lt_irreflexive(name_v);
                        }
                    } else {
                        assert(key_lt(name_v, old_es[j].0));
                        if old_es[j].0 == name_v {
                            lemma_key_lt_irreflexive(name_v);
                        }
                    }
                }
                lemma_sorted_distinct(new_es);
                lemma_entries_map(new_es);
                assert forall|a: int, b: int| 0 <= a < b < es@.len() implies key_lt(#[trigger] es@[a].0@, #[trigger] es@[b].0@) by {
                    assert(new_es[a].0 == es@[a].0@ && new_es[b].0 == es@[b].0@);
                }
                let m1 = entries_map(new_es);
                let m2 = entries_map(old_es).insert(name_v, kind);
                assert forall|k: Seq<char>| m1.dom().contains(k) <==> m2.dom().contains(k) by {
                    if m1.dom().contains(k) {
                        let j = choose|j: int| 0 <= j < new_es.len() && new_es[j].0 == k;
                        if j < i {
                            assert(old_es[j].0 == k);
                        } else if j > i {
                            assert(old_es[j - 1].0 == k);
                        }
                    }
                    if entries_map(old_es).dom().contains(k) {
                        let j = choose|j: int| 0 <= j < old_es.len() && old_es[j].0 == k;
                        if j < i {
                            assert(new_es[j].0 == k);
                        } else {
                            assert(new_es[j + 1].0 == k);
                        }
                    }
                    if k == name_v {
                        assert(new_es[i].0 == k);
                    }
                }
                assert forall|k: Seq<char>| #[trigger] m1.dom().contains(k) implies m1[k] == m2[k] by {
                    let j = choose|j: int| 0 <= j < new_es.len() && new_es[j].0 == k;
                    assert(m1[new_es[j].0] == new_es[j].1);
                    if j < i {
                        assert(old_es[j] == new_es[j]);
                        assert(entries_map(old_es)[old_es[j].0] == old_es[j].1);
                    } else if j > i {
                        assert(old_es[j - 1] == new_es[j]);
                        assert(entries_map(old_es)[old_es[j - 1].0] == old_es[j - 1].1);
                    }
                }
                assert(m1 =~= m2);
            }
        }
        self.entries = es;
    }

    /// Records every pair of `names`, in order.
    pub fn extend(&mut self, names: Vec<(String, SymbolKind)>)
        ensures
            final(self)@ == insert_all(old(self)@, names@.map_values(|e: (String, SymbolKind)| (e.0@, e.1))),
    {
        let ghost nv = names@.map_values(|e: (String, SymbolKind)| (e.0@, e.1));
        let ghost start = self@;
        let mut names = names;
        let mut i: usize = 0;
        let n = names.len();
        while names.len() > 0
            invariant
                n == i + names.len(),
                nv.len() == n,
                forall|j: int| 0 <= j < names.len() ==> (#[trigger] names@[j]).0@ == nv[i + j].0 && names@[j].1 == nv[i + j].1,
                self@ == insert_all(start, nv.take(i as int)),
            decreases names.len(),
        {
            let (name, kind) = names.remove(0);
            self.insert(name, kind);
            proof {
                assert(nv.take(i + 1).drop_last() =~= nv.take(i as int));
            }
            i += 1;
        }
        assert(nv.take(i as int) =~= nv);
    }

    /// The exported names.
    pub fn as_name_set(&self) -> (r: HashSet<String>)
        ensures
            name_views(r@) == self@.dom(),
    {
        proof {
            use_type_invariant(self);
            let ev = self.entry_views();
            assert forall|i: int, j: int| 0 <= i < j < ev.len() implies key_lt(#[trigger] ev[i].0, #[trigger] ev[j].0) by {
                assert(key_lt(self.entries@[i].0@, self.entries@[j].0@));
            }
            lemma_sorted_distinct(ev);
            lemma_entries_map(ev);
        }
        let mut set: HashSet<String> = HashSet::new();
        let mut i: usize = 0;
        while i < self.entries.len()
            invariant
                i <= self.entries.len(),
                name_views(set@) == Set::new(|k: Seq<char>| exists|j: int| 0 <= j < i && self.entries@[j].0@ == k),
            decreases self.entries.len() - i,
        {
            let name = self.entries[i].0.clone();
            insert_name(&mut set, name);
            proof {
                assert(name_views(set@) =~= Set::new(
                    |k: Seq<char>| exists|j: int| 0 <= j < i + 1 && self.entries@[j].0@ == k,
                )) by {
                    assert forall|k: Seq<char>| (exists|j: int| 0 <= j < i + 1 && self.entries@[j].0@ == k) implies
                        name_views(set@).contains(k) by {
                        let j = choose|j: int| 0 <= j < i + 1 && self.entries@[j].0@ == k;
                        if j < i {
                            assert(Set::new(|k: Seq<char>| exists|j: int| 0 <= j < i && self.entries@[j].0@ == k).contains(k));
                        }
                    }
                }
            }
            i += 1;
        }
        proof {
            assert forall|k: Seq<char>| name_views(set@).contains(k) <==> self@.dom().contains(k) by {
                if name_views(set@).contains(k) {
                    let j = choose|j: int| 0 <= j < i && self.entries@[j].0@ == k;
                    assert(self.entry_views()[j].0 == k);
                }
                if self@.dom().contains(k) {
                    let j = choose|j: int| 0 <= j < self.entry_views().len() && self.entry_views()[j].0 == k;
                    assert(self.entries@[j].0@ == k);
                }
            }
            assert(name_views(set@) =~= self@.dom());
        }
        set
    }
}

/// The table `m` after recording each pair of `es`, in order.
pub open spec fn insert_all(m: Map<Seq<char>, SymbolKind>, es: Seq<(Seq<char>, SymbolKind)>) -> Map<
    Seq<char>,
    SymbolKind,
>
    decreases es.len(),
{
    if es.len() == 0 {
        m
    } else {
        insert_all(m, es.drop_last()).insert(es.last().0, es.last().1)
    }
}

impl Clone for ExportTable {
    fn clone(&self) -> (r: Self)
        ensures
            r@ == self@,
    {
        proof {
            use_type_invariant(self);
        }
        let mut es: Vec<(String, SymbolKind)> = Vec::new();
        let mut i: usize = 0;
        while i < self.entries.len()
            invariant
                i <= self.entries.len(),
                es@.len() == i,
                forall|j: int| 0 <= j < i ==> (#[trigger] es@[j]).0@ == self.entries@[j].0@ && es@[j].1 == self.entries@[j].1,
            decreases self.entries.len() - i,
        {
            let e = (self.entries[i].0.clone(), self.entries[i].1);
            es.push(e);
            i += 1;
        }
        let r = ExportTable { entries: es };
        assert(r.entry_views() =~= self.entry_views());
        r
    }
}

} // verus!
