//! What a module exports: the names its export list gives (in the module
//! header, else in export declarations), each classified by the item that
//! defines it, or else everything it defines.
use vstd::prelude::*;
use crate::exports::{ExportTable, SymbolKind};
use crate::names::{str_eq, string_views, QualName};
use crate::origins::parse_qual;
use crate::syntax::{
    ctor_views, export_view, export_views, item_view, item_views, opt_view, pat_field_views, pat_view, pat_views, type_view,
    ExportV, ItemV, PatV, SynCtor, SynDataDecl, SynExportCtors, SynExportSpec, SynItem, SynModule, SynPat, SynType, TypeV,
};

verus! {

/// The names a pattern binds, in order.
pub open spec fn pat_names(p: PatV) -> Seq<Seq<char>>
    decreases p, 1nat,
{
    match p {
        PatV::Var(n) => seq![n],
        PatV::Ctor(_, ps) => pats_names(ps),
        PatV::Tuple(ps) => pats_names(ps),
        PatV::List(ps) => pats_names(ps),
        PatV::Record(fs) => fields_names(fs),
        PatV::RecordLoose(fs, rest) => fields_names(fs) + match rest {
            Some(r) => seq![r],
            None => Seq::empty(),
        },
        PatV::Cons(a, b) => pat_names(*a) + pat_names(*b),
        PatV::Or(a, b) => pat_names(*a) + pat_names(*b),
        PatV::View(q, _) => pat_names(*q),
        _ => Seq::empty(),
    }
}

pub open spec fn pats_names(ps: Seq<PatV>) -> Seq<Seq<char>>
    decreases ps, 0nat,
{
    if ps.len() == 0 {
        Seq::empty()
    } else {
        pats_names(ps.drop_last()) + pat_names(ps.last())
    }
}

pub open spec fn fields_names(fs: Seq<(Seq<char>, PatV)>) -> Seq<Seq<char>>
    decreases fs, 0nat,
{
    if fs.len() == 0 {
        Seq::empty()
    } else {
        fields_names(fs.drop_last()) + pat_names(fs.last().1)
    }
}

/// The kind of symbol that the first item defining `n` gives it: a value
/// where nothing defines it.
pub open spec fn classify(items: Seq<ItemV>, n: Seq<char>) -> SymbolKind
    decreases items.len(),
{
    if items.len() == 0 {
        SymbolKind::Value
    } else {
        let rest = classify(items.drop_first(), n);
        match items[0] {
            ItemV::Binding(b) => if pat_names(b.0).contains(n) {
                SymbolKind::Value
            } else {
                rest
            },
            ItemV::TypeAlias(name, _, _) => if name == n {
                SymbolKind::TypeAlias
            } else {
                rest
            },
            ItemV::DataDecl(name, _, ctors) => if name == n {
                SymbolKind::Type
            } else if has_ctor(ctors, n) {
                SymbolKind::Ctor
            } else {
                rest
            },
            ItemV::ClassDecl(c) => if c.name == n {
                SymbolKind::Class
            } else {
                rest
            },
            _ => rest,
        }
    }
}

/// The names of the constructors, in order.
pub open spec fn ctor_name_list(ctors: Seq<(Seq<char>, Seq<TypeV>)>) -> Seq<Seq<char>> {
    ctors.map_values(|c: (Seq<char>, Seq<TypeV>)| c.0)
}

/// One of the constructors is named `n`.
pub open spec fn has_ctor(ctors: Seq<(Seq<char>, Seq<TypeV>)>, n: Seq<char>) -> bool {
    exists|i: int| 0 <= i < ctors.len() && ctors[i].0 == n
}

/// The kind of an exported type name: a class where a class declaration
/// comes first, else a type.
pub open spec fn classify_type(items: Seq<ItemV>, n: Seq<char>) -> SymbolKind
    decreases items.len(),
{
    if items.len() == 0 {
        SymbolKind::Type
    } else {
        match items[0] {
            ItemV::DataDecl(name, _, _) => if name == n {
                SymbolKind::Type
            } else {
                classify_type(items.drop_first(), n)
            },
            ItemV::ClassDecl(c) => if c.name == n {
                SymbolKind::Class
            } else {
                classify_type(items.drop_first(), n)
            },
            _ => classify_type(items.drop_first(), n),
        }
    }
}

/// The constructor names of the first data declaration named `n`.
pub open spec fn data_ctors(items: Seq<ItemV>, n: Seq<char>) -> Option<Seq<Seq<char>>>
    decreases items.len(),
{
    if items.len() == 0 {
        None
    } else {
        match items[0] {
            ItemV::DataDecl(name, _, ctors) => if name == n {
                Some(ctor_name_list(ctors))
            } else {
                data_ctors(items.drop_first(), n)
            },
            _ => data_ctors(items.drop_first(), n),
        }
    }
}

/// The right-hand side of the first type alias named `n`.
pub open spec fn alias_rhs(items: Seq<ItemV>, n: Seq<char>) -> Option<TypeV>
    decreases items.len(),
{
    if items.len() == 0 {
        None
    } else {
        match items[0] {
            ItemV::TypeAlias(name, _, ty) => if name == n {
                Some(ty)
            } else {
                alias_rhs(items.drop_first(), n)
            },
            _ => alias_rhs(items.drop_first(), n),
        }
    }
}

/// The type an alias stands for: a name, or a name applied.
pub open spec fn alias_target(t: TypeV) -> Option<Seq<char>> {
    match t {
        TypeV::Var(n) => Some(n),
        TypeV::App(h, _) => match *h {
            TypeV::Var(n) => Some(n),
            _ => None,
        },
    }
}

/// The module imports `m`.
pub open spec fn imports_module(items: Seq<ItemV>, m: Seq<char>) -> bool {
    exists|i: int| 0 <= i < items.len() && (#[trigger] items[i] matches ItemV::Import(x, _, _, _) && x == m)
}

/// The data declarations of the imported module `m` that could be loaded.
pub open spec fn loaded_decls(imported: Seq<(Seq<char>, Seq<ItemV>)>, m: Seq<char>) -> Option<Seq<ItemV>>
    decreases imported.len(),
{
    if imported.len() == 0 {
        None
    } else if imported[0].0 == m {
        Some(imported[0].1)
    } else {
        loaded_decls(imported.drop_first(), m)
    }
}

/// The constructors an alias re-exports: those of the data type it names,
/// in this module for a bare name, or in an imported and loaded module for
/// a qualified one.
pub open spec fn aliased_ctors(items: Seq<ItemV>, imported: Seq<(Seq<char>, Seq<ItemV>)>, t: TypeV) -> Option<Seq<Seq<char>>> {
    match alias_target(t) {
        None => None,
        Some(target) => match parse_qual(target) {
            Some(q) => if imports_module(items, q.0) {
                match loaded_decls(imported, q.0) {
                    Some(ds) => data_ctors(ds, q.1),
                    None => None,
                }
            } else {
                None
            },
            None => data_ctors(items, target),
        },
    }
}

/// The table with each of `ns` recorded as a constructor.
pub open spec fn insert_ctors(m: Map<Seq<char>, SymbolKind>, ns: Seq<Seq<char>>) -> Map<Seq<char>, SymbolKind>
    decreases ns.len(),
{
    if ns.len() == 0 {
        m
    } else {
        insert_ctors(m, ns.drop_last()).insert(ns.last(), SymbolKind::Ctor)
    }
}

/// Records the listed constructors `cs` of type `name`, each of which must
/// be one of `known`.
pub open spec fn insert_listed(m: Map<Seq<char>, SymbolKind>, name: Seq<char>, known: Seq<Seq<char>>, cs: Seq<Seq<char>>) -> Result<
    Map<Seq<char>, SymbolKind>,
    Seq<char>,
>
    decreases cs.len(),
{
    if cs.len() == 0 {
        Ok(m)
    } else {
        match insert_listed(m, name, known, cs.drop_last()) {
            Err(e) => Err(e),
            Ok(m1) => if known.contains(cs.last()) {
                Ok(m1.insert(cs.last(), SymbolKind::Ctor))
            } else {
                Err("export list references unknown constructor: "@ + name + "("@ + cs.last() + ")"@)
            },
        }
    }
}

/// Records one export entry.
pub open spec fn export_one(
    items: Seq<ItemV>,
    imported: Seq<(Seq<char>, Seq<ItemV>)>,
    m: Map<Seq<char>, SymbolKind>,
    e: ExportV,
) -> Result<Map<Seq<char>, SymbolKind>, Seq<char>> {
    match e {
        ExportV::Name(n) => Ok(m.insert(n, classify(items, n))),
        ExportV::TypeAll(name) => {
            let m1 = m.insert(name, classify_type(items, name));
            match data_ctors(items, name) {
                Some(cs) => Ok(insert_ctors(m1, cs)),
                None => match alias_rhs(items, name) {
                    Some(t) => match aliased_ctors(items, imported, t) {
                        Some(cs) => Ok(insert_ctors(m1, cs)),
                        None => Ok(m1),
                    },
                    None => Ok(m1),
                },
            }
        },
        ExportV::TypeSome(name, listed) => {
            let m1 = m.insert(name, classify_type(items, name));
            match data_ctors(items, name) {
                Some(cs) => insert_listed(m1, name, cs, listed),
                None => Ok(m1),
            }
        },
    }
}

/// Records the export entries in order, stopping at the first error.
pub open spec fn export_all(
    items: Seq<ItemV>,
    imported: Seq<(Seq<char>, Seq<ItemV>)>,
    m: Map<Seq<char>, SymbolKind>,
    es: Seq<ExportV>,
) -> Result<Map<Seq<char>, SymbolKind>, Seq<char>>
    decreases es.len(),
{
    if es.len() == 0 {
        Ok(m)
    } else {
        match export_all(items, imported, m, es.drop_last()) {
            Err(e) => Err(e),
            Ok(m1) => export_one(items, imported, m1, es.last()),
        }
    }
}

/// The entries of the export declarations among `decls`, in order.
pub open spec fn export_decls(
    items: Seq<ItemV>,
    imported: Seq<(Seq<char>, Seq<ItemV>)>,
    m: Map<Seq<char>, SymbolKind>,
    decls: Seq<ItemV>,
) -> Result<Map<Seq<char>, SymbolKind>, Seq<char>>
    decreases decls.len(),
{
    if decls.len() == 0 {
        Ok(m)
    } else {
        match export_decls(items, imported, m, decls.drop_last()) {
            Err(e) => Err(e),
            Ok(m1) => match decls.last() {
                ItemV::Export(es) => export_all(items, imported, m1, es),
                _ => Ok(m1),
            },
        }
    }
}

/// Everything the items define: the names bound by bindings as values,
/// aliases, and data types with their constructors.
pub open spec fn export_everything(m: Map<Seq<char>, SymbolKind>, items: Seq<ItemV>) -> Map<Seq<char>, SymbolKind>
    decreases items.len(),
{
    if items.len() == 0 {
        m
    } else {
        let m1 = export_everything(m, items.drop_last());
        match items.last() {
            ItemV::Binding(b) => insert_values(m1, pat_names(b.0)),
            ItemV::TypeAlias(name, _, _) => m1.insert(name, SymbolKind::TypeAlias),
            ItemV::DataDecl(name, _, ctors) => insert_ctors(
                m1.insert(name, SymbolKind::Type),
                ctor_name_list(ctors),
            ),
            _ => m1,
        }
    }
}

pub open spec fn insert_values(m: Map<Seq<char>, SymbolKind>, ns: Seq<Seq<char>>) -> Map<Seq<char>, SymbolKind>
    decreases ns.len(),
{
    if ns.len() == 0 {
        m
    } else {
        insert_values(m, ns.drop_last()).insert(ns.last(), SymbolKind::Value)
    }
}

pub open spec fn has_export_decl(items: Seq<ItemV>) -> bool {
    exists|i: int| 0 <= i < items.len() && #[trigger] items[i] is Export
}

/// The exports of a module: by the export list of its header, else by its
/// export declarations, else everything it defines. `imported` are the
/// loaded modules, by name, whose data types an alias may re-export.
pub open spec fn module_exports_spec(
    header: Option<Seq<ExportV>>,
    items: Seq<ItemV>,
    imported: Seq<(Seq<char>, Seq<ItemV>)>,
) -> Result<Map<Seq<char>, SymbolKind>, Seq<char>> {
    match header {
        Some(es) => export_all(items, imported, Map::empty(), es),
        None => if has_export_decl(items) {
            export_decls(items, imported, Map::empty(), items)
        } else {
            Ok(export_everything(Map::empty(), items))
        },
    }
}

pub open spec fn imported_view(imp: Seq<(String, Vec<SynItem>)>) -> Seq<(Seq<char>, Seq<ItemV>)> {
    imp.map_values(|e: (String, Vec<SynItem>)| (e.0@, item_views(e.1@)))
}

fn push_names(out: &mut Vec<String>, names: Vec<String>)
    ensures
        string_views(final(out)@) == string_views(old(out)@) + string_views(names@),
{
    let ghost start = string_views(out@);
    let mut i: usize = 0;
    while i < names.len()
        invariant
            i <= names.len(),
            string_views(out@) == start + string_views(names@).take(i as int),
        decreases names.len() - i,
    {
        let ghost before = out@;
        out.push(names[i].clone());
        assert(string_views(out@) =~= string_views(before).push(names@[i as int]@));
        assert(string_views(names@).take(i + 1) =~= string_views(names@).take(i as int).push(names@[i as int]@));
        i += 1;
    }
    assert(string_views(names@).take(names.len() as int) =~= string_views(names@));
}

fn pat_names_exec(p: &SynPat) -> (r: Vec<String>)
    ensures
        string_views(r@) == pat_names(pat_view(*p)),
    decreases p,
{
    match p {
        SynPat::Var(n) => {
            let v = vec![n.clone()];
            assert(string_views(v@) =~= seq![n@]);
            v
        },
        SynPat::Ctor(_, ps) => pats_names_exec(ps),
        SynPat::Tuple(ps) => pats_names_exec(ps),
        SynPat::List(ps) => pats_names_exec(ps),
        SynPat::Record(fs) => fields_names_exec(fs),
        SynPat::RecordLoose(fs, rest) => {
            let mut v = fields_names_exec(fs);
            match rest {
                Some(r) => {
                    let ghost before = v@;
                    v.push(r.clone());
                    assert(string_views(v@) =~= string_views(before) + seq![r@]);
                },
                None => {
                    assert(string_views(v@) =~= string_views(v@) + Seq::<Seq<char>>::empty());
                },
            }
            v
        },
        SynPat::Cons(a, b) => {
            let mut v = pat_names_exec(a);
            push_names(&mut v, pat_names_exec(b));
            v
        },
        SynPat::Or(a, b) => {
            let mut v = pat_names_exec(a);
            push_names(&mut v, pat_names_exec(b));
            v
        },
        SynPat::View(q, _) => pat_names_exec(q),
        SynPat::Wildcard => {
            let v: Vec<String> = Vec::new();
            assert(string_views(v@) =~= Seq::<Seq<char>>::empty());
            v
        },
        SynPat::Lit(_) => {
            let v: Vec<String> = Vec::new();
            assert(string_views(v@) =~= Seq::<Seq<char>>::empty());
            v
        },
    }
}

fn pats_names_exec(ps: &Vec<SynPat>) -> (r: Vec<String>)
    ensures
        string_views(r@) == pats_names(pat_views(ps@)),
    decreases ps,
{
    let mut out: Vec<String> = Vec::new();
    let mut i: usize = 0;
    assert(ps@.take(0) =~= Seq::<SynPat>::empty());
    assert(string_views(out@) =~= Seq::<Seq<char>>::empty());
    while i < ps.len()
        invariant
            i <= ps.len(),
            string_views(out@) == pats_names(pat_views(ps@.take(i as int))),
        decreases ps.len() - i,
    {
        proof {
            assert(ps@.take(i + 1) =~= ps@.take(i as int).push(ps@[i as int]));
            assert(ps@.take(i + 1).drop_last() =~= ps@.take(i as int));
            let pv = pat_views(ps@.take(i + 1));
            assert(pv == pat_views(ps@.take(i as int)).push(pat_view(ps@[i as int])));
            assert(pv.drop_last() =~= pat_views(ps@.take(i as int)));
        }
        let v = pat_names_exec(&ps[i]);
        push_names(&mut out, v);
        i += 1;
    }
    assert(ps@.take(ps.len() as int) =~= ps@);
    out
}

fn fields_names_exec(fs: &Vec<(String, SynPat)>) -> (r: Vec<String>)
    ensures
        string_views(r@) == fields_names(pat_field_views(fs@)),
    decreases fs,
{
    let mut out: Vec<String> = Vec::new();
    let mut i: usize = 0;
    assert(fs@.take(0) =~= Seq::<(String, SynPat)>::empty());
    assert(string_views(out@) =~= Seq::<Seq<char>>::empty());
    while i < fs.len()
        invariant
            i <= fs.len(),
            string_views(out@) == fields_names(pat_field_views(fs@.take(i as int))),
        decreases fs.len() - i,
    {
        proof {
            assert(fs@.take(i + 1) =~= fs@.take(i as int).push(fs@[i as int]));
            assert(fs@.take(i + 1).drop_last() =~= fs@.take(i as int));
            let fv = pat_field_views(fs@.take(i + 1));
            assert(fv == pat_field_views(fs@.take(i as int)).push((fs@[i as int].0@, pat_view(fs@[i as int].1))));
            assert(fv.drop_last() =~= pat_field_views(fs@.take(i as int)));
        }
        let v = pat_names_exec(&fs[i].1);
        push_names(&mut out, v);
        i += 1;
    }
    assert(fs@.take(fs.len() as int) =~= fs@);
    out
}

fn contains_name(v: &Vec<String>, n: &String) -> (r: bool)
    ensures
        r == string_views(v@).contains(n@),
{
    let mut i: usize = 0;
    while i < v.len()
        invariant
            i <= v.len(),
            forall|j: int| 0 <= j < i ==> string_views(v@)[j] != n@,
        decreases v.len() - i,
    {
        if str_eq(v[i].as_str(), n.as_str()) {
            assert(string_views(v@)[i as int] == n@);
            return true;
        }
        i += 1;
    }
    false
}

fn ctor_names(cs: &Vec<SynCtor>) -> (r: Vec<String>)
    ensures
        string_views(r@) == ctor_name_list(ctor_views(cs@)),
{
    let mut out: Vec<String> = Vec::new();
    let mut i: usize = 0;
    while i < cs.len()
        invariant
            i <= cs.len(),
            out@.len() == i,
            forall|j: int| 0 <= j < i ==> (#[trigger] out@[j])@ == cs@[j].name@,
        decreases cs.len() - i,
    {
        out.push(cs[i].name.clone());
        i += 1;
    }
    assert(string_views(out@) =~= ctor_name_list(ctor_views(cs@)));
    out
}

/// The kind of symbol that the first item defining `n` gives it.
pub fn classify_exported_name(items: &Vec<SynItem>, n: &String) -> (r: SymbolKind)
    ensures
        r == classify(item_views(items@), n@),
{
    let ghost iv = item_views(items@);
    proof {
        crate::resolve::lemma_item_views_index(items@);
    }
    let mut i: usize = 0;
    assert(iv.skip(0) =~= iv);
    while i < items.len()
        invariant
            i <= items.len(),
            iv == item_views(items@),
            iv.len() == items@.len(),
            forall|j: int| 0 <= j < items@.len() ==> #[trigger] iv[j] == item_view(items@[j]),
            classify(iv, n@) == classify(iv.skip(i as int), n@),
        decreases items.len() - i,
    {
        let ghost rest = iv.skip(i as int);
        assert(rest[0] == iv[i as int]);
        assert(rest.drop_first() =~= iv.skip(i + 1));
        match &items[i] {
            SynItem::Binding(b) => {
                let names = pat_names_exec(&b.pat);
                if contains_name(&names, n) {
                    return SymbolKind::Value;
                }
            },
            SynItem::TypeAlias(t) => {
                if str_eq(t.name.as_str(), n.as_str()) {
                    return SymbolKind::TypeAlias;
                }
            },
            SynItem::DataDecl(d) => {
                if str_eq(d.name.as_str(), n.as_str()) {
                    return SymbolKind::Type;
                }
                let cs = ctor_names(&d.ctors);
                let ghost cv = ctor_views(d.ctors@);
                assert(iv[i as int] == ItemV::DataDecl(d.name@, string_views(d.params@), cv));
                if contains_name(&cs, n) {
                    proof {
                        let k = choose|k: int| 0 <= k < string_views(cs@).len() && string_views(cs@)[k] == n@;
                        assert(string_views(cs@).len() == cv.len());
                        assert(cv[k].0 == n@);
                        assert(exists|k: int| 0 <= k < cv.len() && cv[k].0 == n@);
                        assert(rest.len() > 0);
                        assert(rest[0] == ItemV::DataDecl(d.name@, string_views(d.params@), cv));
                        assert(d.name@ != n@);
                        assert(has_ctor(cv, n@));
                        assert(classify(rest, n@) == SymbolKind::Ctor);
                    }
                    return SymbolKind::Ctor;
                }
                proof {
                    assert forall|k: int| 0 <= k < ctor_views(d.ctors@).len() implies ctor_views(d.ctors@)[k].0 != n@ by {
                        assert(string_views(cs@)[k] == ctor_views(d.ctors@)[k].0);
                    }
                }
            },
            SynItem::ClassDecl(c) => {
                if str_eq(c.name.as_str(), n.as_str()) {
                    return SymbolKind::Class;
                }
            },
            _ => {},
        }
        i += 1;
    }
    SymbolKind::Value
}

/// The kind of an exported type name.
pub fn classify_type_export(items: &Vec<SynItem>, n: &String) -> (r: SymbolKind)
    ensures
        r == classify_type(item_views(items@), n@),
{
    let ghost iv = item_views(items@);
    proof {
        crate::resolve::lemma_item_views_index(items@);
    }
    let mut i: usize = 0;
    assert(iv.skip(0) =~= iv);
    while i < items.len()
        invariant
            i <= items.len(),
            iv == item_views(items@),
            iv.len() == items@.len(),
            forall|j: int| 0 <= j < items@.len() ==> #[trigger] iv[j] == item_view(items@[j]),
            classify_type(iv, n@) == classify_type(iv.skip(i as int), n@),
        decreases items.len() - i,
    {
        let ghost rest = iv.skip(i as int);
        assert(rest[0] == iv[i as int]);
        assert(rest.drop_first() =~= iv.skip(i + 1));
        match &items[i] {
            SynItem::DataDecl(d) => {
                if str_eq(d.name.as_str(), n.as_str()) {
                    return SymbolKind::Type;
                }
            },
            SynItem::ClassDecl(c) => {
                if str_eq(c.name.as_str(), n.as_str()) {
                    return SymbolKind::Class;
                }
            },
            _ => {},
        }
        i += 1;
    }
    SymbolKind::Type
}

fn data_ctors_exec(items: &Vec<SynItem>, n: &String) -> (r: Option<Vec<String>>)
    ensures
        match data_ctors(item_views(items@), n@) {
            Some(cs) => r is Some && string_views(r->Some_0@) == cs,
            None => r is None,
        },
{
    let ghost iv = item_views(items@);
    proof {
        crate::resolve::lemma_item_views_index(items@);
    }
    let mut i: usize = 0;
    assert(iv.skip(0) =~= iv);
    while i < items.len()
        invariant
            i <= items.len(),
            iv == item_views(items@),
            iv.len() == items@.len(),
            forall|j: int| 0 <= j < items@.len() ==> #[trigger] iv[j] == item_view(items@[j]),
            data_ctors(iv, n@) == data_ctors(iv.skip(i as int), n@),
        decreases items.len() - i,
    {
        let ghost rest = iv.skip(i as int);
        assert(rest[0] == iv[i as int]);
        assert(rest.drop_first() =~= iv.skip(i + 1));
        if let SynItem::DataDecl(d) = &items[i] {
            if str_eq(d.name.as_str(), n.as_str()) {
                return Some(ctor_names(&d.ctors));
            }
        }
        i += 1;
    }
    None
}

fn alias_rhs_exec<'a>(items: &'a Vec<SynItem>, n: &String) -> (r: Option<&'a SynType>)
    ensures
        match alias_rhs(item_views(items@), n@) {
            Some(t) => r is Some && type_view(*r->Some_0) == t,
            None => r is None,
        },
{
    let ghost iv = item_views(items@);
    proof {
        crate::resolve::lemma_item_views_index(items@);
    }
    let mut i: usize = 0;
    assert(iv.skip(0) =~= iv);
    while i < items.len()
        invariant
            i <= items.len(),
            iv == item_views(items@),
            iv.len() == items@.len(),
            forall|j: int| 0 <= j < items@.len() ==> #[trigger] iv[j] == item_view(items@[j]),
            alias_rhs(iv, n@) == alias_rhs(iv.skip(i as int), n@),
        decreases items.len() - i,
    {
        let ghost rest = iv.skip(i as int);
        assert(rest[0] == iv[i as int]);
        assert(rest.drop_first() =~= iv.skip(i + 1));
        if let SynItem::TypeAlias(t) = &items[i] {
            if str_eq(t.name.as_str(), n.as_str()) {
                return Some(&t.ty);
            }
        }
        i += 1;
    }
    None
}

fn imports_module_exec(items: &Vec<SynItem>, m: &String) -> (r: bool)
    ensures
        r == imports_module(item_views(items@), m@),
{
    let ghost iv = item_views(items@);
    proof {
        crate::resolve::lemma_item_views_index(items@);
    }
    let mut i: usize = 0;
    while i < items.len()
        invariant
            i <= items.len(),
            iv == item_views(items@),
            iv.len() == items@.len(),
            forall|j: int| 0 <= j < items@.len() ==> #[trigger] iv[j] == item_view(items@[j]),
            forall|j: int| 0 <= j < i ==> !(#[trigger] iv[j] matches ItemV::Import(x, _, _, _) && x == m@),
        decreases items.len() - i,
    {
        if let SynItem::Import(id) = &items[i] {
            if str_eq(id.module.as_str(), m.as_str()) {
                assert(iv[i as int] matches ItemV::Import(x, _, _, _) && x == m@);
                return true;
            }
        }
        i += 1;
    }
    false
}

fn loaded_decls_exec<'a>(imported: &'a Vec<(String, Vec<SynItem>)>, m: &String) -> (r: Option<&'a Vec<SynItem>>)
    ensures
        match loaded_decls(imported_view(imported@), m@) {
            Some(ds) => r is Some && item_views(r->Some_0@) == ds,
            None => r is None,
        },
{
    let ghost v = imported_view(imported@);
    let mut i: usize = 0;
    assert(v.skip(0) =~= v);
    while i < imported.len()
        invariant
            i <= imported.len(),
            v == imported_view(imported@),
            loaded_decls(v, m@) == loaded_decls(v.skip(i as int), m@),
        decreases imported.len() - i,
    {
        let ghost rest = v.skip(i as int);
        assert(rest[0] == v[i as int]);
        assert(rest.drop_first() =~= v.skip(i + 1));
        if str_eq(imported[i].0.as_str(), m.as_str()) {
            return Some(&imported[i].1);
        }
        i += 1;
    }
    None
}

fn aliased_ctors_exec(items: &Vec<SynItem>, imported: &Vec<(String, Vec<SynItem>)>, t: &SynType) -> (r: Option<Vec<String>>)
    ensures
        match aliased_ctors(item_views(items@), imported_view(imported@), type_view(*t)) {
            Some(cs) => r is Some && string_views(r->Some_0@) == cs,
            None => r is None,
        },
{
    let target: &String = match t {
        SynType::Var(n) => {
            assert(alias_target(type_view(*t)) == Some(n@));
            n
        },
        SynType::App(h, _) => match &**h {
            SynType::Var(n) => {
                assert(type_view(**h) == TypeV::Var(n@));
                assert(alias_target(type_view(*t)) == Some(n@));
                n
            },
            _ => {
                assert(!(type_view(**h) is Var));
                assert(alias_target(type_view(*t)) is None);
                return None;
            },
        },
    };
    match QualName::parse(target.as_str()) {
        Some(q) => {
            assert(parse_qual(target@) == Some((q.module.0@, q.name.0@)));
            if !imports_module_exec(items, &q.module.0) {
                return None;
            }
            match loaded_decls_exec(imported, &q.module.0) {
                Some(ds) => data_ctors_exec(ds, &q.name.0),
                None => None,
            }
        },
        None => {
            assert(parse_qual(target@) is None);
            data_ctors_exec(items, target)
        },
    }
}

fn insert_ctors_exec(table: &mut ExportTable, ns: &Vec<String>)
    ensures
        final(table)@ == insert_ctors(old(table)@, string_views(ns@)),
{
    let ghost m0 = table@;
    let ghost nv = string_views(ns@);
    let mut i: usize = 0;
    assert(nv.take(0) =~= Seq::<Seq<char>>::empty());
    while i < ns.len()
        invariant
            i <= ns.len(),
            nv == string_views(ns@),
            table@ == insert_ctors(m0, nv.take(i as int)),
        decreases ns.len() - i,
    {
        assert(nv.take(i + 1).drop_last() =~= nv.take(i as int));
        assert(nv.take(i + 1).last() == ns@[i as int]@);
        table.insert(ns[i].clone(), SymbolKind::Ctor);
        i += 1;
    }
    assert(nv.take(ns.len() as int) =~= nv);
}

fn insert_values_exec(table: &mut ExportTable, ns: &Vec<String>)
    ensures
        final(table)@ == insert_values(old(table)@, string_views(ns@)),
{
    let ghost m0 = table@;
    let ghost nv = string_views(ns@);
    let mut i: usize = 0;
    assert(nv.take(0) =~= Seq::<Seq<char>>::empty());
    while i < ns.len()
        invariant
            i <= ns.len(),
            nv == string_views(ns@),
            table@ == insert_values(m0, nv.take(i as int)),
        decreases ns.len() - i,
    {
        assert(nv.take(i + 1).drop_last() =~= nv.take(i as int));
        assert(nv.take(i + 1).last() == ns@[i as int]@);
        table.insert(ns[i].clone(), SymbolKind::Value);
        i += 1;
    }
    assert(nv.take(ns.len() as int) =~= nv);
}

proof fn lemma_insert_listed_err(m: Map<Seq<char>, SymbolKind>, name: Seq<char>, known: Seq<Seq<char>>, cs: Seq<Seq<char>>, k: int)
    requires
        0 <= k <= cs.len(),
        insert_listed(m, name, known, cs.take(k)) is Err,
    ensures
        insert_listed(m, name, known, cs) == insert_listed(m, name, known, cs.take(k)),
    decreases cs.len() - k,
{
    if k < cs.len() {
        assert(cs.take(k + 1).drop_last() =~= cs.take(k));
        lemma_insert_listed_err(m, name, known, cs, k + 1);
    } else {
        assert(cs.take(k) =~= cs);
    }
}

/// The outcome of recording exports as the model states it.
pub open spec fn table_outcome(r: Result<(), String>, t: ExportTable, m: Result<Map<Seq<char>, SymbolKind>, Seq<char>>) -> bool {
    match m {
        Ok(x) => r is Ok && t@ == x,
        Err(e) => r is Err && r->Err_0@ == e,
    }
}

fn export_one_exec(table: &mut ExportTable, items: &Vec<SynItem>, imported: &Vec<(String, Vec<SynItem>)>, e: &SynExportSpec) -> (r: Result<(), String>)
    ensures
        table_outcome(r, *final(table), export_one(item_views(items@), imported_view(imported@), old(table)@, export_view(*e))),
{
    match e {
        SynExportSpec::Name(n) => {
            let k = classify_exported_name(items, n);
            table.insert(n.clone(), k);
            Ok(())
        },
        SynExportSpec::Type { name, ctors } => {
            let k = classify_type_export(items, name);
            table.insert(name.clone(), k);
            match data_ctors_exec(items, name) {
                Some(known) => match ctors {
                    SynExportCtors::All => {
                        insert_ctors_exec(table, &known);
                        Ok(())
                    },
                    SynExportCtors::Listed(cs) => {
                        let ghost m1 = table@;
                        let ghost kv = string_views(known@);
                        let ghost cv = string_views(cs@);
                        assert(export_view(*e) == ExportV::TypeSome(name@, cv));
                        let mut i: usize = 0;
                        assert(cv.take(0) =~= Seq::<Seq<char>>::empty());
                        while i < cs.len()
                            invariant
                                i <= cs.len(),
                                kv == string_views(known@),
                                cv == string_views(cs@),
                                insert_listed(m1, name@, kv, cv.take(i as int)) == Ok::<Map<Seq<char>, SymbolKind>, Seq<char>>(table@),
                                m1 == old(table)@.insert(name@, classify_type(item_views(items@), name@)),
                                data_ctors(item_views(items@), name@) == Some(kv),
                                export_view(*e) == ExportV::TypeSome(name@, cv),
                            decreases cs.len() - i,
                        {
                            assert(cv.take(i + 1).drop_last() =~= cv.take(i as int));
                            assert(cv.take(i + 1).last() == cs@[i as int]@);
                            if !contains_name(&known, &cs[i]) {
                                let mut msg = String::from_str("export list references unknown constructor: ");
                                msg.append(name.as_str());
                                msg.append("(");
                                msg.append(cs[i].as_str());
                                msg.append(")");
                                proof {
                                    lemma_insert_listed_err(m1, name@, kv, cv, i as int + 1);
                                }
                                return Err(msg);
                            }
                            table.insert(cs[i].clone(), SymbolKind::Ctor);
                            i += 1;
                        }
                        assert(cv.take(cs.len() as int) =~= cv);
                        Ok(())
                    },
                },
                None => {
                    if let SynExportCtors::All = ctors {
                        if let Some(t) = alias_rhs_exec(items, name) {
                            if let Some(cs) = aliased_ctors_exec(items, imported, t) {
                                insert_ctors_exec(table, &cs);
                            }
                        }
                    }
                    Ok(())
                },
            }
        },
    }
}

proof fn lemma_export_all_err(
    items: Seq<ItemV>,
    imported: Seq<(Seq<char>, Seq<ItemV>)>,
    m: Map<Seq<char>, SymbolKind>,
    es: Seq<ExportV>,
    k: int,
)
    requires
        0 <= k <= es.len(),
        export_all(items, imported, m, es.take(k)) is Err,
    ensures
        export_all(items, imported, m, es) == export_all(items, imported, m, es.take(k)),
    decreases es.len() - k,
{
    if k < es.len() {
        assert(es.take(k + 1).drop_last() =~= es.take(k));
        lemma_export_all_err(items, imported, m, es, k + 1);
    } else {
        assert(es.take(k) =~= es);
    }
}

fn export_all_exec(table: &mut ExportTable, items: &Vec<SynItem>, imported: &Vec<(String, Vec<SynItem>)>, es: &Vec<SynExportSpec>) -> (r: Result<(), String>)
    ensures
        table_outcome(r, *final(table), export_all(item_views(items@), imported_view(imported@), old(table)@, export_views(es@))),
{
    let ghost m0 = table@;
    let ghost ev = export_views(es@);
    let ghost iv = item_views(items@);
    let ghost pv = imported_view(imported@);
    let mut i: usize = 0;
    assert(ev.take(0) =~= Seq::<ExportV>::empty());
    while i < es.len()
        invariant
            i <= es.len(),
            ev == export_views(es@),
            iv == item_views(items@),
            pv == imported_view(imported@),
            export_all(iv, pv, m0, ev.take(i as int)) == Ok::<Map<Seq<char>, SymbolKind>, Seq<char>>(table@),
            m0 == old(table)@,
        decreases es.len() - i,
    {
        assert(ev.take(i + 1).drop_last() =~= ev.take(i as int));
        assert(ev.take(i + 1).last() == export_view(es@[i as int]));
        let r = export_one_exec(table, items, imported, &es[i]);
        match r {
            Err(e) => {
                proof {
                    lemma_export_all_err(iv, pv, m0, ev, i as int + 1);
                }
                return Err(e);
            },
            Ok(_) => {},
        }
        i += 1;
    }
    assert(ev.take(es.len() as int) =~= ev);
    Ok(())
}

pub open spec fn header_view(h: Option<Vec<SynExportSpec>>) -> Option<Seq<ExportV>> {
    match h {
        Some(es) => Some(export_views(es@)),
        None => None,
    }
}

proof fn lemma_export_decls_err(
    items: Seq<ItemV>,
    imported: Seq<(Seq<char>, Seq<ItemV>)>,
    m: Map<Seq<char>, SymbolKind>,
    ds: Seq<ItemV>,
    k: int,
)
    requires
        0 <= k <= ds.len(),
        export_decls(items, imported, m, ds.take(k)) is Err,
    ensures
        export_decls(items, imported, m, ds) == export_decls(items, imported, m, ds.take(k)),
    decreases ds.len() - k,
{
    if k < ds.len() {
        assert(ds.take(k + 1).drop_last() =~= ds.take(k));
        lemma_export_decls_err(items, imported, m, ds, k + 1);
    } else {
        assert(ds.take(k) =~= ds);
    }
}

/// What a module exports, each name with the kind of symbol it names: the
/// entries of the export list in its header if it has one; else those of
/// its export declarations, if any; else everything it defines. The
/// constructors that a type alias re-exports come from this module or from
/// `imported`, the modules it imports that could be loaded, by name.
pub fn module_exported_names(module: &SynModule, imported: &Vec<(String, Vec<SynItem>)>) -> (r: Result<ExportTable, String>)
    ensures
        match module_exports_spec(header_view(module.export_specs), item_views(module.items@), imported_view(imported@)) {
            Ok(m) => r is Ok && r->Ok_0@ == m,
            Err(e) => r is Err && r->Err_0@ == e,
        },
{
    let ghost iv = item_views(module.items@);
    let ghost pv = imported_view(imported@);
    let mut table = ExportTable::new();
    if let Some(specs) = &module.export_specs {
        let r = export_all_exec(&mut table, &module.items, imported, specs);
        return match r {
            Ok(_) => Ok(table),
            Err(e) => Err(e),
        };
    }
    proof {
        crate::resolve::lemma_item_views_index(module.items@);
    }
    let mut has_decl = false;
    let mut i: usize = 0;
    while i < module.items.len()
        invariant
            i <= module.items.len(),
            iv == item_views(module.items@),
            iv.len() == module.items@.len(),
            forall|j: int| 0 <= j < module.items@.len() ==> #[trigger] iv[j] == item_view(module.items@[j]),
            has_decl == exists|j: int| 0 <= j < i && #[trigger] iv[j] is Export,
        decreases module.items.len() - i,
    {
        if let SynItem::Export(_) = &module.items[i] {
            assert(iv[i as int] is Export);
            has_decl = true;
        }
        i += 1;
    }
    assert(has_decl == has_export_decl(iv));
    if has_decl {
        let mut k: usize = 0;
        assert(iv.take(0) =~= Seq::<ItemV>::empty());
        while k < module.items.len()
            invariant
                k <= module.items.len(),
                iv == item_views(module.items@),
                pv == imported_view(imported@),
                iv.len() == module.items@.len(),
                forall|j: int| 0 <= j < module.items@.len() ==> #[trigger] iv[j] == item_view(module.items@[j]),
                export_decls(iv, pv, Map::empty(), iv.take(k as int)) == Ok::<Map<Seq<char>, SymbolKind>, Seq<char>>(table@),
                module.export_specs is None,
                has_export_decl(iv),
            decreases module.items.len() - k,
        {
            assert(iv.take(k + 1).drop_last() =~= iv.take(k as int));
            assert(iv.take(k + 1).last() == iv[k as int]);
            if let SynItem::Export(es) = &module.items[k] {
                let r = export_all_exec(&mut table, &module.items, imported, es);
                match r {
                    Err(e) => {
                        proof {
                            lemma_export_decls_err(iv, pv, Map::empty(), iv, k as int + 1);
                        }
                        return Err(e);
                    },
                    Ok(_) => {},
                }
            }
            k += 1;
        }
        assert(iv.take(module.items.len() as int) =~= iv);
        return Ok(table);
    }
    let mut k: usize = 0;
    assert(iv.take(0) =~= Seq::<ItemV>::empty());
    while k < module.items.len()
        invariant
            k <= module.items.len(),
            iv == item_views(module.items@),
            iv.len() == module.items@.len(),
            forall|j: int| 0 <= j < module.items@.len() ==> #[trigger] iv[j] == item_view(module.items@[j]),
            table@ == export_everything(Map::empty(), iv.take(k as int)),
            module.export_specs is None,
            !has_export_decl(iv),
        decreases module.items.len() - k,
    {
        assert(iv.take(k + 1).drop_last() =~= iv.take(k as int));
        assert(iv.take(k + 1).last() == iv[k as int]);
        match &module.items[k] {
            SynItem::Binding(b) => {
                let names = pat_names_exec(&b.pat);
                insert_values_exec(&mut table, &names);
            },
            SynItem::TypeAlias(t) => {
                table.insert(t.name.clone(), SymbolKind::TypeAlias);
            },
            SynItem::DataDecl(d) => {
                table.insert(d.name.clone(), SymbolKind::Type);
                let cs = ctor_names(&d.ctors);
                insert_ctors_exec(&mut table, &cs);
            },
            _ => {},
        }
        k += 1;
    }
    assert(iv.take(module.items.len() as int) =~= iv);
    Ok(table)
}

} // verus!
