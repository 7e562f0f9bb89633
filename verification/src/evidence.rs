//! Unification with diagnostics: a failed unification is reported with the
//! goal, hints on where names come from, and notes on where the types and
//! aliases involved are defined.
use vstd::prelude::*;
use vstd::string::StringSliceAdditionalSpecFns;
use vstd::utf8::{encode_utf8, is_char_boundary};
use crate::aliases::{
    chain_notes, join_lines, lines_of, local_alias_notes, source_notes, string_alias_chain_note, string_alias_def_line,
    string_alias_target, string_def_line_spec,
};
use crate::display::{decimal, write_decimal};
use crate::hints::{
    lookup,
    entry_views, format_unify_name_hints, hint_views, qual_key, unify_def_evidence, unify_evidence_v, unify_goal_message,
    unify_goal_text, unify_hint, DefHint, DefHintKind, DefHintV, NameHints,
};
use crate::location::{clamp_offset, def_loc, def_loc_spec};
use crate::names::{str_eq, string_views, ModuleName, QualName, UnqualName};
use crate::origins::rhs_views;
use crate::subst::{subst_view, Subst};
use crate::ty::Ty;
use crate::unify::{unify, unify_v, UnifyError};

verus! {

/// Where names are defined: by qualified name, the path of the file and the
/// byte offset of the definition; and the text of each loaded file.
pub struct DefEvidence {
    pub type_ctor: Vec<(String, (String, usize))>,
    pub type_alias: Vec<(String, (String, usize))>,
    pub sources: Vec<(String, String)>,
}

pub type SiteV = (Seq<char>, nat);

pub open spec fn sites_view(s: Seq<(String, (String, usize))>) -> Seq<(Seq<char>, SiteV)> {
    s.map_values(|e: (String, (String, usize))| (e.0@, (e.1.0@, e.1.1 as nat)))
}

/// The last entry for `k`.
pub open spec fn find_site(s: Seq<(Seq<char>, SiteV)>, k: Seq<char>) -> Option<SiteV>
    decreases s.len(),
{
    if s.len() == 0 {
        None
    } else if s.last().0 == k {
        Some(s.last().1)
    } else {
        find_site(s.drop_last(), k)
    }
}

/// The bytes of the last loaded file at `p`.
pub open spec fn find_text(s: Seq<(String, String)>, p: Seq<char>) -> Option<Seq<u8>>
    decreases s.len(),
{
    if s.len() == 0 {
        None
    } else if s.last().0@ == p {
        Some(encode_utf8(s.last().1@))
    } else {
        find_text(s.drop_last(), p)
    }
}

/// The place `(path, line, column)` of the definition of `h`, where its
/// site and file are known.
pub open spec fn hint_place(ev: DefEvidence, h: DefHintV) -> Option<(Seq<char>, nat, nat)> {
    let sites = match h.0 {
        DefHintKind::TypeCtor => sites_view(ev.type_ctor@),
        DefHintKind::TypeAlias => sites_view(ev.type_alias@),
    };
    match find_site(sites, qual_key(h.2)) {
        None => None,
        Some(site) => match find_text(ev.sources@, site.0) {
            None => None,
            Some(bytes) => Some((site.0, def_loc_spec(bytes, site.1).0, def_loc_spec(bytes, site.1).1)),
        },
    }
}

pub open spec fn kind_word(k: DefHintKind) -> Seq<char> {
    match k {
        DefHintKind::TypeCtor => "type ctor"@,
        DefHintKind::TypeAlias => "type alias"@,
    }
}

/// The notes on where each hint's name is defined, for those whose place is
/// known.
pub open spec fn evidence_lines(ev: DefEvidence, hs: Seq<DefHintV>) -> Seq<Seq<char>>
    decreases hs.len(),
{
    if hs.len() == 0 {
        Seq::empty()
    } else {
        let prev = evidence_lines(ev, hs.drop_last());
        let h = hs.last();
        match hint_place(ev, h) {
            None => prev,
            Some(p) => prev.push(
                "note: "@ + kind_word(h.0) + " `"@ + h.1 + "` resolves to `"@ + qual_key(h.2) + "` at "@ + p.0 + ":"@
                    + decimal(p.1) + ":"@ + decimal(p.2),
            ),
        }
    }
}

/// Every recorded definition site starts on a character boundary of each
/// loaded file at its path, and each loaded file fits the machine.
pub open spec fn evidence_valid(ev: DefEvidence) -> bool {
    &&& forall|i: int| 0 <= i < ev.sources@.len() ==> (#[trigger] ev.sources@[i]).1@.len() < usize::MAX
        && encode_utf8(ev.sources@[i].1@).len() <= isize::MAX
    &&& forall|i: int, j: int|
        0 <= i < ev.type_ctor@.len() && 0 <= j < ev.sources@.len() && #[trigger] ev.sources@[j].0@
            == #[trigger] ev.type_ctor@[i].1.0@ ==> is_char_boundary(
            encode_utf8(ev.sources@[j].1@),
            clamp_offset(encode_utf8(ev.sources@[j].1@), ev.type_ctor@[i].1.1 as nat),
        )
    &&& forall|i: int, j: int|
        0 <= i < ev.type_alias@.len() && 0 <= j < ev.sources@.len() && #[trigger] ev.sources@[j].0@
            == #[trigger] ev.type_alias@[i].1.0@ ==> is_char_boundary(
            encode_utf8(ev.sources@[j].1@),
            clamp_offset(encode_utf8(ev.sources@[j].1@), ev.type_alias@[i].1.1 as nat),
        )
}

/// Where `String` is defined: by the definition sites where known, else by
/// the first `type String = ...` line of the prelude's text.
pub open spec fn string_place(
    ev: Option<DefEvidence>,
    aliases: Seq<(Seq<char>, crate::hints::QualV)>,
    prelude: Option<(Seq<char>, Seq<char>)>,
) -> Option<(Seq<char>, nat, nat)> {
    let q = string_alias_target(aliases);
    let from_sites = match ev {
        Some(e) => hint_place(e, (DefHintKind::TypeAlias, "String"@, q)),
        None => None,
    };
    match from_sites {
        Some(p) => Some(p),
        None => match prelude {
            Some(pr) => match string_def_line_spec(lines_of(pr.1)) {
                Some(lc) => Some((pr.0, lc.0, lc.1)),
                None => None,
            },
            None => None,
        },
    }
}

/// The notes of a failed unification: where the names involved are defined,
/// where that is known; otherwise the local alias definitions found in the
/// loaded files, and the notes on local aliases of `String`.
pub open spec fn dbg_notes(
    ev: Option<DefEvidence>,
    hs: Seq<DefHintV>,
    hints: NameHints,
    prelude: Option<(Seq<char>, Seq<char>)>,
) -> Seq<char> {
    let lines = match ev {
        Some(e) => evidence_lines(e, hs),
        None => Seq::empty(),
    };
    if lines.len() > 0 {
        join_lines(lines)
    } else {
        let fallback = match ev {
            Some(e) => join_lines(source_notes(crate::aliases::source_views(e.sources@))),
            None => Seq::empty(),
        };
        fallback + chain_notes(
            rhs_views(hints.type_alias_rhs_unqual@),
            string_alias_target(entry_views(hints.type_alias@)),
            string_place(ev, entry_views(hints.type_alias@), prelude),
        )
    }
}

fn find_site_exec(s: &Vec<(String, (String, usize))>, k: &String) -> (r: Option<usize>)
    ensures
        match find_site(sites_view(s@), k@) {
            Some(site) => r is Some && r->Some_0 < s@.len() && (s@[r->Some_0 as int].1.0@, s@[r->Some_0 as int].1.1 as nat) == site,
            None => r is None,
        },
{
    let ghost sv = sites_view(s@);
    let mut i: usize = s.len();
    assert(sv.take(i as int) =~= sv);
    while i > 0
        invariant
            i <= s.len(),
            sv == sites_view(s@),
            find_site(sv, k@) == find_site(sv.take(i as int), k@),
        decreases i,
    {
        assert(sv.take(i as int).drop_last() =~= sv.take(i - 1));
        assert(sv.take(i as int).last() == sv[i - 1]);
        if str_eq(s[i - 1].0.as_str(), k.as_str()) {
            return Some(i - 1);
        }
        i -= 1;
    }
    assert(sv.take(0) =~= Seq::<(Seq<char>, SiteV)>::empty());
    None
}

fn find_text_exec(s: &Vec<(String, String)>, p: &String) -> (r: Option<usize>)
    ensures
        match find_text(s@, p@) {
            Some(b) => r is Some && r->Some_0 < s@.len() && s@[r->Some_0 as int].0@ == p@ && encode_utf8(
                s@[r->Some_0 as int].1@,
            ) == b,
            None => r is None,
        },
{
    let mut i: usize = s.len();
    assert(s@.take(i as int) =~= s@);
    while i > 0
        invariant
            i <= s.len(),
            find_text(s@, p@) == find_text(s@.take(i as int), p@),
        decreases i,
    {
        assert(s@.take(i as int).drop_last() =~= s@.take(i - 1));
        assert(s@.take(i as int).last() == s@[i - 1]);
        if str_eq(s[i - 1].0.as_str(), p.as_str()) {
            return Some(i - 1);
        }
        i -= 1;
    }
    assert(s@.take(0) =~= Seq::<(String, String)>::empty());
    None
}

fn hint_place_exec(ev: &DefEvidence, kind: DefHintKind, key: &String) -> (r: Option<(String, usize, usize)>)
    requires
        evidence_valid(*ev),
    ensures
        match find_site(
            match kind {
                DefHintKind::TypeCtor => sites_view(ev.type_ctor@),
                DefHintKind::TypeAlias => sites_view(ev.type_alias@),
            },
            key@,
        ) {
            None => r is None,
            Some(site) => match find_text(ev.sources@, site.0) {
                None => r is None,
                Some(bytes) => r is Some && r->Some_0.0@ == site.0 && r->Some_0.1 as nat == def_loc_spec(bytes, site.1).0
                    && r->Some_0.2 as nat == def_loc_spec(bytes, site.1).1,
            },
        },
{
    let sites = match kind {
        DefHintKind::TypeCtor => &ev.type_ctor,
        DefHintKind::TypeAlias => &ev.type_alias,
    };
    let i = match find_site_exec(sites, key) {
        None => {
            return None;
        },
        Some(i) => i,
    };
    let path = &sites[i].1.0;
    let start = sites[i].1.1;
    let j = match find_text_exec(&ev.sources, path) {
        None => {
            return None;
        },
        Some(j) => j,
    };
    let src = ev.sources[j].1.as_str();
    proof {
        assert(ev.sources@[j as int].0@ == sites@[i as int].1.0@);
        assert(src.spec_bytes() == encode_utf8(ev.sources@[j as int].1@));
    }
    let (line, col) = def_loc(src, start);
    Some((path.clone(), line, col))
}

fn evidence_note_lines(ev: &DefEvidence, hs: &Vec<DefHint>) -> (r: Vec<String>)
    requires
        evidence_valid(*ev),
    ensures
        string_views(r@) == evidence_lines(*ev, hint_views(hs@)),
{
    let ghost hv = hint_views(hs@);
    let mut out: Vec<String> = Vec::new();
    let mut i: usize = 0;
    assert(hv.take(0) =~= Seq::<DefHintV>::empty());
    assert(string_views(out@) =~= Seq::<Seq<char>>::empty());
    while i < hs.len()
        invariant
            i <= hs.len(),
            hv == hint_views(hs@),
            evidence_valid(*ev),
            string_views(out@) == evidence_lines(*ev, hv.take(i as int)),
        decreases hs.len() - i,
    {
        assert(hv.take(i + 1).drop_last() =~= hv.take(i as int));
        assert(hv.take(i + 1).last() == hv[i as int]);
        let h = &hs[i];
        let key = h.qualified.as_key();
        match hint_place_exec(ev, h.kind, &key) {
            None => {},
            Some((p, l, c)) => {
                let mut line = String::from_str("note: ");
                match h.kind {
                    DefHintKind::TypeCtor => line.append("type ctor"),
                    DefHintKind::TypeAlias => line.append("type alias"),
                }
                line.append(" `");
                line.append(h.unqualified.0.as_str());
                line.append("` resolves to `");
                line.append(key.as_str());
                line.append("` at ");
                line.append(p.as_str());
                line.append(":");
                write_decimal(&mut line, l as u64);
                line.append(":");
                write_decimal(&mut line, c as u64);
                let ghost before = out@;
                out.push(line);
                assert(string_views(out@) =~= string_views(before).push(line@));
            },
        }
        i += 1;
    }
    assert(hv.take(hs.len() as int) =~= hv);
    out
}

fn join_lines_exec(ls: &Vec<String>) -> (r: String)
    ensures
        r@ == join_lines(string_views(ls@)),
{
    let ghost lv = string_views(ls@);
    let mut out = String::new();
    let mut j: usize = 0;
    assert(lv.take(0) =~= Seq::<Seq<char>>::empty());
    while j < ls.len()
        invariant
            j <= ls.len(),
            lv == string_views(ls@),
            out@ == join_lines(lv.take(j as int)),
        decreases ls.len() - j,
    {
        assert(lv.take(j + 1).drop_last() =~= lv.take(j as int));
        assert(lv[j as int] == ls@[j as int]@);
        proof {
            reveal_strlit("\n");
        }
        crate::display::push_char(&mut out, '\n');
        out.append(ls[j].as_str());
        assert(out@ =~= join_lines(lv.take(j + 1)));
        j += 1;
    }
    assert(lv.take(ls.len() as int) =~= lv);
    out
}

pub open spec fn place_view(p: Option<(String, usize, usize)>) -> Option<(Seq<char>, nat, nat)> {
    match p {
        Some(t) => Some((t.0@, t.1 as nat, t.2 as nat)),
        None => None,
    }
}

pub open spec fn ev_view(ev: Option<&DefEvidence>) -> Option<DefEvidence> {
    match ev {
        Some(e) => Some(*e),
        None => None,
    }
}

pub open spec fn prelude_view(p: Option<(&str, &str)>) -> Option<(Seq<char>, Seq<char>)> {
    match p {
        Some(x) => Some((x.0@, x.1@)),
        None => None,
    }
}

/// Unifies `a` with `b`; on failure the error tells the goal in context
/// `ctx`, a hint on where an unqualified constructor resolves, and notes on
/// where the names involved are defined (from `ev`, the definition sites and
/// loaded files, where given), or else on local type aliases and on where
/// `String` is defined (from `prelude`, a path and its text, as a last
/// resort). `seen` are the alias resolutions met while the types were built.
pub fn unify_dbg(
    a: Ty,
    b: Ty,
    ctx: &str,
    hints: &NameHints,
    seen: &Vec<(UnqualName, QualName)>,
    ev: Option<&DefEvidence>,
    prelude: Option<(&str, &str)>,
) -> (r: Result<Subst, String>)
    requires
        match ev {
            Some(e) => evidence_valid(*e),
            None => true,
        },
        match prelude {
            Some(p) => p.1@.len() < usize::MAX,
            None => true,
        },
    ensures
        match unify_v(Map::empty(), a@, b@) {
            Some(Ok(s)) => r is Ok && subst_view(r->Ok_0@) == s,
            Some(Err(e)) => r is Err && r->Err_0@ == unify_goal_text(
                e.message_spec(),
                ctx@,
                crate::display::render(a@, 0, crate::display::pair_names(a@, b@)),
                crate::display::render(b@, 0, crate::display::pair_names(a@, b@)),
                unify_hint(a@, b@, entry_views(hints.type_ctor@)),
                dbg_notes(
                    ev_view(ev),
                    unify_evidence_v(a@, b@, entry_views(hints.type_ctor@), entry_views(hints.type_alias@), entry_views(seen@)),
                    *hints,
                    prelude_view(prelude),
                ),
            ),
            None => false,
        },
{
    let a2 = a.clone();
    let b2 = b.clone();
    let e = match unify(a2, b2) {
        Ok(s) => {
            return Ok(s);
        },
        Err(e) => e,
    };
    let hint = format_unify_name_hints(&a, &b, hints);
    let evidence = unify_def_evidence(&a, &b, hints, seen);
    let lines: Vec<String> = match ev {
        Some(evr) => evidence_note_lines(evr, &evidence),
        None => Vec::new(),
    };
    assert(string_views(lines@) == match ev_view(ev) {
        Some(x) => evidence_lines(x, hint_views(evidence@)),
        None => Seq::<Seq<char>>::empty(),
    });
    let ghost hs = unify_evidence_v(a@, b@, entry_views(hints.type_ctor@), entry_views(hints.type_alias@), entry_views(seen@));
    assert(hint_views(evidence@) == hs);
    let ghost want = dbg_notes(ev_view(ev), hs, *hints, prelude_view(prelude));
    let notes: String = if lines.len() > 0 {
        let n = join_lines_exec(&lines);
        assert(n@ == want);
        n
    } else {
        let mut out = match ev {
            Some(evr) => local_alias_notes(&evr.sources),
            None => String::new(),
        };
        let key = match lookup(&hints.type_alias, "String") {
            Some(q) => {
                let k = q.as_key();
                if str_eq(k.as_str(), "Main.String") {
                    QualName { module: ModuleName("Prelude".to_owned()), name: UnqualName("String".to_owned()) }.as_key()
                } else {
                    k
                }
            },
            None => QualName { module: ModuleName("Prelude".to_owned()), name: UnqualName("String".to_owned()) }.as_key(),
        };
        assert(key@ == qual_key(string_alias_target(entry_views(hints.type_alias@))));
        let from_sites: Option<(String, usize, usize)> = match ev {
            Some(evr) => hint_place_exec(evr, DefHintKind::TypeAlias, &key),
            None => None,
        };
        let ghost q = string_alias_target(entry_views(hints.type_alias@));
        let ghost fsv = place_view(from_sites);
        assert(fsv == match ev_view(ev) {
            Some(x) => hint_place(x, (DefHintKind::TypeAlias, "String"@, q)),
            None => None,
        });
        let place: Option<(String, usize, usize)> = match from_sites {
            Some(t) => Some(t),
            None => match prelude {
                Some((p, src)) => match string_alias_def_line(src) {
                    Some((l, c)) => Some((p.to_owned(), l, c)),
                    None => None,
                },
                None => None,
            },
        };
        let loc: Option<(&str, usize, usize)> = match &place {
            Some(t) => Some((t.0.as_str(), t.1, t.2)),
            None => None,
        };
        let ghost lv: Option<(Seq<char>, nat, nat)> = match loc {
            Some(t) => Some((t.0@, t.1 as nat, t.2 as nat)),
            None => None,
        };
        assert(lv == string_place(ev_view(ev), entry_views(hints.type_alias@), prelude_view(prelude)));
        let chain = string_alias_chain_note(hints, loc);
        let ghost fb = out@;
        assert(fb == match ev_view(ev) {
            Some(x) => join_lines(source_notes(crate::aliases::source_views(x.sources@))),
            None => Seq::<char>::empty(),
        });
        out.append(chain.as_str());
        assert(out@ == want);
        out
    };
    Err(unify_goal_message(e, ctx, &a, &b, hint.as_str(), notes.as_str()))
}

} // verus!
