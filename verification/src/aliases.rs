//! Notes on type aliases defined in loaded source texts, found by a plain
//! scan of their lines for `type Name = ...`.
use vstd::prelude::*;
use crate::display::{decimal, push_char, write_decimal};
use crate::names::{str_chars, str_eq, string_views};
use crate::hints::{entry_views, lookup, qual_key, qual_view, resolve, NameHints, QualV};
use crate::origins::rhs_views;

verus! {

/// A white-space character in the sense of Unicode's `White_Space`
/// property.
pub open spec fn is_ws(c: char) -> bool {
    ('\t' <= c && c <= '\r') || c == ' ' || c == '\u{85}' || c == '\u{a0}' || c == '\u{1680}' || ('\u{2000}' <= c
        && c <= '\u{200a}') || c == '\u{2028}' || c == '\u{2029}' || c == '\u{202f}' || c == '\u{205f}' || c
        == '\u{3000}'
}

/// The number of white-space characters at the start of `s`.
pub open spec fn leading_ws(s: Seq<char>) -> nat
    decreases s.len(),
{
    if s.len() > 0 && is_ws(s[0]) {
        1 + leading_ws(s.skip(1))
    } else {
        0
    }
}

/// `s` without white space at its end.
pub open spec fn trim_end(s: Seq<char>) -> Seq<char>
    decreases s.len(),
{
    if s.len() > 0 && is_ws(s.last()) {
        trim_end(s.drop_last())
    } else {
        s
    }
}

/// `s` without white space at either end.
pub open spec fn trim(s: Seq<char>) -> Seq<char> {
    trim_end(s.skip(leading_ws(s) as int))
}

/// The pieces of `s` between its line feeds.
pub open spec fn pieces(s: Seq<char>) -> Seq<Seq<char>>
    decreases s.len(),
{
    if s.len() == 0 {
        seq![Seq::empty()]
    } else {
        let prev = pieces(s.drop_last());
        if s.last() == '\n' {
            prev.push(Seq::empty())
        } else {
            prev.update(prev.len() - 1, prev.last().push(s.last()))
        }
    }
}

/// A line without the `\r` of a `\r\n` ending.
pub open spec fn strip_cr(l: Seq<char>) -> Seq<char> {
    if l.len() > 0 && l.last() == '\r' {
        l.drop_last()
    } else {
        l
    }
}

/// The lines of `s`: split at `\n` or `\r\n`, with no empty line after a
/// final line ending.
pub open spec fn lines_of(s: Seq<char>) -> Seq<Seq<char>> {
    let p = pieces(s);
    let body = strip_all(p.drop_last());
    if p.last().len() == 0 {
        body
    } else {
        body.push(p.last())
    }
}

/// Each line without the `\r` of a `\r\n` ending.
pub open spec fn strip_all(ls: Seq<Seq<char>>) -> Seq<Seq<char>> {
    ls.map_values(|l: Seq<char>| strip_cr(l))
}

/// The position of the first `c` in `s`.
pub open spec fn first_index(s: Seq<char>, c: char) -> Option<int>
    decreases s.len(),
{
    if s.len() == 0 {
        None
    } else {
        match first_index(s.drop_last(), c) {
            Some(i) => Some(i),
            None => if s.last() == c {
                Some(s.len() - 1)
            } else {
                None
            },
        }
    }
}

/// The position of the first line equal to `l`.
pub open spec fn first_line(ls: Seq<Seq<char>>, l: Seq<char>) -> Option<int>
    decreases ls.len(),
{
    if ls.len() == 0 {
        None
    } else {
        match first_line(ls.drop_last(), l) {
            Some(i) => Some(i),
            None => if ls.last() == l {
                Some(ls.len() - 1)
            } else {
                None
            },
        }
    }
}

/// The alias a line defines: after leading white space, `type `, then a
/// name up to the first `=`, trimmed, non-empty and unqualified.
pub open spec fn alias_name(l: Seq<char>) -> Option<Seq<char>> {
    let t = l.skip(leading_ws(l) as int);
    if t.len() >= 5 && t.take(5) == "type "@ {
        let rest = t.skip(5);
        match first_index(rest, '=') {
            None => None,
            Some(k) => {
                let n = trim(rest.take(k));
                if n.len() == 0 || n.contains('.') {
                    None
                } else {
                    Some(n)
                }
            },
        }
    } else {
        None
    }
}

/// The note for alias `n` defined at `path`, line `line`, column `col`.
pub open spec fn alias_note(path: Seq<char>, n: Seq<char>, line: nat, col: nat) -> Seq<char> {
    "note: type alias `"@ + n + "` is defined locally at "@ + path + ":"@ + decimal(line) + ":"@ + decimal(col)
}

/// The notes for the first `k` of the lines `ls` of the source at `path`;
/// a line is numbered as the first line equal to it.
pub open spec fn line_notes(path: Seq<char>, ls: Seq<Seq<char>>, k: nat) -> Seq<Seq<char>>
    decreases k,
{
    if k == 0 {
        Seq::empty()
    } else {
        let prev = line_notes(path, ls, (k - 1) as nat);
        let l = ls[k - 1];
        match alias_name(l) {
            None => prev,
            Some(n) => {
                let line = match first_line(ls, l) {
                    Some(i) => (i + 1) as nat,
                    None => 1nat,
                };
                prev.push(alias_note(path, n, line, leading_ws(l) + 1))
            },
        }
    }
}

/// The notes of each source, a path and its text, in order.
pub open spec fn source_notes(srcs: Seq<(Seq<char>, Seq<char>)>) -> Seq<Seq<char>>
    decreases srcs.len(),
{
    if srcs.len() == 0 {
        Seq::empty()
    } else {
        let (path, text) = srcs.last();
        source_notes(srcs.drop_last()) + line_notes(path, lines_of(text), lines_of(text).len())
    }
}

/// The lines joined, each after a line feed.
pub open spec fn join_lines(ls: Seq<Seq<char>>) -> Seq<char>
    decreases ls.len(),
{
    if ls.len() == 0 {
        Seq::empty()
    } else {
        join_lines(ls.drop_last()) + "\n"@ + ls.last()
    }
}

fn is_ws_exec(c: char) -> (r: bool)
    ensures
        r == is_ws(c),
{
    ('\t' <= c && c <= '\r') || c == ' ' || c == '\u{85}' || c == '\u{a0}' || c == '\u{1680}' || ('\u{2000}' <= c
        && c <= '\u{200a}') || c == '\u{2028}' || c == '\u{2029}' || c == '\u{202f}' || c == '\u{205f}' || c
        == '\u{3000}'
}

proof fn lemma_leading_ws(s: Seq<char>, i: int)
    requires
        0 <= i <= s.len(),
        forall|j: int| 0 <= j < i ==> is_ws(s[j]),
    ensures
        leading_ws(s) == i + leading_ws(s.skip(i)),
    decreases i,
{
    if i > 0 {
        lemma_leading_ws(s.skip(1), i - 1);
        assert(s.skip(1).skip(i - 1) =~= s.skip(i));
    } else {
        assert(s.skip(0) =~= s);
    }
}

/// The number of white-space characters at the start of `s`.
fn leading_ws_exec(s: &Vec<char>) -> (r: usize)
    ensures
        r == leading_ws(s@),
        r <= s@.len(),
{
    let mut i: usize = 0;
    while i < s.len() && is_ws_exec(s[i])
        invariant
            i <= s.len(),
            forall|j: int| 0 <= j < i ==> is_ws(s@[j]),
        decreases s.len() - i,
    {
        i += 1;
    }
    proof {
        lemma_leading_ws(s@, i as int);
        assert(leading_ws(s@.skip(i as int)) == 0);
    }
    i
}

fn sub_chars(s: &Vec<char>, a: usize, b: usize) -> (r: Vec<char>)
    requires
        a <= b <= s.len(),
    ensures
        r@ == s@.subrange(a as int, b as int),
{
    let mut out: Vec<char> = Vec::new();
    let mut i: usize = a;
    while i < b
        invariant
            a <= i <= b <= s.len(),
            out@ == s@.subrange(a as int, i as int),
        decreases b - i,
    {
        out.push(s[i]);
        i += 1;
        assert(out@ =~= s@.subrange(a as int, i as int));
    }
    out
}

fn trim_exec(s: &Vec<char>) -> (r: Vec<char>)
    ensures
        r@ == trim(s@),
{
    let start = leading_ws_exec(s);
    let ghost t = s@.skip(start as int);
    let mut end: usize = s.len();
    assert(t.take((end - start) as int) =~= t);
    while end > start && is_ws_exec(s[end - 1])
        invariant
            start <= end <= s.len(),
            t == s@.skip(start as int),
            trim_end(t) == trim_end(t.take((end - start) as int)),
        decreases end,
    {
        let ghost u = t.take((end - start) as int);
        assert(u.drop_last() =~= t.take((end - 1 - start) as int));
        assert(u.last() == s@[end - 1]);
        end -= 1;
    }
    let r = sub_chars(s, start, end);
    assert(r@ =~= t.take((end - start) as int));
    r
}

fn first_index_exec(s: &Vec<char>, c: char) -> (r: Option<usize>)
    ensures
        match first_index(s@, c) {
            Some(i) => r == Some(i as usize),
            None => r is None,
        },
{
    let mut i: usize = 0;
    assert(s@.take(0) =~= Seq::<char>::empty());
    while i < s.len()
        invariant
            i <= s.len(),
            first_index(s@.take(i as int), c) is None,
        decreases s.len() - i,
    {
        assert(s@.take(i + 1).drop_last() =~= s@.take(i as int));
        if s[i] == c {
            proof {
                lemma_first_index_prefix(s@, c, i as int + 1);
            }
            return Some(i);
        }
        i += 1;
    }
    assert(s@.take(s.len() as int) =~= s@);
    None
}

proof fn lemma_first_index_prefix(s: Seq<char>, c: char, k: int)
    requires
        0 <= k <= s.len(),
        first_index(s.take(k), c) is Some,
    ensures
        first_index(s, c) == first_index(s.take(k), c),
    decreases s.len() - k,
{
    if k < s.len() {
        assert(s.take(k + 1).drop_last() =~= s.take(k));
        lemma_first_index_prefix(s, c, k + 1);
    } else {
        assert(s.take(k) =~= s);
    }
}

proof fn lemma_pieces_nonempty(s: Seq<char>)
    ensures
        pieces(s).len() >= 1,
    decreases s.len(),
{
    if s.len() > 0 {
        lemma_pieces_nonempty(s.drop_last());
    }
}

fn strip_cr_exec(l: Vec<char>) -> (r: Vec<char>)
    ensures
        r@ == strip_cr(l@),
{
    let mut l = l;
    if l.len() > 0 && l[l.len() - 1] == '\r' {
        l.pop();
    }
    l
}

pub open spec fn char_views(ls: Seq<Vec<char>>) -> Seq<Seq<char>> {
    ls.map_values(|l: Vec<char>| l@)
}

/// The lines of `s`.
fn lines_exec(s: &Vec<char>) -> (r: Vec<Vec<char>>)
    ensures
        char_views(r@) == lines_of(s@),
{
    let mut done: Vec<Vec<char>> = Vec::new();
    let mut cur: Vec<char> = Vec::new();
    let mut i: usize = 0;
    assert(s@.take(0) =~= Seq::<char>::empty());
    while i < s.len()
        invariant
            i <= s.len(),
            pieces(s@.take(i as int)).len() >= 1,
            char_views(done@) == strip_all(pieces(s@.take(i as int)).drop_last()),
            cur@ == pieces(s@.take(i as int)).last(),
        decreases s.len() - i,
    {
        let ghost pre = s@.take(i as int);
        let ghost next = s@.take(i + 1);
        assert(next.drop_last() =~= pre);
        assert(next.last() == s@[i as int]);
        proof {
            lemma_pieces_nonempty(next);
        }
        if s[i] == '\n' {
            let ghost before = done@;
            let line = strip_cr_exec(cur);
            done.push(line);
            cur = Vec::new();
            assert(pieces(next) == pieces(pre).push(Seq::<char>::empty()));
            assert(pieces(next).drop_last() =~= pieces(pre));
            assert(char_views(done@) =~= char_views(before).push(strip_cr(pieces(pre).last())));
            assert(pieces(pre) =~= pieces(pre).drop_last().push(pieces(pre).last()));
            assert(strip_all(pieces(pre)) =~= strip_all(pieces(pre).drop_last()).push(strip_cr(pieces(pre).last())));
            assert(char_views(done@) =~= strip_all(pieces(next).drop_last()));
        } else {
            cur.push(s[i]);
            assert(pieces(next).drop_last() =~= pieces(pre).drop_last());
            assert(char_views(done@) =~= strip_all(pieces(next).drop_last()));
        }
        i += 1;
    }
    assert(s@.take(s.len() as int) =~= s@);
    if cur.len() > 0 {
        let ghost before = done@;
        done.push(cur);
        assert(char_views(done@) =~= char_views(before).push(pieces(s@).last()));
    }
    done
}

fn chars_eq(a: &Vec<char>, b: &Vec<char>) -> (r: bool)
    ensures
        r == (a@ == b@),
{
    if a.len() != b.len() {
        return false;
    }
    let mut i: usize = 0;
    while i < a.len()
        invariant
            i <= a.len(),
            a.len() == b.len(),
            forall|j: int| 0 <= j < i ==> a@[j] == b@[j],
        decreases a.len() - i,
    {
        if a[i] != b[i] {
            return false;
        }
        i += 1;
    }
    assert(a@ =~= b@);
    true
}

proof fn lemma_first_line_prefix(ls: Seq<Seq<char>>, l: Seq<char>, k: int)
    requires
        0 <= k <= ls.len(),
        first_line(ls.take(k), l) is Some,
    ensures
        first_line(ls, l) == first_line(ls.take(k), l),
    decreases ls.len() - k,
{
    if k < ls.len() {
        assert(ls.take(k + 1).drop_last() =~= ls.take(k));
        lemma_first_line_prefix(ls, l, k + 1);
    } else {
        assert(ls.take(k) =~= ls);
    }
}

/// The 1-based number of the first line equal to `l`, or 1.
fn line_number(ls: &Vec<Vec<char>>, l: &Vec<char>) -> (r: usize)
    ensures
        r == match first_line(char_views(ls@), l@) {
            Some(i) => (i + 1) as nat,
            None => 1nat,
        },
{
    let ghost lv = char_views(ls@);
    let mut i: usize = 0;
    assert(lv.take(0) =~= Seq::<Seq<char>>::empty());
    while i < ls.len()
        invariant
            i <= ls.len(),
            lv == char_views(ls@),
            first_line(lv.take(i as int), l@) is None,
        decreases ls.len() - i,
    {
        assert(lv.take(i + 1).drop_last() =~= lv.take(i as int));
        assert(lv.take(i + 1).last() == ls@[i as int]@);
        if chars_eq(&ls[i], l) {
            proof {
                lemma_first_line_prefix(lv, l@, i as int + 1);
            }
            return i + 1;
        }
        i += 1;
    }
    assert(lv.take(ls.len() as int) =~= lv);
    1
}

fn has_dot_chars(s: &Vec<char>) -> (r: bool)
    ensures
        r == s@.contains('.'),
{
    let mut i: usize = 0;
    while i < s.len()
        invariant
            i <= s.len(),
            forall|j: int| 0 <= j < i ==> s@[j] != '.',
        decreases s.len() - i,
    {
        if s[i] == '.' {
            assert(s@[i as int] == '.');
            return true;
        }
        i += 1;
    }
    false
}

/// The alias that line `l` defines, if any.
fn alias_name_exec(l: &Vec<char>) -> (r: Option<Vec<char>>)
    ensures
        match alias_name(l@) {
            Some(n) => r is Some && r->Some_0@ == n,
            None => r is None,
        },
{
    let k = leading_ws_exec(l);
    let t = sub_chars(l, k, l.len());
    assert(t@ =~= l@.skip(k as int));
    if t.len() < 5 {
        return None;
    }
    let ghost kw = "type "@;
    proof {
        reveal_strlit("type ");
    }
    if !(t[0] == 't' && t[1] == 'y' && t[2] == 'p' && t[3] == 'e' && t[4] == ' ') {
        proof {
            if t@.take(5) == kw {
                assert(t@.take(5)[0] == kw[0]);
                assert(t@.take(5)[1] == kw[1]);
                assert(t@.take(5)[2] == kw[2]);
                assert(t@.take(5)[3] == kw[3]);
                assert(t@.take(5)[4] == kw[4]);
            }
        }
        return None;
    }
    assert(t@.take(5) =~= kw);
    let rest = sub_chars(&t, 5, t.len());
    assert(rest@ =~= t@.skip(5));
    let eq = match first_index_exec(&rest, '=') {
        None => {
            return None;
        },
        Some(e) => e,
    };
    proof {
        lemma_first_index_bound(rest@, '=');
    }
    let name = sub_chars(&rest, 0, eq);
    assert(name@ =~= rest@.take(eq as int));
    let n = trim_exec(&name);
    if n.len() == 0 || has_dot_chars(&n) {
        return None;
    }
    Some(n)
}

proof fn lemma_first_index_bound(s: Seq<char>, c: char)
    ensures
        first_index(s, c) matches Some(i) ==> 0 <= i < s.len(),
    decreases s.len(),
{
    if s.len() > 0 {
        lemma_first_index_bound(s.drop_last(), c);
    }
}

proof fn lemma_pieces_len(s: Seq<char>)
    ensures
        forall|j: int| 0 <= j < pieces(s).len() ==> #[trigger] pieces(s)[j].len() <= s.len(),
    decreases s.len(),
{
    if s.len() > 0 {
        lemma_pieces_len(s.drop_last());
        lemma_pieces_nonempty(s.drop_last());
    }
}

proof fn lemma_lines_len(s: Seq<char>)
    ensures
        forall|j: int| 0 <= j < lines_of(s).len() ==> #[trigger] lines_of(s)[j].len() <= s.len(),
{
    lemma_pieces_len(s);
    lemma_pieces_nonempty(s);
    let p = pieces(s);
    assert forall|j: int| 0 <= j < lines_of(s).len() implies #[trigger] lines_of(s)[j].len() <= s.len() by {
        if j < p.len() - 1 {
            assert(lines_of(s)[j] == strip_cr(p[j]));
        } else {
            assert(lines_of(s)[j] == p[j]);
        }
    }
}

fn append_chars(out: &mut String, cs: &Vec<char>)
    ensures
        final(out)@ == old(out)@ + cs@,
{
    let ghost start = out@;
    let mut i: usize = 0;
    while i < cs.len()
        invariant
            i <= cs.len(),
            out@ == start + cs@.take(i as int),
        decreases cs.len() - i,
    {
        push_char(out, cs[i]);
        i += 1;
        assert(out@ =~= start + cs@.take(i as int));
    }
    assert(cs@.take(cs.len() as int) =~= cs@);
}

fn note_text(path: &str, n: &Vec<char>, line: usize, col: usize) -> (r: String)
    ensures
        r@ == alias_note(path@, n@, line as nat, col as nat),
{
    let mut out = String::from_str("note: type alias `");
    append_chars(&mut out, n);
    out.append("` is defined locally at ");
    out.append(path);
    out.append(":");
    write_decimal(&mut out, line as u64);
    out.append(":");
    write_decimal(&mut out, col as u64);
    assert(out@ =~= alias_note(path@, n@, line as nat, col as nat));
    out
}

fn add_source_notes(path: &str, text: &str, notes: &mut Vec<String>)
    requires
        text@.len() < usize::MAX,
    ensures
        string_views(final(notes)@) == string_views(old(notes)@) + line_notes(
            path@,
            lines_of(text@),
            lines_of(text@).len(),
        ),
{
    let chars = str_chars(text);
    let ls = lines_exec(&chars);
    let ghost lv = char_views(ls@);
    let ghost n0 = string_views(notes@);
    proof {
        lemma_lines_len(text@);
    }
    let mut j: usize = 0;
    while j < ls.len()
        invariant
            j <= ls.len(),
            lv == char_views(ls@),
            lv == lines_of(text@),
            text@.len() < usize::MAX,
            forall|q: int| 0 <= q < lv.len() ==> #[trigger] lv[q].len() <= text@.len(),
            string_views(notes@) == n0 + line_notes(path@, lv, j as nat),
        decreases ls.len() - j,
    {
        let l = &ls[j];
        assert(lv[j as int] == l@);
        match alias_name_exec(l) {
            None => {},
            Some(n) => {
                let line = line_number(&ls, l);
                let k = leading_ws_exec(l);
                let note = note_text(path, &n, line, k + 1);
                let ghost before = notes@;
                notes.push(note);
                assert(string_views(notes@) =~= string_views(before).push(note@));
            },
        }
        assert(string_views(notes@) =~= n0 + line_notes(path@, lv, (j + 1) as nat));
        j += 1;
    }
}

pub open spec fn source_views(srcs: Seq<(String, String)>) -> Seq<(Seq<char>, Seq<char>)> {
    srcs.map_values(|e: (String, String)| (e.0@, e.1@))
}

/// Notes on the `type Name = ...` definitions found in the given sources,
/// each a displayed path and its text, in the order given: one per line,
/// each after a line feed, with the line (the first one of that text) and
/// the column where the definition begins.
pub fn local_alias_notes(sources: &[(String, String)]) -> (r: String)
    requires
        forall|i: int| 0 <= i < sources@.len() ==> (#[trigger] sources@[i]).1@.len() < usize::MAX,
    ensures
        r@ == join_lines(source_notes(source_views(sources@))),
{
    let ghost sv = source_views(sources@);
    let mut notes: Vec<String> = Vec::new();
    let mut i: usize = 0;
    assert(sv.take(0) =~= Seq::<(Seq<char>, Seq<char>)>::empty());
    assert(string_views(notes@) =~= Seq::<Seq<char>>::empty());
    while i < sources.len()
        invariant
            i <= sources.len(),
            sv == source_views(sources@),
            forall|q: int| 0 <= q < sources@.len() ==> (#[trigger] sources@[q]).1@.len() < usize::MAX,
            string_views(notes@) == source_notes(sv.take(i as int)),
        decreases sources.len() - i,
    {
        assert(sv.take(i + 1).drop_last() =~= sv.take(i as int));
        assert(sv.take(i + 1).last() == (sources@[i as int].0@, sources@[i as int].1@));
        add_source_notes(sources[i].0.as_str(), sources[i].1.as_str(), &mut notes);
        i += 1;
    }
    assert(sv.take(sources.len() as int) =~= sv);
    let ghost nv = string_views(notes@);
    let mut out = String::new();
    let mut j: usize = 0;
    assert(nv.take(0) =~= Seq::<Seq<char>>::empty());
    while j < notes.len()
        invariant
            j <= notes.len(),
            nv == string_views(notes@),
            out@ == join_lines(nv.take(j as int)),
        decreases notes.len() - j,
    {
        assert(nv.take(j + 1).drop_last() =~= nv.take(j as int));
        assert(nv[j as int] == notes@[j as int]@);
        proof {
            reveal_strlit("\n");
        }
        push_char(&mut out, '\n');
        out.append(notes[j].as_str());
        assert(out@ =~= join_lines(nv.take(j + 1)));
        j += 1;
    }
    assert(nv.take(notes.len() as int) =~= nv);
    out
}

/// What `String` stands for in notes: its alias entry, else `Prelude.String`;
/// a `Main.String` is shown as the canonical `Prelude.String`.
pub open spec fn string_alias_target(es: Seq<(Seq<char>, QualV)>) -> QualV {
    match resolve(es, "String"@) {
        Some(q) => if qual_key(q) == "Main.String"@ {
            ("Prelude"@, "String"@)
        } else {
            q
        },
        None => ("Prelude"@, "String"@),
    }
}

/// The note that `String` resolves to `q`, defined at `path:line:col`.
pub open spec fn string_loc_note(q: QualV, loc: Option<(Seq<char>, nat, nat)>) -> Seq<char> {
    match loc {
        Some((path, line, col)) => "\nnote: type alias `String` resolves to `"@ + qual_key(q) + "` at "@ + path + ":"@
            + decimal(line) + ":"@ + decimal(col),
        None => Seq::empty(),
    }
}

/// For each local alias whose right-hand side is `String`, in order: the
/// note on what it expands to, then the note on where `String` is defined.
pub open spec fn chain_notes(rhs: Seq<(Seq<char>, Seq<char>)>, q: QualV, loc: Option<(Seq<char>, nat, nat)>) -> Seq<char>
    decreases rhs.len(),
{
    if rhs.len() == 0 {
        Seq::empty()
    } else {
        let prev = chain_notes(rhs.drop_last(), q, loc);
        if rhs.last().1 == "String"@ {
            prev + "\nnote: type alias `"@ + rhs.last().0 + "` expands to `"@ + qual_key(q) + "`"@ + string_loc_note(q, loc)
        } else {
            prev
        }
    }
}

fn append_qual(out: &mut String, m: &String, n: &String)
    ensures
        final(out)@ == old(out)@ + qual_key((m@, n@)),
{
    out.append(m.as_str());
    push_char(out, '.');
    out.append(n.as_str());
    proof {
        reveal_strlit(".");
    }
    assert(final(out)@ =~= old(out)@ + qual_key((m@, n@)));
}

/// The notes on local aliases of `String` among `hints`, with the place
/// where `String` is defined where it is known.
pub fn string_alias_chain_note(hints: &NameHints, loc: Option<(&str, usize, usize)>) -> (r: String)
    ensures
        r@ == chain_notes(
            rhs_views(hints.type_alias_rhs_unqual@),
            string_alias_target(entry_views(hints.type_alias@)),
            match loc {
                Some((p, l, c)) => Some((p@, l as nat, c as nat)),
                None => None,
            },
        ),
{
    let ghost lv: Option<(Seq<char>, nat, nat)> = match loc {
        Some((p, l, c)) => Some((p@, l as nat, c as nat)),
        None => None,
    };
    let mut m = String::from_str("Prelude");
    let mut n = String::from_str("String");
    if let Some(q) = lookup(&hints.type_alias, "String") {
        let key = q.as_key();
        if !str_eq(key.as_str(), "Main.String") {
            m = q.module.0.clone();
            n = q.name.0.clone();
        }
    }
    let ghost qv = (m@, n@);
    assert(qv == string_alias_target(entry_views(hints.type_alias@)));
    let mut locn = String::new();
    if let Some((p, l, c)) = loc {
        locn.append("\nnote: type alias `String` resolves to `");
        append_qual(&mut locn, &m, &n);
        locn.append("` at ");
        locn.append(p);
        locn.append(":");
        write_decimal(&mut locn, l as u64);
        locn.append(":");
        write_decimal(&mut locn, c as u64);
    }
    assert(locn@ =~= string_loc_note(qv, lv));
    let ghost rv = rhs_views(hints.type_alias_rhs_unqual@);
    let mut out = String::new();
    let mut i: usize = 0;
    assert(rv.take(0) =~= Seq::<(Seq<char>, Seq<char>)>::empty());
    while i < hints.type_alias_rhs_unqual.len()
        invariant
            i <= hints.type_alias_rhs_unqual.len(),
            rv == rhs_views(hints.type_alias_rhs_unqual@),
            locn@ == string_loc_note(qv, lv),
            qv == (m@, n@),
            out@ == chain_notes(rv.take(i as int), qv, lv),
        decreases hints.type_alias_rhs_unqual.len() - i,
    {
        assert(rv.take(i + 1).drop_last() =~= rv.take(i as int));
        let e = &hints.type_alias_rhs_unqual[i];
        assert(rv.take(i + 1).last() == (e.0.0@, e.1.0@));
        if str_eq(e.1.0.as_str(), "String") {
            out.append("\nnote: type alias `");
            out.append(e.0.0.as_str());
            out.append("` expands to `");
            append_qual(&mut out, &m, &n);
            out.append("`");
            out.append(locn.as_str());
        }
        i += 1;
    }
    assert(rv.take(hints.type_alias_rhs_unqual.len() as int) =~= rv);
    out
}

/// The line (counted from 1, over all lines) and column of the first line
/// of `src` that defines the alias `String`.
pub open spec fn string_def_line_spec(ls: Seq<Seq<char>>) -> Option<(nat, nat)>
    decreases ls.len(),
{
    if ls.len() == 0 {
        None
    } else {
        match string_def_line_spec(ls.drop_last()) {
            Some(r) => Some(r),
            None => if alias_name(ls.last()) == Some("String"@) {
                Some((ls.len() as nat, leading_ws(ls.last()) + 1))
            } else {
                None
            },
        }
    }
}

/// Where the text `src` defines the alias `String`: its line and column.
pub fn string_alias_def_line(src: &str) -> (r: Option<(usize, usize)>)
    requires
        src@.len() < usize::MAX,
    ensures
        match string_def_line_spec(lines_of(src@)) {
            Some((l, c)) => r is Some && r->Some_0.0 as nat == l && r->Some_0.1 as nat == c,
            None => r is None,
        },
{
    let chars = str_chars(src);
    let ls = lines_exec(&chars);
    let ghost lv = char_views(ls@);
    proof {
        lemma_lines_len(src@);
    }
    let target = str_chars("String");
    proof {
        reveal_strlit("String");
    }
    let mut j: usize = 0;
    assert(lv.take(0) =~= Seq::<Seq<char>>::empty());
    while j < ls.len()
        invariant
            j <= ls.len(),
            lv == char_views(ls@),
            lv == lines_of(src@),
            src@.len() < usize::MAX,
            target@ == "String"@,
            forall|q: int| 0 <= q < lv.len() ==> #[trigger] lv[q].len() <= src@.len(),
            string_def_line_spec(lv.take(j as int)) is None,
        decreases ls.len() - j,
    {
        assert(lv.take(j + 1).drop_last() =~= lv.take(j as int));
        assert(lv.take(j + 1).last() == ls@[j as int]@);
        let l = &ls[j];
        if let Some(nm) = alias_name_exec(l) {
            if chars_eq(&nm, &target) {
                let k = leading_ws_exec(l);
                proof {
                    lemma_string_def_prefix(lv, j as int + 1);
                }
                return Some((j + 1, k + 1));
            }
        }
        j += 1;
    }
    assert(lv.take(ls.len() as int) =~= lv);
    None
}

proof fn lemma_string_def_prefix(ls: Seq<Seq<char>>, k: int)
    requires
        0 <= k <= ls.len(),
        string_def_line_spec(ls.take(k)) is Some,
    ensures
        string_def_line_spec(ls) == string_def_line_spec(ls.take(k)),
    decreases ls.len() - k,
{
    if k < ls.len() {
        assert(ls.take(k + 1).drop_last() =~= ls.take(k));
        lemma_string_def_prefix(ls, k + 1);
    } else {
        assert(ls.take(k) =~= ls);
    }
}

} // verus!
