//! The directory that a module's imports are searched from, computed on the
//! components of the entry file's path.
use vstd::prelude::*;
use crate::display::push_char;
use crate::names::{str_chars, str_eq, string_views};

verus! {

/// One component of a file system path, in the form a path's component list
/// gives it.
#[derive(Debug, Clone, PartialEq, Eq)]
pub enum PathPart {
    /// A prefix or the root directory: a path that ends in one has no parent.
    Root(String),
    /// `.` at the start of a relative path.
    Cur,
    /// `..`.
    Up,
    /// An ordinary name.
    Named(String),
}

/// The mathematical model of a [`PathPart`].
pub enum PartV {
    Root(Seq<char>),
    Cur,
    Up,
    Named(Seq<char>),
}

impl View for PathPart {
    type V = PartV;

    open spec fn view(&self) -> PartV {
        match self {
            PathPart::Root(s) => PartV::Root(s@),
            PathPart::Cur => PartV::Cur,
            PathPart::Up => PartV::Up,
            PathPart::Named(s) => PartV::Named(s@),
        }
    }
}

/// The model of a path: its components, each by its view.
pub open spec fn path_view(p: Seq<PathPart>) -> Seq<PartV> {
    p.map_values(|c: PathPart| c@)
}

/// The parent of a path: the path without its last component, where that
/// component is a name, `.` or `..`; none for an empty path or one that ends
/// in a root.
pub open spec fn parent_of(p: Seq<PartV>) -> Option<Seq<PartV>> {
    if p.len() == 0 {
        None
    } else if p.last() is Root {
        None
    } else {
        Some(p.drop_last())
    }
}

/// The path after taking the parent `n` times, if each of those exists.
pub open spec fn strip_parents(p: Seq<PartV>, n: nat) -> Option<Seq<PartV>>
    decreases n,
{
    if n == 0 {
        Some(p)
    } else {
        match parent_of(p) {
            None => None,
            Some(q) => strip_parents(q, (n - 1) as nat),
        }
    }
}

/// The pieces of `s` between its `.` characters: one more piece than there
/// are dots, each possibly empty.
pub open spec fn split_dots(s: Seq<char>) -> Seq<Seq<char>>
    decreases s.len(),
{
    if s.len() == 0 {
        seq![Seq::empty()]
    } else {
        let prev = split_dots(s.drop_last());
        if s.last() == '.' {
            prev.push(Seq::empty())
        } else {
            prev.update(prev.len() - 1, prev.last().push(s.last()))
        }
    }
}

/// The relative path of a module's file: one component per name, the last
/// with the extension `.ks`.
pub open spec fn module_file_parts(names: Seq<Seq<char>>) -> Seq<PartV> {
    Seq::new(
        names.len(),
        |i: int|
            if i == names.len() - 1 {
                PartV::Named(names[i] + seq!['.', 'k', 's'])
            } else {
                PartV::Named(names[i])
            },
    )
}

/// The search root of a module file: the directory of `entry` (or `.` where
/// it has none), unless the module is named `A.B.C` with no empty part and
/// `entry` is `<root>/A/B/C.ks`, in which case it is that `<root>`.
pub open spec fn search_root_spec(entry: Seq<PartV>, name: Option<Seq<char>>) -> Seq<PartV> {
    let fallback = match parent_of(entry) {
        Some(p) => p,
        None => seq![PartV::Cur],
    };
    match name {
        None => fallback,
        Some(n) => {
            let parts = split_dots(n);
            if exists|j: int| 0 <= j < parts.len() && parts[j].len() == 0 {
                fallback
            } else {
                match strip_parents(fallback, (parts.len() - 1) as nat) {
                    None => fallback,
                    Some(c) => if c + module_file_parts(parts) == entry {
                        c
                    } else {
                        fallback
                    },
                }
            }
        }
    }
}

proof fn lemma_path_view_push(s: Seq<PathPart>, x: PathPart)
    ensures
        path_view(s.push(x)) == path_view(s).push(x@),
        path_view(s).len() == s.len(),
        forall|j: int| 0 <= j < s.len() ==> #[trigger] path_view(s)[j] == s[j]@,
{
    assert(path_view(s.push(x)) =~= path_view(s).push(x@));
}

proof fn lemma_split_dots_nonempty(s: Seq<char>)
    ensures
        split_dots(s).len() >= 1,
    decreases s.len(),
{
    if s.len() > 0 {
        lemma_split_dots_nonempty(s.drop_last());
    }
}

fn copy_part(p: &PathPart) -> (r: PathPart)
    ensures
        r@ == p@,
{
    match p {
        PathPart::Root(s) => PathPart::Root(s.clone()),
        PathPart::Cur => PathPart::Cur,
        PathPart::Up => PathPart::Up,
        PathPart::Named(s) => PathPart::Named(s.clone()),
    }
}

fn copy_path(p: &Vec<PathPart>, n: usize) -> (r: Vec<PathPart>)
    requires
        n <= p.len(),
    ensures
        path_view(r@) == path_view(p@).take(n as int),
{
    let mut out: Vec<PathPart> = Vec::new();
    let mut i: usize = 0;
    while i < n
        invariant
            i <= n,
            n <= p.len(),
            path_view(out@) == path_view(p@).take(i as int),
        decreases n - i,
    {
        let c = copy_part(&p[i]);
        proof {
            lemma_path_view_push(out@, c);
            lemma_path_view_push(p@, c);
        }
        out.push(c);
        i += 1;
        assert(path_view(out@) =~= path_view(p@).take(i as int));
    }
    out
}

fn parts_equal(a: &Vec<PathPart>, b: &Vec<PathPart>) -> (r: bool)
    ensures
        r == (path_view(a@) == path_view(b@)),
{
    proof {
        lemma_path_view_push(a@, PathPart::Cur);
        lemma_path_view_push(b@, PathPart::Cur);
    }
    if a.len() != b.len() {
        assert(path_view(a@).len() != path_view(b@).len());
        return false;
    }
    let mut i: usize = 0;
    while i < a.len()
        invariant
            i <= a.len(),
            a.len() == b.len(),
            forall|j: int| 0 <= j < i ==> a@[j]@ == b@[j]@,
        decreases a.len() - i,
    {
        let same = match (&a[i], &b[i]) {
            (PathPart::Root(x), PathPart::Root(y)) => str_eq(x.as_str(), y.as_str()),
            (PathPart::Cur, PathPart::Cur) => true,
            (PathPart::Up, PathPart::Up) => true,
            (PathPart::Named(x), PathPart::Named(y)) => str_eq(x.as_str(), y.as_str()),
            _ => false,
        };
        if !same {
            assert(path_view(a@)[i as int] != path_view(b@)[i as int]);
            return false;
        }
        i += 1;
    }
    assert(path_view(a@) =~= path_view(b@));
    true
}

/// The pieces of `s` between its `.` characters.
fn split_on_dots(s: &str) -> (r: Vec<String>)
    ensures
        string_views(r@) == split_dots(s@),
{
    let chars = str_chars(s);
    let mut parts: Vec<String> = Vec::new();
    let mut cur = String::new();
    let mut i: usize = 0;
    assert(s@.take(0) =~= Seq::<char>::empty());
    while i < chars.len()
        invariant
            i <= chars.len(),
            chars@ == s@,
            string_views(parts@).push(cur@) == split_dots(s@.take(i as int)),
        decreases chars.len() - i,
    {
        let c = chars[i];
        let ghost pre = s@.take(i as int);
        let ghost next = s@.take(i + 1);
        assert(next.drop_last() =~= pre);
        assert(next.last() == c);
        proof {
            lemma_split_dots_nonempty(pre);
        }
        if c == '.' {
            let done = cur;
            parts.push(done);
            cur = String::new();
            assert(string_views(parts@).push(cur@) =~= split_dots(next));
        } else {
            let ghost old_cur = cur@;
            push_char(&mut cur, c);
            assert(string_views(parts@).push(cur@) =~= split_dots(next));
        }
        i += 1;
    }
    assert(s@.take(chars.len() as int) =~= s@);
    parts.push(cur);
    assert(string_views(parts@) =~= split_dots(s@));
    parts
}

/// The directory that imports of the module in `entry` are resolved from,
/// both given by their path components: for a module `A.B.C` stored as
/// `<root>/A/B/C.ks`, that `<root>`; otherwise the directory of `entry`, or
/// `.` where `entry` has none. Each part of the module name is taken as one
/// component.
pub fn module_search_root_from_entry(entry: &Vec<PathPart>, module_name: Option<&str>) -> (r: Vec<PathPart>)
    ensures
        path_view(r@) == search_root_spec(
            path_view(entry@),
            match module_name {
                Some(n) => Some(n@),
                None => None,
            },
        ),
{
    let ghost ev = path_view(entry@);
    let n = entry.len();
    let has_parent = n > 0 && !matches!(entry[n - 1], PathPart::Root(_));
    let fallback: Vec<PathPart> = if has_parent {
        assert(ev.last() == entry@[n - 1]@);
        let f = copy_path(entry, n - 1);
        assert(path_view(f@) =~= ev.drop_last());
        f
    } else {
        assert(n > 0 ==> ev.last() == entry@[n - 1]@);
        let f = vec![PathPart::Cur];
        assert(path_view(f@) =~= seq![PartV::Cur]);
        f
    };
    let ghost fb = match parent_of(ev) {
        Some(p) => p,
        None => seq![PartV::Cur],
    };
    assert(path_view(fallback@) == fb);
    let name = match module_name {
        None => {
            return fallback;
        },
        Some(name) => name,
    };
    let parts = split_on_dots(name);
    let ghost pv = string_views(parts@);
    proof {
        lemma_split_dots_nonempty(name@);
    }
    let mut j: usize = 0;
    while j < parts.len()
        invariant
            j <= parts.len(),
            pv == string_views(parts@),
            pv == split_dots(name@),
            forall|k: int| 0 <= k < j ==> pv[k].len() != 0,
            module_name == Some(name),
            ev == path_view(entry@),
            fb == (match parent_of(ev) {
                Some(p) => p,
                None => seq![PartV::Cur],
            }),
            path_view(fallback@) == fb,
        decreases parts.len() - j,
    {
        if parts[j].as_str().unicode_len() == 0 {
            assert(pv[j as int].len() == 0);
            assert(pv == split_dots(name@));
            return fallback;
        }
        j += 1;
    }
    let mut cand = copy_path(&fallback, fallback.len());
    assert(path_view(fallback@).take(fallback.len() as int) =~= path_view(fallback@));
    let mut k: usize = 1;
    while k < parts.len()
        invariant
            1 <= k <= parts.len(),
            pv == string_views(parts@),
            pv == split_dots(name@),
            forall|q: int| 0 <= q < pv.len() ==> pv[q].len() != 0,
            module_name == Some(name),
            ev == path_view(entry@),
            fb == (match parent_of(ev) {
                Some(p) => p,
                None => seq![PartV::Cur],
            }),
            path_view(fallback@) == fb,
            strip_parents(path_view(fallback@), (parts.len() - 1) as nat) == strip_parents(
                path_view(cand@),
                (parts.len() - k) as nat,
            ),
        decreases parts.len() - k,
    {
        let m = cand.len();
        if m == 0 || matches!(cand[m - 1], PathPart::Root(_)) {
            assert(m > 0 ==> path_view(cand@).last() == cand@[m - 1]@);
            assert(parent_of(path_view(cand@)) is None);
            assert(strip_parents(path_view(cand@), (parts.len() - k) as nat) is None);
            assert(!(exists|j: int| 0 <= j < pv.len() && pv[j].len() == 0));
            return fallback;
        }
        assert(path_view(cand@).last() == cand@[m - 1]@);
        let ghost before = path_view(cand@);
        cand.pop();
        assert(path_view(cand@) =~= before.drop_last());
        k += 1;
    }
    let mut full = copy_path(&cand, cand.len());
    assert(path_view(cand@).take(cand.len() as int) =~= path_view(cand@));
    let ghost base = path_view(full@);
    assert(strip_parents(path_view(cand@), 0) == Some(path_view(cand@)));
    let np = parts.len();
    let mut i: usize = 0;
    while i < np
        invariant
            i <= np,
            np == parts.len(),
            np >= 1,
            pv == string_views(parts@),
            pv == split_dots(name@),
            forall|q: int| 0 <= q < pv.len() ==> pv[q].len() != 0,
            module_name == Some(name),
            ev == path_view(entry@),
            fb == (match parent_of(ev) {
                Some(p) => p,
                None => seq![PartV::Cur],
            }),
            path_view(fallback@) == fb,
            base == path_view(cand@),
            strip_parents(fb, (np - 1) as nat) == Some(base),
            path_view(full@) == base + module_file_parts(pv).take(i as int),
        decreases np - i,
    {
        let mut piece = parts[i].clone();
        if i == np - 1 {
            push_char(&mut piece, '.');
            push_char(&mut piece, 'k');
            push_char(&mut piece, 's');
            assert(piece@ =~= pv[i as int] + seq!['.', 'k', 's']);
        }
        let part = PathPart::Named(piece);
        proof {
            lemma_path_view_push(full@, part);
        }
        full.push(part);
        i += 1;
        assert(path_view(full@) =~= base + module_file_parts(pv).take(i as int));
    }
    assert(module_file_parts(pv).take(np as int) =~= module_file_parts(pv));
    if parts_equal(&full, entry) {
        cand
    } else {
        fallback
    }
}

} // verus!
