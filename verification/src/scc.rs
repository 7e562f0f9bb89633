//! Strongly connected components of a dependency graph, by Tarjan's
//! algorithm: each component is listed after every component it has an
//! edge into.
use vstd::prelude::*;
use crate::graph::{comp_edge, cyclic_set, depends_within, has_dependency_cycle, node_comp, rows};

verus! {

/// `g` has an edge from `u` to `w`.
pub open spec fn edge(g: Seq<Seq<usize>>, u: usize, w: usize) -> bool {
    u < g.len() && g[u as int].contains(w)
}

/// `p` is a nonempty path of `g`.
pub open spec fn is_path(g: Seq<Seq<usize>>, p: Seq<usize>) -> bool {
    &&& p.len() > 0
    &&& forall|i: int| 0 <= i < p.len() - 1 ==> #[trigger] edge(g, p[i], p[i + 1])
}

/// A path of `g` leads from `u` to `w`.
pub open spec fn reaches(g: Seq<Seq<usize>>, u: usize, w: usize) -> bool {
    exists|p: Seq<usize>| #[trigger] is_path(g, p) && p[0] == u && p.last() == w
}

/// Every edge of `g` ends at a node of `g`.
pub open spec fn edges_in_range(g: Seq<Seq<usize>>) -> bool {
    forall|u: int, j: int| 0 <= u < g.len() && 0 <= j < g[u].len() ==> #[trigger] g[u][j] < g.len()
}

pub proof fn lemma_reaches_refl(g: Seq<Seq<usize>>, u: usize)
    ensures
        reaches(g, u, u),
{
    let p = seq![u];
    assert(is_path(g, p));
}

pub proof fn lemma_reaches_edge(g: Seq<Seq<usize>>, u: usize, w: usize)
    requires
        edge(g, u, w),
    ensures
        reaches(g, u, w),
{
    let p = seq![u, w];
    assert forall|i: int| 0 <= i < p.len() - 1 implies #[trigger] edge(g, p[i], p[i + 1]) by {
        assert(i == 0);
    }
    assert(is_path(g, p));
}

pub proof fn lemma_reaches_trans(g: Seq<Seq<usize>>, u: usize, v: usize, w: usize)
    requires
        reaches(g, u, v),
        reaches(g, v, w),
    ensures
        reaches(g, u, w),
{
    let p1 = choose|p: Seq<usize>| #[trigger] is_path(g, p) && p[0] == u && p.last() == v;
    let p2 = choose|p: Seq<usize>| #[trigger] is_path(g, p) && p[0] == v && p.last() == w;
    let p = p1 + p2.drop_first();
    assert forall|i: int| 0 <= i < p.len() - 1 implies #[trigger] edge(g, p[i], p[i + 1]) by {
        if i < p1.len() - 1 {
            assert(p[i] == p1[i] && p[i + 1] == p1[i + 1]);
            assert(edge(g, p1[i], p1[i + 1]));
        } else {
            let k = i - (p1.len() - 1);
            assert(p[i] == p2[k]) by {
                if i == p1.len() - 1 {
                    assert(p[i] == p1[p1.len() - 1]);
                } else {
                    assert(p[i] == p2.drop_first()[i - p1.len()]);
                }
            }
            assert(p[i + 1] == p2[k + 1]) by {
                assert(p[i + 1] == p2.drop_first()[i + 1 - p1.len()]);
            }
            assert(edge(g, p2[k], p2[k + 1]));
        }
    }
    assert(is_path(g, p));
    assert(p[0] == u);
    if p2.len() == 1 {
        assert(p =~= p1);
    } else {
        assert(p.last() == p2.drop_first().last());
    }
}

/// The working state of the search.
struct TarjanState {
    index: usize,
    indices: Vec<Option<usize>>,
    lowlink: Vec<usize>,
    stack: Vec<usize>,
    on_stack: Vec<bool>,
    out: Vec<Vec<usize>>,
}

spec fn visited(st: TarjanState, x: usize) -> bool {
    st.indices@[x as int] is Some
}

spec fn idx(st: TarjanState, x: usize) -> int {
    st.indices@[x as int]->0 as int
}

spec fn low(st: TarjanState, x: usize) -> int {
    st.lowlink@[x as int] as int
}

spec fn visited_set(st: TarjanState, n: int) -> Set<int> {
    Set::new(|x: int| 0 <= x < n && visited(st, x as usize))
}

/// Node `x` is in one of the components found so far.
pub open spec fn in_comps(cs: Seq<Seq<usize>>, x: usize) -> bool {
    exists|c: int, i: int| 0 <= c < cs.len() && 0 <= i < cs[c].len() && #[trigger] cs[c][i] == x
}

/// Each node is listed at most once, every component is nonempty, and every
/// entry is a node of `g`.
pub open spec fn comps_distinct(cs: Seq<Seq<usize>>, n: int) -> bool {
    &&& forall|c: int| 0 <= c < cs.len() ==> #[trigger] cs[c].len() > 0
    &&& forall|c: int, i: int| 0 <= c < cs.len() && 0 <= i < cs[c].len() ==> #[trigger] cs[c][i] < n
    &&& forall|c1: int, i1: int, c2: int, i2: int|
        0 <= c1 < cs.len() && 0 <= i1 < cs[c1].len() && 0 <= c2 < cs.len() && 0 <= i2 < cs[c2].len()
            && #[trigger] cs[c1][i1] == #[trigger] cs[c2][i2] ==> c1 == c2 && i1 == i2
}

/// Every edge out of a component leads into it or into one listed before it.
pub open spec fn comps_ordered(g: Seq<Seq<usize>>, cs: Seq<Seq<usize>>) -> bool {
    forall|c: int, i: int, j: int|
        0 <= c < cs.len() && 0 <= i < cs[c].len() && 0 <= j < g[cs[c][i] as int].len() ==> exists|c2: int, k: int|
            0 <= c2 <= c && 0 <= k < cs[c2].len() && #[trigger] cs[c2][k] == #[trigger] g[cs[c][i] as int][j]
}

/// The nodes of each component reach one another.
pub open spec fn comps_connected(g: Seq<Seq<usize>>, cs: Seq<Seq<usize>>) -> bool {
    forall|c: int, i: int, j: int| 0 <= c < cs.len() && 0 <= i < cs[c].len() && 0 <= j < cs[c].len() ==> reaches(
        g,
        #[trigger] cs[c][i],
        #[trigger] cs[c][j],
    )
}

spec fn out_rows(st: TarjanState) -> Seq<Seq<usize>> {
    rows(st.out@)
}

/// The edges of `x` have been followed: each leads to a visited node, and
/// the low link of `x` is at most the index of any of them still on the stack.
spec fn closed_node(g: Seq<Seq<usize>>, st: TarjanState, x: usize, upto: int) -> bool {
    forall|j: int| 0 <= j < upto ==> visited(st, #[trigger] g[x as int][j]) && (st.stack@.contains(g[x as int][j]) ==> low(
        st,
        x,
    ) <= idx(st, g[x as int][j]))
}

spec fn inv_arrays(g: Seq<Seq<usize>>, st: TarjanState) -> bool {
    let n = g.len() as int;
    &&& st.indices.len() == n
    &&& st.lowlink.len() == n
    &&& st.on_stack.len() == n
    &&& visited_set(st, n).finite()
    &&& visited_set(st, n).len() == st.index
    &&& forall|x: usize| x < n && #[trigger] visited(st, x) ==> idx(st, x) < st.index
}

/// The low link of the node at position `i` of the stack is the index of a
/// node at or below it that it reaches.
spec fn low_witness(g: Seq<Seq<usize>>, st: TarjanState, i: int) -> bool {
    exists|k: int| 0 <= k <= i && #[trigger] idx(st, st.stack@[k]) == low(st, st.stack@[i]) && reaches(g, st.stack@[i], st.stack@[k])
}

spec fn inv_stack(g: Seq<Seq<usize>>, st: TarjanState) -> bool {
    let n = g.len() as int;
    let s = st.stack@;
    &&& s.no_duplicates()
    &&& forall|i: int| 0 <= i < s.len() ==> #[trigger] s[i] < n && visited(st, s[i])
    &&& forall|x: usize| x < n ==> #[trigger] st.on_stack@[x as int] == s.contains(x)
    &&& forall|i: int, j: int| 0 <= i < j < s.len() ==> idx(st, #[trigger] s[i]) < idx(st, #[trigger] s[j])
    &&& forall|i: int| 0 <= i < s.len() ==> #[trigger] low_witness(g, st, i)
    &&& forall|i: int, j: int| 0 <= i < j < s.len() ==> reaches(g, #[trigger] s[i], #[trigger] s[j])
}

spec fn inv_out(g: Seq<Seq<usize>>, st: TarjanState) -> bool {
    let n = g.len() as int;
    &&& forall|x: usize| x < n ==> ((visited(st, x) && !st.stack@.contains(x)) <==> #[trigger] in_comps(out_rows(st), x))
    &&& comps_distinct(out_rows(st), n)
    &&& comps_ordered(g, out_rows(st))
    &&& comps_connected(g, out_rows(st))
}

/// The invariant of the search, where `gray` holds the nodes whose edges are
/// still being followed.
spec fn inv(g: Seq<Seq<usize>>, st: TarjanState, gray: Set<usize>) -> bool {
    &&& inv_arrays(g, st)
    &&& inv_stack(g, st)
    &&& inv_out(g, st)
    &&& forall|x: usize| #[trigger] gray.contains(x) ==> st.stack@.contains(x)
    &&& forall|x: usize| x < g.len() && #[trigger] visited(st, x) && !gray.contains(x) ==> closed_node(g, st, x, g[x as int].len() as int)
}


/// What a call leaves unchanged: the stack below it, the indices and low
/// links of nodes visited before, the nodes already off the stack, and the
/// components already found.
spec fn frame(g: Seq<Seq<usize>>, s0: TarjanState, s1: TarjanState) -> bool {
    let n = g.len() as int;
    &&& s1.index >= s0.index
    &&& s1.stack@.len() >= s0.stack@.len()
    &&& s1.stack@.take(s0.stack@.len() as int) == s0.stack@
    &&& forall|x: usize| x < n && #[trigger] visited(s0, x) ==> visited(s1, x) && idx(s1, x) == idx(s0, x) && low(s1, x) == low(s0, x)
    &&& forall|x: usize| x < n && #[trigger] visited(s1, x) && !visited(s0, x) ==> idx(s1, x) >= s0.index
    &&& forall|x: usize| x < n && visited(s0, x) && !s0.stack@.contains(x) ==> !#[trigger] s1.stack@.contains(x)
    &&& s1.out@.len() >= s0.out@.len()
    &&& forall|c: int| 0 <= c < s0.out@.len() ==> #[trigger] s1.out@[c]@ == s0.out@[c]@
}

proof fn lemma_frame_trans(g: Seq<Seq<usize>>, s0: TarjanState, s1: TarjanState, s2: TarjanState)
    requires
        frame(g, s0, s1),
        frame(g, s1, s2),
    ensures
        frame(g, s0, s2),
{
    assert(s2.stack@.take(s0.stack@.len() as int) =~= s2.stack@.take(s1.stack@.len() as int).take(s0.stack@.len() as int));
    assert forall|x: usize| x < g.len() && #[trigger] visited(s2, x) && !visited(s0, x) implies idx(s2, x) >= s0.index by {
        if visited(s1, x) {
            assert(idx(s2, x) == idx(s1, x));
        }
    }
    assert forall|x: usize| x < g.len() && visited(s0, x) && !s0.stack@.contains(x) implies !#[trigger] s2.stack@.contains(x) by {
        assert(visited(s1, x));
        assert(!s1.stack@.contains(x));
    }
    assert forall|c: int| 0 <= c < s0.out@.len() implies #[trigger] s2.out@[c]@ == s0.out@[c]@ by {
        assert(s1.out@[c]@ == s0.out@[c]@);
    }
}

proof fn lemma_visited_bound(g: Seq<Seq<usize>>, st: TarjanState, v: usize)
    requires
        inv_arrays(g, st),
        v < g.len(),
        !visited(st, v),
    ensures
        st.index < g.len(),
        visited_set(st, g.len() as int).insert(v as int).len() == st.index + 1,
{
    let n = g.len() as int;
    let vs = visited_set(st, n);
    vstd::set_lib::lemma_int_range(0, n);
    assert(vs.insert(v as int).subset_of(vstd::set_lib::set_int_range(0, n)));
    vstd::set_lib::lemma_len_subset(vs.insert(v as int), vstd::set_lib::set_int_range(0, n));
    assert(!vs.contains(v as int));
}

/// Marking `v` visited and pushing it.
proof fn lemma_enter(g: Seq<Seq<usize>>, s0: TarjanState, s1: TarjanState, v: usize, gray: Set<usize>)
    requires
        edges_in_range(g),
        inv(g, s0, gray),
        v < g.len(),
        !visited(s0, v),
        forall|i: int| 0 <= i < s0.stack@.len() ==> #[trigger] reaches(g, s0.stack@[i], v),
        s1.indices@ == s0.indices@.update(v as int, Some(s0.index)),
        s1.lowlink@ == s0.lowlink@.update(v as int, s0.index),
        s1.index == s0.index + 1,
        s1.stack@ == s0.stack@.push(v),
        s1.on_stack@ == s0.on_stack@.update(v as int, true),
        s1.out@ == s0.out@,
    ensures
        inv(g, s1, gray.insert(v)),
        frame(g, s0, s1),
        visited(s1, v),
        idx(s1, v) == s0.index,
        low(s1, v) == s0.index,
{
    let n = g.len() as int;
    lemma_visited_bound(g, s0, v);
    assert(visited_set(s1, n) =~= visited_set(s0, n).insert(v as int));
    assert forall|x: usize| x < n && x != v implies visited(s1, x) == visited(s0, x) && (visited(s0, x) ==> idx(s1, x) == idx(s0, x) && low(s1, x) == low(s0, x)) by {
    }
    let s = s1.stack@;
    let b = s0.stack@.len() as int;
    assert(s[b] == v);
    assert forall|i: int| 0 <= i < b implies #[trigger] s[i] == s0.stack@[i] && s[i] != v by {
        assert(visited(s0, s0.stack@[i]));
    }
    // inv_arrays
    assert forall|x: usize| x < n && #[trigger] visited(s1, x) implies idx(s1, x) < s1.index by {
        if x != v {
            assert(visited(s0, x));
        }
    }
    // inv_stack
    assert(s.no_duplicates()) by {
        assert forall|i: int, j: int| 0 <= i < j < s.len() implies s[i] != s[j] by {
            if j < b {
                assert(s0.stack@[i] != s0.stack@[j]);
            }
        }
    }
    assert forall|i: int| 0 <= i < s.len() implies #[trigger] s[i] < n && visited(s1, s[i]) by {
        if i < b {
            assert(visited(s0, s0.stack@[i]));
        }
    }
    assert forall|x: usize| x < n implies #[trigger] s1.on_stack@[x as int] == s.contains(x) by {
        if x != v {
            assert(s0.on_stack@[x as int] == s0.stack@.contains(x));
            if s0.stack@.contains(x) {
                let k = choose|k: int| 0 <= k < b && s0.stack@[k] == x;
                assert(s[k] == x);
            }
            if s.contains(x) {
                let k = choose|k: int| 0 <= k < s.len() && s[k] == x;
                assert(s0.stack@[k] == x);
            }
        } else {
            assert(s[b] == v);
        }
    }
    assert forall|i: int, j: int| 0 <= i < j < s.len() implies idx(s1, #[trigger] s[i]) < idx(s1, #[trigger] s[j]) by {
        assert(visited(s0, s0.stack@[i]));
        if j < b {
            assert(visited(s0, s0.stack@[j]));
            assert(idx(s0, s0.stack@[i]) < idx(s0, s0.stack@[j]));
        } else {
            assert(idx(s0, s0.stack@[i]) < s0.index);
        }
    }
    assert forall|i: int| 0 <= i < s.len() implies #[trigger] low_witness(g, s1, i) by {
        if i < b {
            assert(low_witness(g, s0, i));
            let k = choose|k: int| 0 <= k <= i && #[trigger] idx(s0, s0.stack@[k]) == low(s0, s0.stack@[i])
                && reaches(g, s0.stack@[i], s0.stack@[k]);
            assert(visited(s0, s0.stack@[k]));
            assert(visited(s0, s0.stack@[i]));
            assert(idx(s1, s[k]) == low(s1, s[i]));
        } else {
            lemma_reaches_refl(g, v);
            assert(idx(s1, s[i]) == low(s1, s[i]));
        }
    }
    assert forall|i: int, j: int| 0 <= i < j < s.len() implies reaches(g, #[trigger] s[i], #[trigger] s[j]) by {
        if j < b {
            assert(reaches(g, s0.stack@[i], s0.stack@[j]));
        } else {
            assert(reaches(g, s0.stack@[i], v));
        }
    }
    // inv_out
    assert forall|x: usize| x < n implies ((visited(s1, x) && !s.contains(x)) <==> #[trigger] in_comps(out_rows(s1), x)) by {
        assert(out_rows(s1) == out_rows(s0));
        if x != v {
            assert(s.contains(x) <==> s0.stack@.contains(x)) by {
                if s0.stack@.contains(x) {
                    let k = choose|k: int| 0 <= k < b && s0.stack@[k] == x;
                    assert(s[k] == x);
                }
                if s.contains(x) {
                    let k = choose|k: int| 0 <= k < s.len() && s[k] == x;
                    assert(s0.stack@[k] == x);
                }
            }
            assert(in_comps(out_rows(s0), x) <==> (visited(s0, x) && !s0.stack@.contains(x)));
        } else {
            assert(s.contains(v)) by {
                assert(s[b] == v);
            }
            assert(!in_comps(out_rows(s0), v));
        }
    }
    assert(out_rows(s1) == out_rows(s0));
    // gray and closed nodes
    assert forall|x: usize| #[trigger] gray.insert(v).contains(x) implies s.contains(x) by {
        if x == v {
            assert(s[b] == v);
        } else {
            let k = choose|k: int| 0 <= k < b && s0.stack@[k] == x;
            assert(s[k] == x);
        }
    }
    assert forall|x: usize| x < n && #[trigger] visited(s1, x) && !gray.insert(v).contains(x) implies closed_node(g, s1, x, g[x as int].len() as int) by {
        assert(visited(s0, x));
        assert(closed_node(g, s0, x, g[x as int].len() as int));
        assert forall|j: int| 0 <= j < g[x as int].len() implies visited(s1, #[trigger] g[x as int][j]) && (s.contains(g[x as int][j]) ==> low(
            s1,
            x,
        ) <= idx(s1, g[x as int][j])) by {
            let w = g[x as int][j];
            assert(visited(s0, w));
            assert(w < n);
            assert(w != v);
            if s.contains(w) {
                let k = choose|k: int| 0 <= k < s.len() && s[k] == w;
                assert(k < b);
                assert(s0.stack@.contains(w));
            }
        }
    }
    // frame
    assert(s1.stack@.take(b) =~= s0.stack@);
    assert forall|x: usize| x < n && visited(s0, x) && !s0.stack@.contains(x) implies !#[trigger] s1.stack@.contains(x) by {
        if s.contains(x) {
            let k = choose|k: int| 0 <= k < s.len() && s[k] == x;
            if k < b {
                assert(s0.stack@.contains(x));
            }
        }
    }
}


/// While the edges of `v` are followed: `st0` is the state before `v` was
/// visited, and the first `k` edges of `v` have been followed.
spec fn loop_inv(g: Seq<Seq<usize>>, st0: TarjanState, st: TarjanState, v: usize, gray: Set<usize>, k: int) -> bool {
    let b = st0.stack@.len() as int;
    let s = st.stack@;
    &&& inv(g, st, gray.insert(v))
    &&& frame(g, st0, st)
    &&& forall|x: usize| #[trigger] gray.contains(x) ==> st0.stack@.contains(x)
    &&& v < g.len()
    &&& !visited(st0, v)
    &&& s.len() > b
    &&& s[b] == v
    &&& visited(st, v)
    &&& idx(st, v) == st0.index
    &&& forall|i: int| b <= i < s.len() ==> #[trigger] reaches(g, s[i], v)
    &&& forall|i: int| b <= i < s.len() ==> low(st, v) <= #[trigger] low(st, s[i])
    &&& 0 <= k <= g[v as int].len()
    &&& closed_node(g, st, v, k)
}

/// The result of a call on `v` that began in state `s0`.
spec fn post(g: Seq<Seq<usize>>, s0: TarjanState, s1: TarjanState, v: usize, gray: Set<usize>) -> bool {
    let b = s0.stack@.len() as int;
    let s = s1.stack@;
    &&& inv(g, s1, gray)
    &&& frame(g, s0, s1)
    &&& visited(s1, v)
    &&& idx(s1, v) == s0.index
    &&& s.len() == b ==> low(s1, v) == idx(s1, v)
    &&& s.len() > b ==> s[b] == v && low(s1, v) < idx(s1, v)
    &&& forall|i: int| b <= i < s.len() ==> #[trigger] reaches(g, s[i], v)
    &&& forall|i: int| b <= i < s.len() ==> low(s1, v) <= #[trigger] low(s1, s[i])
}

/// The low link of a node on the stack is at most its index.
proof fn lemma_low_le_idx(g: Seq<Seq<usize>>, st: TarjanState, i: int)
    requires
        inv_stack(g, st),
        0 <= i < st.stack@.len(),
    ensures
        low(st, st.stack@[i]) <= idx(st, st.stack@[i]),
{
    assert(low_witness(g, st, i));
    let k = choose|k: int| 0 <= k <= i && #[trigger] idx(st, st.stack@[k]) == low(st, st.stack@[i]) && reaches(g, st.stack@[i], st.stack@[k]);
    if k < i {
        assert(idx(st, st.stack@[k]) < idx(st, st.stack@[i]));
    }
}

/// Before following the tree edge from `v` to `w`, every node on the stack
/// reaches `w`.
proof fn lemma_before_child(g: Seq<Seq<usize>>, st0: TarjanState, st: TarjanState, v: usize, gray: Set<usize>, k: int)
    requires
        loop_inv(g, st0, st, v, gray, k),
        k < g[v as int].len(),
    ensures
        forall|i: int| 0 <= i < st.stack@.len() ==> #[trigger] reaches(g, st.stack@[i], g[v as int][k]),
{
    let b = st0.stack@.len() as int;
    let w = g[v as int][k];
    assert(edge(g, v, w)) by {
        assert(g[v as int][k] == w);
    }
    lemma_reaches_edge(g, v, w);
    assert forall|i: int| 0 <= i < st.stack@.len() implies #[trigger] reaches(g, st.stack@[i], w) by {
        if i < b {
            assert(reaches(g, st.stack@[i], st.stack@[b]));
        } else {
            assert(reaches(g, st.stack@[i], v));
        }
        lemma_reaches_trans(g, st.stack@[i], v, w);
    }
}


/// After the call on the tree child `w` (the `k`th successor of `v`) and
/// the update of the low link of `v` from that of `w`.
proof fn lemma_after_child(
    g: Seq<Seq<usize>>,
    st0: TarjanState,
    sa: TarjanState,
    sb: TarjanState,
    sc: TarjanState,
    v: usize,
    gray: Set<usize>,
    k: int,
)
    requires
        edges_in_range(g),
        loop_inv(g, st0, sa, v, gray, k),
        k < g[v as int].len(),
        !visited(sa, g[v as int][k]),
        post(g, sa, sb, g[v as int][k], gray.insert(v)),
        sc.index == sb.index,
        sc.indices@ == sb.indices@,
        sc.stack@ == sb.stack@,
        sc.on_stack@ == sb.on_stack@,
        sc.out@ == sb.out@,
        sc.lowlink@ == sb.lowlink@.update(v as int, if low(sb, g[v as int][k]) < low(sb, v) {
            low(sb, g[v as int][k]) as usize
        } else {
            low(sb, v) as usize
        }),
    ensures
        loop_inv(g, st0, sc, v, gray, k + 1),
{
    let n = g.len() as int;
    let w = g[v as int][k];
    let b = st0.stack@.len() as int;
    let ba = sa.stack@.len() as int;
    let s = sb.stack@;
    let gv = gray.insert(v);
    assert(w < n);
    assert(edge(g, v, w)) by {
        assert(g[v as int][k] == w);
    }
    lemma_reaches_edge(g, v, w);
    lemma_frame_trans(g, st0, sa, sb);
    assert(s.take(ba) == sa.stack@);
    assert forall|i: int| 0 <= i < ba implies #[trigger] s[i] == sa.stack@[i] by {
        assert(s.take(ba)[i] == s[i]);
    }
    assert(s[b] == v);
    assert(visited(sa, v));
    assert(low(sb, v) == low(sa, v));
    assert(idx(sb, v) == idx(sa, v));
    lemma_low_le_idx(g, sb, b);
    assert(sa.index > idx(sa, v));
    let lw = low(sb, w);
    let lv = low(sc, v);
    assert(lv <= low(sb, v) && lv <= lw);
    assert(lv == low(sb, v) || lv == lw);
    // w stays on the stack exactly when the call left nodes above `ba`
    if s.len() > ba {
        assert(s[ba] == w);
        lemma_low_le_idx(g, sb, ba);
    } else {
        assert(lw == idx(sb, w));
        assert(idx(sb, w) == sa.index);
    }
    // other nodes keep their low links
    assert forall|x: usize| x < n && x != v implies low(sc, x) == low(sb, x) by {}
    assert forall|x: usize| x < n implies visited(sc, x) == visited(sb, x) && idx(sc, x) == idx(sb, x) by {}
    assert(visited_set(sc, n) =~= visited_set(sb, n));
    // the witness for v's new low link
    assert(low_witness(g, sc, b)) by {
        if lv == lw && lw < low(sb, v) {
            assert(s.len() > ba);
            assert(low_witness(g, sb, ba));
            let kk = choose|kk: int| 0 <= kk <= ba && #[trigger] idx(sb, s[kk]) == low(sb, s[ba]) && reaches(g, s[ba], s[kk]);
            if kk >= b {
                if kk > b {
                    assert(idx(sb, s[b]) < idx(sb, s[kk]));
                }
                assert(false);
            }
            lemma_reaches_trans(g, v, w, s[kk]);
            assert(idx(sc, sc.stack@[kk]) == low(sc, sc.stack@[b]));
        } else {
            assert(low_witness(g, sb, b));
            let kk = choose|kk: int| 0 <= kk <= b && #[trigger] idx(sb, s[kk]) == low(sb, s[b]) && reaches(g, s[b], s[kk]);
            assert(idx(sc, sc.stack@[kk]) == low(sc, sc.stack@[b]));
        }
    }
    assert forall|i: int| 0 <= i < s.len() implies #[trigger] low_witness(g, sc, i) by {
        if i != b {
            assert(low_witness(g, sb, i));
            let kk = choose|kk: int| 0 <= kk <= i && #[trigger] idx(sb, s[kk]) == low(sb, s[i]) && reaches(g, s[i], s[kk]);
            assert(s[i] != v) by {
                assert(s[b] == v);
            }
            assert(idx(sc, sc.stack@[kk]) == low(sc, sc.stack@[i]));
        }
    }
    assert(inv_stack(g, sc));
    assert(inv_arrays(g, sc));
    assert(out_rows(sc) == out_rows(sb));
    assert(inv_out(g, sc)) by {
        assert forall|x: usize| x < n implies ((visited(sc, x) && !sc.stack@.contains(x)) <==> #[trigger] in_comps(out_rows(sc), x)) by {
            assert((visited(sb, x) && !sb.stack@.contains(x)) <==> in_comps(out_rows(sb), x));
        }
    }
    assert forall|x: usize| x < n && #[trigger] visited(sc, x) && !gv.contains(x) implies closed_node(g, sc, x, g[x as int].len() as int) by {
        assert(closed_node(g, sb, x, g[x as int].len() as int));
        assert(x != v);
        assert forall|j: int| 0 <= j < g[x as int].len() implies visited(sc, #[trigger] g[x as int][j]) && (sc.stack@.contains(g[x as int][j]) ==> low(
            sc,
            x,
        ) <= idx(sc, g[x as int][j])) by {
            assert(g[x as int][j] < n);
        }
    }
    assert(inv(g, sc, gv));
    // frame from st0
    assert forall|x: usize| x < n && #[trigger] visited(st0, x) implies visited(sc, x) && idx(sc, x) == idx(st0, x) && low(sc, x) == low(st0, x) by {
        assert(x != v);
    }
    assert forall|x: usize| x < n && #[trigger] visited(sc, x) && !visited(st0, x) implies idx(sc, x) >= st0.index by {
        assert(visited(sb, x));
    }
    assert(frame(g, st0, sc));
    // every node above v reaches v
    assert forall|i: int| b <= i < s.len() implies #[trigger] reaches(g, s[i], v) by {
        if i < ba {
            assert(reaches(g, sa.stack@[i], v));
        } else {
            assert(reaches(g, s[i], w));
            assert(s[ba] == w);
            assert(low_witness(g, sb, ba));
            let kk = choose|kk: int| 0 <= kk <= ba && #[trigger] idx(sb, s[kk]) == low(sb, s[ba]) && reaches(g, s[ba], s[kk]);
            assert(kk < ba);
            if kk < b {
                assert(reaches(g, s[kk], s[b]));
            } else {
                assert(reaches(g, sa.stack@[kk], v));
            }
            lemma_reaches_trans(g, w, s[kk], v);
            lemma_reaches_trans(g, s[i], w, v);
        }
    }
    // v's low link is at most those above it
    assert forall|i: int| b <= i < s.len() implies lv <= #[trigger] low(sc, s[i]) by {
        if i == b {
        } else if i < ba {
            assert(s[i] == sa.stack@[i]);
            assert(low(sa, v) <= low(sa, sa.stack@[i]));
            assert(visited(sa, sa.stack@[i]));
            assert(s[i] != v);
        } else {
            assert(lw <= low(sb, s[i]));
            assert(s[i] != v) by {
                assert(s[b] == v);
            }
        }
    }
    // the edges of v followed so far
    assert forall|j: int| 0 <= j < k + 1 implies visited(sc, #[trigger] g[v as int][j]) && (sc.stack@.contains(g[v as int][j]) ==> low(
        sc,
        v,
    ) <= idx(sc, g[v as int][j])) by {
        let u = g[v as int][j];
        assert(u < n);
        if j < k {
            assert(visited(sa, u));
            if sc.stack@.contains(u) {
                assert(sa.stack@.contains(u));
                assert(low(sa, v) <= idx(sa, u));
            }
        } else {
            if sc.stack@.contains(u) {
                assert(s.len() > ba);
            }
        }
    }
}


/// Following the `k`th edge of `v` to an already visited node `w`: the low
/// link of `v` drops to the index of `w` when `w` is on the stack below it.
proof fn lemma_visited_succ(g: Seq<Seq<usize>>, st0: TarjanState, sa: TarjanState, sc: TarjanState, v: usize, gray: Set<usize>, k: int)
    requires
        edges_in_range(g),
        loop_inv(g, st0, sa, v, gray, k),
        k < g[v as int].len(),
        visited(sa, g[v as int][k]),
        sc.index == sa.index,
        sc.indices@ == sa.indices@,
        sc.stack@ == sa.stack@,
        sc.on_stack@ == sa.on_stack@,
        sc.out@ == sa.out@,
        sc.lowlink@ == sa.lowlink@.update(v as int, if sa.stack@.contains(g[v as int][k]) && idx(sa, g[v as int][k]) < low(sa, v) {
            idx(sa, g[v as int][k]) as usize
        } else {
            low(sa, v) as usize
        }),
    ensures
        loop_inv(g, st0, sc, v, gray, k + 1),
{
    let n = g.len() as int;
    let w = g[v as int][k];
    let b = st0.stack@.len() as int;
    let s = sa.stack@;
    let gv = gray.insert(v);
    assert(w < n);
    assert(edge(g, v, w)) by {
        assert(g[v as int][k] == w);
    }
    lemma_reaches_edge(g, v, w);
    lemma_low_le_idx(g, sa, b);
    let lv = low(sc, v);
    assert(lv <= low(sa, v));
    assert forall|x: usize| x < n && x != v implies low(sc, x) == low(sa, x) by {}
    assert forall|x: usize| x < n implies visited(sc, x) == visited(sa, x) && idx(sc, x) == idx(sa, x) by {}
    assert(visited_set(sc, n) =~= visited_set(sa, n));
    assert(low_witness(g, sc, b)) by {
        if lv < low(sa, v) {
            let p = choose|p: int| 0 <= p < s.len() && s[p] == w;
            if p >= b {
                if p > b {
                    assert(idx(sa, s[b]) < idx(sa, s[p]));
                }
                assert(false);
            }
            assert(idx(sc, sc.stack@[p]) == low(sc, sc.stack@[b]));
        } else {
            assert(low_witness(g, sa, b));
            let kk = choose|kk: int| 0 <= kk <= b && #[trigger] idx(sa, s[kk]) == low(sa, s[b]) && reaches(g, s[b], s[kk]);
            assert(idx(sc, sc.stack@[kk]) == low(sc, sc.stack@[b]));
        }
    }
    assert forall|i: int| 0 <= i < s.len() implies #[trigger] low_witness(g, sc, i) by {
        if i != b {
            assert(low_witness(g, sa, i));
            let kk = choose|kk: int| 0 <= kk <= i && #[trigger] idx(sa, s[kk]) == low(sa, s[i]) && reaches(g, s[i], s[kk]);
            assert(s[i] != v) by {
                assert(s[b] == v);
            }
            assert(idx(sc, sc.stack@[kk]) == low(sc, sc.stack@[i]));
        }
    }
    assert(inv_stack(g, sc));
    assert(inv_arrays(g, sc));
    assert(out_rows(sc) == out_rows(sa));
    assert(inv_out(g, sc)) by {
        assert forall|x: usize| x < n implies ((visited(sc, x) && !sc.stack@.contains(x)) <==> #[trigger] in_comps(out_rows(sc), x)) by {
            assert((visited(sa, x) && !sa.stack@.contains(x)) <==> in_comps(out_rows(sa), x));
        }
    }
    assert forall|x: usize| x < n && #[trigger] visited(sc, x) && !gv.contains(x) implies closed_node(g, sc, x, g[x as int].len() as int) by {
        assert(closed_node(g, sa, x, g[x as int].len() as int));
        assert forall|j: int| 0 <= j < g[x as int].len() implies visited(sc, #[trigger] g[x as int][j]) && (sc.stack@.contains(g[x as int][j]) ==> low(
            sc,
            x,
        ) <= idx(sc, g[x as int][j])) by {
            assert(g[x as int][j] < n);
        }
    }
    assert(inv(g, sc, gv));
    assert forall|x: usize| x < n && #[trigger] visited(st0, x) implies visited(sc, x) && idx(sc, x) == idx(st0, x) && low(sc, x) == low(st0, x) by {
        assert(x != v);
    }
    assert(frame(g, st0, sc));
    assert forall|i: int| b <= i < s.len() implies lv <= #[trigger] low(sc, s[i]) by {
        if i != b {
            assert(low(sa, v) <= low(sa, s[i]));
            assert(s[i] != v) by {
                assert(s[b] == v);
            }
        }
    }
    assert forall|j: int| 0 <= j < k + 1 implies visited(sc, #[trigger] g[v as int][j]) && (sc.stack@.contains(g[v as int][j]) ==> low(
        sc,
        v,
    ) <= idx(sc, g[v as int][j])) by {
        let u = g[v as int][j];
        assert(u < n);
    }
}

/// `v` keeps a low link below its index: it stays on the stack.
proof fn lemma_finish_keep(g: Seq<Seq<usize>>, st0: TarjanState, st: TarjanState, v: usize, gray: Set<usize>)
    requires
        loop_inv(g, st0, st, v, gray, g[v as int].len() as int),
        low(st, v) != idx(st, v),
    ensures
        post(g, st0, st, v, gray),
{
    let n = g.len() as int;
    let b = st0.stack@.len() as int;
    lemma_low_le_idx(g, st, b);
    assert forall|x: usize| #[trigger] gray.contains(x) implies st.stack@.contains(x) by {
        assert(gray.insert(v).contains(x));
    }
    assert forall|x: usize| x < n && #[trigger] visited(st, x) && !gray.contains(x) implies closed_node(g, st, x, g[x as int].len() as int) by {
        if x != v {
            assert(!gray.insert(v).contains(x));
        }
    }
}


/// `v` is the root of its component: the nodes from `v` up are popped and
/// become the next component.
proof fn lemma_pop(
    g: Seq<Seq<usize>>,
    st0: TarjanState,
    st: TarjanState,
    sd: TarjanState,
    v: usize,
    gray: Set<usize>,
    comp: Seq<usize>,
)
    requires
        edges_in_range(g),
        loop_inv(g, st0, st, v, gray, g[v as int].len() as int),
        low(st, v) == idx(st, v),
        sd.index == st.index,
        sd.indices@ == st.indices@,
        sd.lowlink@ == st.lowlink@,
        sd.stack@ == st.stack@.take(st0.stack@.len() as int),
        sd.on_stack@.len() == g.len(),
        forall|x: usize| x < g.len() ==> #[trigger] sd.on_stack@[x as int] == sd.stack@.contains(x),
        comp == st.stack@.skip(st0.stack@.len() as int).reverse(),
        sd.out@.len() == st.out@.len() + 1,
        forall|c: int| 0 <= c < st.out@.len() ==> #[trigger] sd.out@[c] == st.out@[c],
        sd.out@[st.out@.len() as int]@ == comp,
    ensures
        post(g, st0, sd, v, gray),
{
    let n = g.len() as int;
    let b = st0.stack@.len() as int;
    let p = st.stack@;
    let m = st.out@.len() as int;
    let old_rows = out_rows(st);
    let new_rows = out_rows(sd);
    assert(p[b] == v);
    assert(new_rows.len() == m + 1);
    assert forall|c: int| 0 <= c < m implies #[trigger] new_rows[c] == old_rows[c] by {
        assert(sd.out@[c] == st.out@[c]);
    }
    assert(new_rows[m] == comp);
    assert(comp.len() == p.len() - b);
    // membership in the popped part
    assert forall|x: usize| #[trigger] comp.contains(x) <==> exists|q: int| b <= q < p.len() && p[q] == x by {
        if comp.contains(x) {
            let i = choose|i: int| 0 <= i < comp.len() && comp[i] == x;
            assert(comp[i] == p[p.len() - 1 - i]);
        }
        if exists|q: int| b <= q < p.len() && p[q] == x {
            let q = choose|q: int| b <= q < p.len() && p[q] == x;
            assert(comp[p.len() - 1 - q] == x);
        }
    }
    assert forall|i: int| 0 <= i < comp.len() implies #[trigger] comp[i] == p[p.len() - 1 - i] by {}
    assert forall|q: int| 0 <= q < b implies #[trigger] sd.stack@[q] == p[q] by {}
    assert forall|x: usize| #[trigger] sd.stack@.contains(x) <==> exists|q: int| 0 <= q < b && p[q] == x by {
        if sd.stack@.contains(x) {
            let q = choose|q: int| 0 <= q < sd.stack@.len() && sd.stack@[q] == x;
            assert(p[q] == x);
        }
        if exists|q: int| 0 <= q < b && p[q] == x {
            let q = choose|q: int| 0 <= q < b && p[q] == x;
            assert(sd.stack@[q] == x);
        }
    }
    // in_comps of the new rows
    assert forall|x: usize| #[trigger] in_comps(new_rows, x) <==> (in_comps(old_rows, x) || comp.contains(x)) by {
        if in_comps(new_rows, x) {
            let (c, i) = choose|c: int, i: int| 0 <= c < new_rows.len() && 0 <= i < new_rows[c].len() && #[trigger] new_rows[c][i] == x;
            if c < m {
                assert(old_rows[c][i] == x);
            } else {
                assert(comp[i] == x);
            }
        }
        if in_comps(old_rows, x) {
            let (c, i) = choose|c: int, i: int| 0 <= c < old_rows.len() && 0 <= i < old_rows[c].len() && #[trigger] old_rows[c][i] == x;
            assert(new_rows[c][i] == x);
        }
        if comp.contains(x) {
            let i = choose|i: int| 0 <= i < comp.len() && comp[i] == x;
            assert(new_rows[m][i] == x);
        }
    }
    // popped nodes are not below b, and were not in earlier components
    assert forall|q: int| b <= q < p.len() implies !in_comps(old_rows, #[trigger] p[q]) && !sd.stack@.contains(p[q]) && p[q] < n && visited(st, p[q]) by {
        assert(p.contains(p[q]));
        assert(p[q] < n);
        if sd.stack@.contains(p[q]) {
            let q2 = choose|q2: int| 0 <= q2 < b && p[q2] == p[q];
            assert(p[q2] != p[q]);
        }
    }
    // every popped node's edges lead into the new component or earlier ones
    assert forall|q: int| b <= q < p.len() implies #[trigger] closed_node(g, st, p[q], g[p[q] as int].len() as int) by {
        if p[q] != v {
            if gray.insert(v).contains(p[q]) {
                assert(gray.contains(p[q]));
                assert(st0.stack@.contains(p[q]));
                let q2 = choose|q2: int| 0 <= q2 < st0.stack@.len() && st0.stack@[q2] == p[q];
                assert(p.take(b)[q2] == p[q]);
                assert(p[q2] != p[q]);
            }
        }
    }
    assert(visited_set(sd, n) =~= visited_set(st, n));
    assert forall|x: usize| x < n implies visited(sd, x) == visited(st, x) && idx(sd, x) == idx(st, x) && low(sd, x) == low(st, x) by {}
    // the stack
    assert(inv_stack(g, sd)) by {
        let s = sd.stack@;
        assert forall|i: int, j: int| 0 <= i < j < s.len() implies s[i] != s[j] by {
            assert(p[i] != p[j]);
        }
        assert forall|i: int| 0 <= i < s.len() implies #[trigger] low_witness(g, sd, i) by {
            assert(low_witness(g, st, i));
            let kk = choose|kk: int| 0 <= kk <= i && #[trigger] idx(st, p[kk]) == low(st, p[i]) && reaches(g, p[i], p[kk]);
            assert(idx(sd, s[kk]) == low(sd, s[i]));
        }
        assert forall|i: int, j: int| 0 <= i < j < s.len() implies idx(sd, #[trigger] s[i]) < idx(sd, #[trigger] s[j]) by {
            assert(idx(st, p[i]) < idx(st, p[j]));
        }
        assert forall|i: int, j: int| 0 <= i < j < s.len() implies reaches(g, #[trigger] s[i], #[trigger] s[j]) by {
            assert(reaches(g, p[i], p[j]));
        }
        assert forall|i: int| 0 <= i < s.len() implies #[trigger] s[i] < n && visited(sd, s[i]) by {
            assert(p[i] < n && visited(st, p[i]));
        }
    }
    // the components
    assert forall|x: usize| x < n implies ((visited(sd, x) && !sd.stack@.contains(x)) <==> #[trigger] in_comps(new_rows, x)) by {
        assert((visited(st, x) && !p.contains(x)) <==> in_comps(old_rows, x));
        if comp.contains(x) {
            let q = choose|q: int| b <= q < p.len() && p[q] == x;
        } else {
            if p.contains(x) {
                let q = choose|q: int| 0 <= q < p.len() && p[q] == x;
                assert(q < b);
                assert(sd.stack@.contains(x));
            }
            if sd.stack@.contains(x) {
                let q = choose|q: int| 0 <= q < b && p[q] == x;
                assert(p.contains(x));
            }
        }
    }
    assert(comps_distinct(new_rows, n)) by {
        assert forall|c: int| 0 <= c < new_rows.len() implies #[trigger] new_rows[c].len() > 0 by {
            if c < m {
                assert(old_rows[c].len() > 0);
            }
        }
        assert forall|c: int, i: int| 0 <= c < new_rows.len() && 0 <= i < new_rows[c].len() implies #[trigger] new_rows[c][i] < n by {
            if c < m {
                assert(old_rows[c][i] < n);
            } else {
                assert(comp[i] == p[p.len() - 1 - i]);
            }
        }
        assert forall|c1: int, i1: int, c2: int, i2: int|
            0 <= c1 < new_rows.len() && 0 <= i1 < new_rows[c1].len() && 0 <= c2 < new_rows.len() && 0 <= i2 < new_rows[c2].len()
                && #[trigger] new_rows[c1][i1] == #[trigger] new_rows[c2][i2] implies c1 == c2 && i1 == i2 by {
            if c1 < m && c2 < m {
                assert(old_rows[c1][i1] == old_rows[c2][i2]);
            } else if c1 == m && c2 == m {
                assert(p[p.len() - 1 - i1] == p[p.len() - 1 - i2]);
            } else if c1 == m {
                let q = p.len() - 1 - i1;
                assert(!in_comps(old_rows, p[q]));
                assert(old_rows[c2][i2] == p[q]);
            } else {
                let q = p.len() - 1 - i2;
                assert(!in_comps(old_rows, p[q]));
                assert(old_rows[c1][i1] == p[q]);
            }
        }
    }
    assert(comps_ordered(g, new_rows)) by {
        assert forall|c: int, i: int, j: int|
            0 <= c < new_rows.len() && 0 <= i < new_rows[c].len() && 0 <= j < g[new_rows[c][i] as int].len() implies exists|c2: int, k: int|
                0 <= c2 <= c && 0 <= k < new_rows[c2].len() && #[trigger] new_rows[c2][k] == #[trigger] g[new_rows[c][i] as int][j] by {
            if c < m {
                assert(old_rows[c][i] == new_rows[c][i]);
                let x = old_rows[c][i];
                assert(0 <= j < g[x as int].len());
                let (c2, k) = choose|c2: int, k: int| 0 <= c2 <= c && 0 <= k < old_rows[c2].len() && #[trigger] old_rows[c2][k] == #[trigger] g[old_rows[c][i] as int][j];
                assert(new_rows[c2][k] == old_rows[c2][k]);
            } else {
                let q = p.len() - 1 - i;
                let x = p[q];
                assert(new_rows[c][i] == x);
                let u = g[x as int][j];
                assert(closed_node(g, st, x, g[x as int].len() as int));
                assert(visited(st, u));
                assert(u < n);
                if p.contains(u) {
                    let r = choose|r: int| 0 <= r < p.len() && p[r] == u;
                    assert(low(st, x) <= idx(st, u));
                    if r < b {
                        assert(idx(st, p[r]) < idx(st, p[b]));
                        assert(low(st, v) <= low(st, p[q]));
                        assert(false);
                    }
                    assert(comp[p.len() - 1 - r] == u);
                    assert(new_rows[m][p.len() - 1 - r] == u);
                } else {
                    assert(in_comps(old_rows, u));
                    let (c2, k) = choose|c2: int, k: int| 0 <= c2 < old_rows.len() && 0 <= k < old_rows[c2].len() && #[trigger] old_rows[c2][k] == u;
                    assert(new_rows[c2][k] == u);
                }
            }
        }
    }
    assert(comps_connected(g, new_rows)) by {
        assert forall|c: int, i: int, j: int| 0 <= c < new_rows.len() && 0 <= i < new_rows[c].len() && 0 <= j < new_rows[c].len() implies reaches(
            g,
            #[trigger] new_rows[c][i],
            #[trigger] new_rows[c][j],
        ) by {
            if c < m {
                assert(reaches(g, old_rows[c][i], old_rows[c][j]));
            } else {
                let qi = p.len() - 1 - i;
                let qj = p.len() - 1 - j;
                assert(new_rows[c][i] == p[qi]);
                assert(new_rows[c][j] == p[qj]);
                assert(reaches(g, p[qi], v));
                if qj > b {
                    assert(reaches(g, p[b], p[qj]));
                } else {
                    lemma_reaches_refl(g, v);
                }
                lemma_reaches_trans(g, p[qi], v, p[qj]);
            }
        }
    }
    assert(inv_out(g, sd));
    assert forall|x: usize| #[trigger] gray.contains(x) implies sd.stack@.contains(x) by {
        assert(st0.stack@.contains(x));
        let q = choose|q: int| 0 <= q < st0.stack@.len() && st0.stack@[q] == x;
        assert(p.take(b)[q] == x);
    }
    assert forall|x: usize| x < n && #[trigger] visited(sd, x) && !gray.contains(x) implies closed_node(g, sd, x, g[x as int].len() as int) by {
        if x != v {
            assert(!gray.insert(v).contains(x));
        }
        assert(closed_node(g, st, x, g[x as int].len() as int));
        assert forall|j: int| 0 <= j < g[x as int].len() implies visited(sd, #[trigger] g[x as int][j]) && (sd.stack@.contains(g[x as int][j]) ==> low(
            sd,
            x,
        ) <= idx(sd, g[x as int][j])) by {
            let u = g[x as int][j];
            assert(u < n);
            if sd.stack@.contains(u) {
                let q = choose|q: int| 0 <= q < b && p[q] == u;
                assert(p.contains(u));
            }
        }
    }
    assert(inv(g, sd, gray));
    // frame
    assert(sd.stack@.take(b) =~= st0.stack@) by {
        assert(p.take(b) == st0.stack@);
    }
    assert forall|x: usize| x < n && visited(st0, x) && !st0.stack@.contains(x) implies !#[trigger] sd.stack@.contains(x) by {
        assert(!p.contains(x));
        if sd.stack@.contains(x) {
            let q = choose|q: int| 0 <= q < b && p[q] == x;
            assert(p.contains(x));
        }
    }
    assert forall|c: int| 0 <= c < st0.out@.len() implies #[trigger] sd.out@[c]@ == st0.out@[c]@ by {
        assert(st.out@[c]@ == st0.out@[c]@);
        assert(sd.out@[c] == st.out@[c]);
    }
    assert(frame(g, st0, sd));
}


/// Visits `v` and everything reachable from it that is not yet visited,
/// emitting each component whose root it finishes.
fn strongconnect(v: usize, graph: &[Vec<usize>], st: &mut TarjanState, Ghost(gray): Ghost<Set<usize>>)
    requires
        edges_in_range(rows(graph@)),
        inv(rows(graph@), *old(st), gray),
        v < graph.len(),
        !visited(*old(st), v),
        forall|i: int| 0 <= i < old(st).stack@.len() ==> #[trigger] reaches(rows(graph@), old(st).stack@[i], v),
    ensures
        post(rows(graph@), *old(st), *final(st), v, gray),
    decreases graph.len() - old(st).index,
{
    let ghost g = rows(graph@);
    let ghost st0 = *st;
    proof {
        lemma_visited_bound(g, st0, v);
    }
    let base = st.stack.len();
    let i0 = st.index;
    st.indices.set(v, Some(i0));
    st.lowlink.set(v, i0);
    st.index = i0 + 1;
    st.stack.push(v);
    st.on_stack.set(v, true);
    proof {
        lemma_enter(g, st0, *st, v, gray);
        assert(closed_node(g, *st, v, 0));
        assert forall|i: int| base <= i < st.stack@.len() implies #[trigger] reaches(g, st.stack@[i], v) by {
            lemma_reaches_refl(g, v);
        }
    }
    let succ = &graph[v];
    assert(succ@ == g[v as int]);
    let mut k: usize = 0;
    while k < succ.len()
        invariant
            g == rows(graph@),
            edges_in_range(g),
            succ@ == g[v as int],
            base == st0.stack@.len(),
            loop_inv(g, st0, *st, v, gray, k as int),
            st.index > st0.index,
            st0.index == old(st).index,
        decreases succ.len() - k,
    {
        let w = succ[k];
        assert(w < graph.len());
        let ghost sa = *st;
        if st.indices[w].is_none() {
            proof {
                lemma_before_child(g, st0, sa, v, gray, k as int);
                lemma_visited_bound(g, sa, w);

            }
            strongconnect(w, graph, st, Ghost(gray.insert(v)));
            let ghost sb = *st;
            let lw = st.lowlink[w];
            let lv = st.lowlink[v];
            if lw < lv {
                st.lowlink.set(v, lw);
            }
            proof {
                assert(st.lowlink@ == sb.lowlink@.update(v as int, if low(sb, w) < low(sb, v) {
                    low(sb, w) as usize
                } else {
                    low(sb, v) as usize
                }));
                lemma_after_child(g, st0, sa, sb, *st, v, gray, k as int);
            }
        } else {
            let on = st.on_stack[w];
            let lv = st.lowlink[v];
            let iw = match st.indices[w] {
                Some(i) => i,
                None => 0,
            };
            if on && iw < lv {
                st.lowlink.set(v, iw);
            }
            proof {
                assert(on == sa.stack@.contains(w));
                assert(st.lowlink@ == sa.lowlink@.update(v as int, if sa.stack@.contains(w) && idx(sa, w) < low(sa, v) {
                    idx(sa, w) as usize
                } else {
                    low(sa, v) as usize
                }));
                lemma_visited_succ(g, st0, sa, *st, v, gray, k as int);
            }
        }
        k += 1;
    }
    let lv = st.lowlink[v];
    if Some(lv) == st.indices[v] {
        let ghost full = st.stack@;
        let ghost sl = *st;
        let mut comp: Vec<usize> = Vec::new();
        while st.stack.len() > base
            invariant
                base == st0.stack@.len(),
                base < full.len(),
                full == sl.stack@,
                full.no_duplicates(),
                forall|i: int| 0 <= i < full.len() ==> #[trigger] full[i] < g.len(),
                base <= st.stack.len() <= full.len(),
                st.stack@ == full.take(st.stack.len() as int),
                comp@ == full.skip(st.stack.len() as int).reverse(),
                st.on_stack@.len() == g.len(),
                forall|x: usize| x < g.len() ==> #[trigger] st.on_stack@[x as int] == st.stack@.contains(x),
                st.index == sl.index,
                st.indices@ == sl.indices@,
                st.lowlink@ == sl.lowlink@,
                st.out@ == sl.out@,
            decreases st.stack.len(),
        {
            let ghost before = st.stack@;
            let w = match st.stack.pop() {
                Some(w) => w,
                None => 0,
            };
            proof {
                assert(before == full.take(before.len() as int));
                assert(before[before.len() - 1] == full[before.len() - 1]);
                assert(w == full[before.len() - 1]);
                assert(st.stack@ =~= full.take(st.stack.len() as int));
            }
            st.on_stack.set(w, false);
            comp.push(w);
            proof {
                assert(comp@ =~= full.skip(st.stack.len() as int).reverse());
                assert forall|x: usize| x < g.len() implies #[trigger] st.on_stack@[x as int] == st.stack@.contains(x) by {
                    if x == w {
                        if st.stack@.contains(w) {
                            let q = choose|q: int| 0 <= q < st.stack@.len() && st.stack@[q] == w;
                            assert(full[q] == full[before.len() - 1]);
                        }
                    } else {
                        assert(before.contains(x) <==> st.stack@.contains(x)) by {
                            if before.contains(x) {
                                let q = choose|q: int| 0 <= q < before.len() && before[q] == x;
                                assert(q < st.stack@.len());
                                assert(st.stack@[q] == x);
                            }
                            if st.stack@.contains(x) {
                                let q = choose|q: int| 0 <= q < st.stack@.len() && st.stack@[q] == x;
                                assert(before[q] == x);
                            }
                        }
                    }
                }
            }
        }
        let ghost comp_v = comp@;
        st.out.push(comp);
        proof {
            lemma_pop(g, st0, sl, *st, v, gray, comp_v);
        }
    } else {
        proof {
            lemma_finish_keep(g, st0, *st, v, gray);
        }
    }
}


/// Nodes that reach one another are in the same component.
pub open spec fn comps_maximal(g: Seq<Seq<usize>>, cs: Seq<Seq<usize>>) -> bool {
    forall|c1: int, i1: int, c2: int, i2: int|
        0 <= c1 < cs.len() && 0 <= i1 < cs[c1].len() && 0 <= c2 < cs.len() && 0 <= i2 < cs[c2].len()
            && reaches(g, #[trigger] cs[c1][i1], #[trigger] cs[c2][i2]) && reaches(g, cs[c2][i2], cs[c1][i1]) ==> c1 == c2
}

/// `cs` lists the strongly connected components of `g`: each node once,
/// the nodes of a component reaching one another, nodes that reach one
/// another in one component, and every component after those its edges lead
/// into.
pub open spec fn is_scc_decomposition(g: Seq<Seq<usize>>, cs: Seq<Seq<usize>>) -> bool {
    &&& comps_distinct(cs, g.len() as int)
    &&& forall|v: usize| v < g.len() ==> #[trigger] in_comps(cs, v)
    &&& comps_connected(g, cs)
    &&& comps_maximal(g, cs)
    &&& comps_ordered(g, cs)
}

/// Following a path never leads into a later component.
proof fn lemma_path_stays_earlier(g: Seq<Seq<usize>>, cs: Seq<Seq<usize>>, p: Seq<usize>, c: int, i: int)
    requires
        comps_ordered(g, cs),
        is_path(g, p),
        0 <= c < cs.len(),
        0 <= i < cs[c].len(),
        cs[c][i] == p[0],
    ensures
        exists|c2: int, k: int| 0 <= c2 <= c && 0 <= k < cs[c2].len() && #[trigger] cs[c2][k] == p.last(),
    decreases p.len(),
{
    if p.len() == 1 {
        assert(cs[c][i] == p.last());
    } else {
        let q = p.drop_last();
        assert forall|j: int| 0 <= j < q.len() - 1 implies #[trigger] edge(g, q[j], q[j + 1]) by {
            assert(edge(g, p[j], p[j + 1]));
        }
        lemma_path_stays_earlier(g, cs, q, c, i);
        let (c1, k1) = choose|c1: int, k1: int| 0 <= c1 <= c && 0 <= k1 < cs[c1].len() && #[trigger] cs[c1][k1] == q.last();
        let x = q.last();
        let y = p.last();
        let i2 = p.len() - 2;
        assert(edge(g, p[i2], p[i2 + 1]));
        assert(x == p[i2]);
        let j = choose|j: int| 0 <= j < g[x as int].len() && g[x as int][j] == y;
        assert(0 <= j < g[cs[c1][k1] as int].len());
        let (c2, k2) = choose|c2: int, k2: int| 0 <= c2 <= c1 && 0 <= k2 < cs[c2].len() && #[trigger] cs[c2][k2] == #[trigger] g[cs[c1][k1] as int][j];
        assert(cs[c2][k2] == y);
    }
}

/// Components ordered along the edges are maximal.
proof fn lemma_ordered_maximal(g: Seq<Seq<usize>>, cs: Seq<Seq<usize>>)
    requires
        comps_ordered(g, cs),
        comps_distinct(cs, g.len() as int),
    ensures
        comps_maximal(g, cs),
{
    assert forall|c1: int, i1: int, c2: int, i2: int|
        0 <= c1 < cs.len() && 0 <= i1 < cs[c1].len() && 0 <= c2 < cs.len() && 0 <= i2 < cs[c2].len()
            && reaches(g, #[trigger] cs[c1][i1], #[trigger] cs[c2][i2]) && reaches(g, cs[c2][i2], cs[c1][i1]) implies c1 == c2 by {
        let x = cs[c1][i1];
        let y = cs[c2][i2];
        let p = choose|p: Seq<usize>| #[trigger] is_path(g, p) && p[0] == x && p.last() == y;
        lemma_path_stays_earlier(g, cs, p, c1, i1);
        let (c3, k3) = choose|c3: int, k3: int| 0 <= c3 <= c1 && 0 <= k3 < cs[c3].len() && #[trigger] cs[c3][k3] == p.last();
        assert(cs[c3][k3] == cs[c2][i2]);
        let r = choose|r: Seq<usize>| #[trigger] is_path(g, r) && r[0] == y && r.last() == x;
        lemma_path_stays_earlier(g, cs, r, c2, i2);
        let (c4, k4) = choose|c4: int, k4: int| 0 <= c4 <= c2 && 0 <= k4 < cs[c4].len() && #[trigger] cs[c4][k4] == r.last();
        assert(cs[c4][k4] == cs[c1][i1]);
    }
}

/// The strongly connected components of `graph`, each listed after the
/// components that its edges lead into.
pub fn tarjan_scc(graph: &[Vec<usize>]) -> (r: Vec<Vec<usize>>)
    requires
        edges_in_range(rows(graph@)),
    ensures
        is_scc_decomposition(rows(graph@), rows(r@)),
{
    let ghost g = rows(graph@);
    let n = graph.len();
    let mut indices: Vec<Option<usize>> = Vec::new();
    let mut lowlink: Vec<usize> = Vec::new();
    let mut on_stack: Vec<bool> = Vec::new();
    let mut i: usize = 0;
    while i < n
        invariant
            i <= n,
            indices.len() == i,
            lowlink.len() == i,
            on_stack.len() == i,
            forall|x: int| 0 <= x < i ==> #[trigger] indices@[x] is None,
            forall|x: int| 0 <= x < i ==> !#[trigger] on_stack@[x],
        decreases n - i,
    {
        indices.push(None);
        lowlink.push(0);
        on_stack.push(false);
        i += 1;
    }
    let mut st = TarjanState { index: 0, indices, lowlink, stack: Vec::new(), on_stack, out: Vec::new() };
    proof {
        assert(visited_set(st, n as int) =~= Set::<int>::empty());
        assert(out_rows(st) =~= Seq::<Seq<usize>>::empty());
        assert forall|x: usize| x < n implies #[trigger] st.on_stack@[x as int] == st.stack@.contains(x) by {}
        assert forall|x: usize| x < n implies ((visited(st, x) && !st.stack@.contains(x)) <==> #[trigger] in_comps(out_rows(st), x)) by {}
        assert(inv(g, st, Set::empty()));
    }
    let mut v: usize = 0;
    while v < n
        invariant
            g == rows(graph@),
            n == graph.len(),
            edges_in_range(g),
            v <= n,
            inv(g, st, Set::empty()),
            st.stack@.len() == 0,
            forall|x: usize| x < v ==> #[trigger] visited(st, x),
        decreases n - v,
    {
        if st.indices[v].is_none() {
            let ghost s0 = st;
            strongconnect(v, graph, &mut st, Ghost(Set::empty()));
            proof {
                if st.stack@.len() > 0 {
                    assert(low_witness(g, st, 0));
                    assert(false);
                }
                assert forall|x: usize| x < v + 1 implies #[trigger] visited(st, x) by {
                    if x < v {
                        assert(visited(s0, x));
                    }
                }
            }
        }
        v += 1;
    }
    proof {
        assert forall|x: usize| x < n implies #[trigger] in_comps(out_rows(st), x) by {
            assert(visited(st, x));
            assert(!st.stack@.contains(x));
        }
        lemma_ordered_maximal(g, out_rows(st));
    }
    st.out
}


/// A node listed once, in component `c`, belongs to component `c`.
proof fn lemma_node_comp_unique(cs: Seq<Seq<usize>>, n: int, c: int, i: int)
    requires
        comps_distinct(cs, n),
        0 <= c < cs.len(),
        0 <= i < cs[c].len(),
    ensures
        node_comp(cs, cs[c][i]) == c,
    decreases cs.len(),
{
    let v = cs[c][i];
    if c == cs.len() - 1 {
        assert(cs.last()[i] == v);
        assert(cs.last().contains(v));
    } else {
        let t = cs.drop_last();
        if cs.last().contains(v) {
            let k = choose|k: int| 0 <= k < cs.last().len() && cs.last()[k] == v;
            assert(cs[cs.len() - 1][k] == cs[c][i]);
        }
        assert forall|c1: int, i1: int, c2: int, i2: int|
            0 <= c1 < t.len() && 0 <= i1 < t[c1].len() && 0 <= c2 < t.len() && 0 <= i2 < t[c2].len()
                && #[trigger] t[c1][i1] == #[trigger] t[c2][i2] implies c1 == c2 && i1 == i2 by {
            assert(cs[c1][i1] == cs[c2][i2]);
        }
        assert forall|c1: int| 0 <= c1 < t.len() implies #[trigger] t[c1].len() > 0 by {
            assert(cs[c1].len() > 0);
        }
        assert forall|c1: int, i1: int| 0 <= c1 < t.len() && 0 <= i1 < t[c1].len() implies #[trigger] t[c1][i1] < n by {
            assert(cs[c1][i1] < n);
        }
        assert(t[c][i] == v);
        lemma_node_comp_unique(t, n, c, i);
    }
}

/// In a decomposition, a component depends only on components listed
/// before it.
proof fn lemma_comp_edge_earlier(g: Seq<Seq<usize>>, cs: Seq<Seq<usize>>, a: int, b: int)
    requires
        edges_in_range(g),
        g.len() <= usize::MAX,
        is_scc_decomposition(g, cs),
        comp_edge(g, cs, a, b),
    ensures
        a < b,
{
    let n = g.len() as int;
    let (u, j) = choose|u: int, j: int|
        #![trigger g[u][j], node_comp(cs, u as usize)]
        0 <= u < g.len() && 0 <= j < g[u].len() && node_comp(cs, u as usize) == b && node_comp(cs, g[u][j]) == a && a != b;
    let w = g[u][j];
    assert(in_comps(cs, u as usize));
    let (cu, iu) = choose|cu: int, iu: int| 0 <= cu < cs.len() && 0 <= iu < cs[cu].len() && #[trigger] cs[cu][iu] == u as usize;
    lemma_node_comp_unique(cs, n, cu, iu);
    assert(cu == b);
    assert(cs[cu][iu] as int == u);
    assert(0 <= j < g[cs[cu][iu] as int].len());
    let (c2, k2) = choose|c2: int, k2: int| 0 <= c2 <= cu && 0 <= k2 < cs[c2].len() && #[trigger] cs[c2][k2] == #[trigger] g[cs[cu][iu] as int][j];
    lemma_node_comp_unique(cs, n, c2, k2);
    assert(cs[c2][k2] == w);
    assert(c2 == a);
}

/// No member of a cyclic set of components of a decomposition is below `k`.
proof fn lemma_no_member_below(g: Seq<Seq<usize>>, cs: Seq<Seq<usize>>, s: Set<int>, k: int)
    requires
        edges_in_range(g),
        g.len() <= usize::MAX,
        is_scc_decomposition(g, cs),
        cyclic_set(g, cs, s),
        0 <= k,
    ensures
        forall|b: int| #[trigger] s.contains(b) ==> b >= k,
    decreases k,
{
    if k > 0 {
        lemma_no_member_below(g, cs, s, k - 1);
        if s.contains(k - 1) {
            assert(depends_within(g, cs, s, k - 1));
            let a = choose|a: int| #[trigger] s.contains(a) && comp_edge(g, cs, a, k - 1);
            lemma_comp_edge_earlier(g, cs, a, k - 1);
        }
    }
}

/// The components of a decomposition can always be put in an order where
/// each comes after those it depends on: the component graph has no cycle.
/// So ordering the components that [`tarjan_scc`] finds never fails.
pub proof fn law_scc_components_acyclic(g: Seq<Seq<usize>>, cs: Seq<Seq<usize>>)
    requires
        edges_in_range(g),
        g.len() <= usize::MAX,
        is_scc_decomposition(g, cs),
    ensures
        !has_dependency_cycle(g, cs),
{
    if has_dependency_cycle(g, cs) {
        let s = choose|s: Set<int>| #[trigger] cyclic_set(g, cs, s);
        lemma_no_member_below(g, cs, s, cs.len() as int);
        let b = choose|b: int| #[trigger] s.contains(b);
        assert(b < cs.len());
    }
}

} // verus!
