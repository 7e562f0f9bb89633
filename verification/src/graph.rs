//! Ordering the strongly connected components of a dependency graph so that
//! each component comes after the components it depends on.
use vstd::prelude::*;
use std::collections::{HashSet, VecDeque};

verus! {

broadcast use vstd::std_specs::hash::group_hash_axioms;

/// The lists of a vector of vectors.
pub open spec fn rows(v: Seq<Vec<usize>>) -> Seq<Seq<usize>> {
    v.map_values(|r: Vec<usize>| r@)
}

/// The component of node `v`: the last of `cs` that lists it, or 0.
pub open spec fn node_comp(cs: Seq<Seq<usize>>, v: usize) -> int
    decreases cs.len(),
{
    if cs.len() == 0 {
        0
    } else if cs.last().contains(v) {
        cs.len() - 1
    } else {
        node_comp(cs.drop_last(), v)
    }
}

/// Component `a` must come before component `b`: a node of `b` has an edge
/// to a node of `a`, in another component.
pub open spec fn comp_edge(g: Seq<Seq<usize>>, cs: Seq<Seq<usize>>, a: int, b: int) -> bool {
    exists|u: int, j: int|
        #![trigger g[u][j], node_comp(cs, u as usize)]
        0 <= u < g.len() && 0 <= j < g[u].len() && node_comp(cs, u as usize) == b && node_comp(cs, g[u][j]) == a
            && a != b
}

/// The same, counting only the edges before `(u0, j0)` in order of node and
/// position.
pub open spec fn comp_edge_before(g: Seq<Seq<usize>>, cs: Seq<Seq<usize>>, a: int, b: int, u0: int, j0: int) -> bool {
    exists|u: int, j: int|
        #![trigger g[u][j], node_comp(cs, u as usize)]
        0 <= u < g.len() && 0 <= j < g[u].len() && (u < u0 || (u == u0 && j < j0)) && node_comp(cs, u as usize)
            == b && node_comp(cs, g[u][j]) == a && a != b
}

proof fn lemma_node_comp_range(cs: Seq<Seq<usize>>, v: usize)
    ensures
        0 <= node_comp(cs, v),
        cs.len() > 0 ==> node_comp(cs, v) < cs.len(),
    decreases cs.len(),
{
    if cs.len() > 0 {
        lemma_node_comp_range(cs.drop_last(), v);
    }
}

/// Component `b` depends on some member of `s`.
pub open spec fn depends_within(g: Seq<Seq<usize>>, cs: Seq<Seq<usize>>, s: Set<int>, b: int) -> bool {
    exists|a: int| #[trigger] s.contains(a) && comp_edge(g, cs, a, b)
}

/// `s` is a nonempty set of components, each of which depends on another
/// member of `s`: following dependencies inside `s` never ends, so the
/// component graph has a cycle through `s`.
pub open spec fn cyclic_set(g: Seq<Seq<usize>>, cs: Seq<Seq<usize>>, s: Set<int>) -> bool {
    &&& exists|b: int| #[trigger] s.contains(b)
    &&& forall|b: int| #[trigger] s.contains(b) ==> 0 <= b < cs.len() && depends_within(g, cs, s, b)
}

/// The components depend on one another in a cycle.
pub open spec fn has_dependency_cycle(g: Seq<Seq<usize>>, cs: Seq<Seq<usize>>) -> bool {
    exists|s: Set<int>| #[trigger] cyclic_set(g, cs, s)
}

/// A sequence of fewer than `n` numbers misses one of those below `n`.
proof fn lemma_missing(s: Seq<usize>, n: int)
    requires
        s.len() < n <= usize::MAX,
    ensures
        exists|b: int| 0 <= b < n && !#[trigger] s.contains(b as usize),
{
    let t = s.map_values(|x: usize| x as int);
    if forall|b: int| 0 <= b < n ==> #[trigger] s.contains(b as usize) {
        assert forall|b: int| vstd::set_lib::set_int_range(0, n).contains(b) implies t.to_set().contains(b) by {
            assert(s.contains(b as usize));
            let i = choose|i: int| 0 <= i < s.len() && s[i] == b as usize;
            assert(t[i] == s[i] as int);
            assert(t.contains(b));
        }
        vstd::set_lib::lemma_int_range(0, n);
        t.lemma_cardinality_of_set();
        vstd::set_lib::lemma_len_subset(vstd::set_lib::set_int_range(0, n), t.to_set());
        assert(false);
    }
}

/// `n` distinct numbers below `n` are all of them.
proof fn lemma_covers(s: Seq<usize>, n: int)
    requires
        s.no_duplicates(),
        forall|i: int| 0 <= i < s.len() ==> #[trigger] s[i] < n,
        s.len() == n,
        n <= usize::MAX,
    ensures
        forall|b: int| 0 <= b < n ==> #[trigger] s.contains(b as usize),
{
    let t = s.map_values(|x: usize| x as int);
    assert forall|i: int, j: int| 0 <= i < j < t.len() implies t[i] != t[j] by {
        assert(s[i] != s[j]);
    }
    t.unique_seq_to_set();
    vstd::set_lib::lemma_int_range(0, n);
    assert forall|x: int| t.to_set().contains(x) implies vstd::set_lib::set_int_range(0, n).contains(x) by {
        let i = choose|i: int| 0 <= i < t.len() && t[i] == x;
        assert(s[i] < n);
    }
    vstd::set_lib::lemma_len_subset(t.to_set(), vstd::set_lib::set_int_range(0, n));
    vstd::set_lib::lemma_subset_equality(t.to_set(), vstd::set_lib::set_int_range(0, n));
    assert forall|b: int| 0 <= b < n implies #[trigger] s.contains(b as usize) by {
        assert(vstd::set_lib::set_int_range(0, n).contains(b));
        assert(t.to_set().contains(b));
        let i = choose|i: int| 0 <= i < t.len() && t[i] == b;
        assert(s[i] == b as usize);
    }
}

/// In a topological order, no position before `k` holds a member of a set
/// whose members each depend on another member.
proof fn lemma_prefix_outside(order: Seq<usize>, g: Seq<Seq<usize>>, cs: Seq<Seq<usize>>, s: Set<int>, k: int)
    requires
        is_topo_order(order, g, cs),
        cs.len() <= usize::MAX,
        forall|b: int| #[trigger] s.contains(b) ==> 0 <= b < cs.len() && depends_within(g, cs, s, b),
        0 <= k <= order.len(),
    ensures
        forall|i: int| 0 <= i < k ==> !s.contains(#[trigger] order[i] as int),
    decreases k,
{
    if k > 0 {
        lemma_prefix_outside(order, g, cs, s, k - 1);
        let b = order[k - 1] as int;
        if s.contains(b) {
            assert(depends_within(g, cs, s, b));
            let a = choose|a: int| #[trigger] s.contains(a) && comp_edge(g, cs, a, b);
            assert(0 <= a < cs.len());
            lemma_covers(order, cs.len() as int);
            assert(order.contains(a as usize));
            let m = choose|m: int| 0 <= m < order.len() && order[m] == a as usize;
            assert(order[m] as int == a);
            if m < k - 1 {
                assert(!s.contains(order[m] as int));
            } else if m > k - 1 {
                assert(!comp_edge(g, cs, order[m] as int, order[k - 1] as int));
            }
        }
    }
}

/// A component graph with a topological order has no cycle.
proof fn lemma_topo_acyclic(order: Seq<usize>, g: Seq<Seq<usize>>, cs: Seq<Seq<usize>>)
    requires
        is_topo_order(order, g, cs),
        cs.len() <= usize::MAX,
    ensures
        !has_dependency_cycle(g, cs),
{
    if has_dependency_cycle(g, cs) {
        let s = choose|s: Set<int>| #[trigger] cyclic_set(g, cs, s);
        let b = choose|b: int| #[trigger] s.contains(b);
        lemma_prefix_outside(order, g, cs, s, order.len() as int);
        lemma_covers(order, cs.len() as int);
        assert(order.contains(b as usize));
        let m = choose|m: int| 0 <= m < order.len() && order[m] == b as usize;
        assert(!s.contains(order[m] as int));
    }
}

/// For each node below `n`, its component.
fn node_components(n: usize, comps: &[Vec<usize>]) -> (r: Vec<usize>)
    requires
        forall|c: int, j: int| 0 <= c < comps@.len() && 0 <= j < comps@[c]@.len() ==> #[trigger] comps@[c]@[j] < n,
    ensures
        r.len() == n,
        forall|v: int| 0 <= v < n ==> #[trigger] r@[v] == node_comp(rows(comps@), v as usize),
{
    let ghost cs = rows(comps@);
    let mut r: Vec<usize> = Vec::new();
    let mut i: usize = 0;
    while i < n
        invariant
            i <= n,
            r.len() == i,
            forall|v: int| 0 <= v < i ==> r@[v] == 0,
        decreases n - i,
    {
        r.push(0);
        i += 1;
    }
    let mut ci: usize = 0;
    assert(cs.take(0) =~= Seq::<Seq<usize>>::empty());
    while ci < comps.len()
        invariant
            ci <= comps.len(),
            cs == rows(comps@),
            r.len() == n,
            forall|c: int, j: int| 0 <= c < comps@.len() && 0 <= j < comps@[c]@.len() ==> #[trigger] comps@[c]@[j] < n,
            forall|v: int| 0 <= v < n ==> #[trigger] r@[v] == node_comp(cs.take(ci as int), v as usize),
        decreases comps.len() - ci,
    {
        let comp = &comps[ci];
        let mut j: usize = 0;
        while j < comp.len()
            invariant
                j <= comp.len(),
                ci < comps.len(),
                comp@ == comps@[ci as int]@,
                cs == rows(comps@),
                r.len() == n,
                forall|c: int, k: int| 0 <= c < comps@.len() && 0 <= k < comps@[c]@.len() ==> #[trigger] comps@[c]@[k] < n,
                forall|v: int| 0 <= v < n ==> #[trigger] r@[v] == (if comp@.take(j as int).contains(v as usize) {
                    ci as int
                } else {
                    node_comp(cs.take(ci as int), v as usize)
                }),
            decreases comp.len() - j,
        {
            let v = comp[j];
            assert(comps@[ci as int]@[j as int] < n);
            r.set(v, ci);
            proof {
                assert forall|w: int| 0 <= w < n implies #[trigger] r@[w] == (if comp@.take(j + 1).contains(w as usize) {
                    ci as int
                } else {
                    node_comp(cs.take(ci as int), w as usize)
                }) by {
                    if comp@.take(j + 1).contains(w as usize) && w != v {
                        let k = choose|k: int| 0 <= k < j + 1 && #[trigger] comp@.take(j + 1)[k] == w as usize;
                        assert(k < j);
                        assert(comp@.take(j as int)[k] == w as usize);
                    }
                    if comp@.take(j as int).contains(w as usize) {
                        let k = choose|k: int| 0 <= k < j && #[trigger] comp@.take(j as int)[k] == w as usize;
                        assert(comp@.take(j + 1)[k] == w as usize);
                    }
                    if w == v {
                        assert(comp@.take(j + 1)[j as int] == v);
                    }
                }
            }
            j += 1;
        }
        proof {
            assert(comp@.take(comp.len() as int) =~= comp@);
            let t1 = cs.take(ci + 1);
            assert(t1.drop_last() =~= cs.take(ci as int));
            assert(t1.last() == comp@);
        }
        ci += 1;
    }
    assert(cs.take(comps.len() as int) =~= cs);
    r
}


/// The views of a vector of sets.
pub open spec fn set_rows(v: Seq<HashSet<usize>>) -> Seq<Set<usize>> {
    v.map_values(|r: HashSet<usize>| r@)
}

/// The components that `b` depends on.
pub open spec fn dep_set(g: Seq<Seq<usize>>, cs: Seq<Seq<usize>>, comp_n: int, b: int) -> Set<int> {
    Set::new(|a: int| 0 <= a < comp_n && comp_edge(g, cs, a, b))
}

/// The components with an edge into `b`.
pub open spec fn preds(edges: Seq<Set<usize>>, b: int) -> Set<int> {
    Set::new(|a: int| 0 <= a < edges.len() && edges[a].contains(b as usize))
}

proof fn lemma_preds_bound(edges: Seq<Set<usize>>, b: int)
    ensures
        preds(edges, b).finite(),
        preds(edges, b).len() <= edges.len(),
{
    vstd::set_lib::lemma_int_range(0, edges.len() as int);
    vstd::set_lib::lemma_len_subset(preds(edges, b), vstd::set_lib::set_int_range(0, edges.len() as int));
}

/// The component graph: for each component the components that depend on
/// it, and for each component the number of components it depends on.
fn comp_graph(graph: &[Vec<usize>], nc: &Vec<usize>, comp_n: usize, Ghost(cs): Ghost<Seq<Seq<usize>>>) -> (r: (
    Vec<Vec<usize>>,
    Vec<usize>,
))
    requires
        nc.len() == graph.len(),
        cs.len() == comp_n,
        forall|v: int| 0 <= v < graph.len() ==> #[trigger] nc@[v] == node_comp(cs, v as usize),
        forall|u: int, j: int| 0 <= u < graph@.len() && 0 <= j < graph@[u]@.len() ==> #[trigger] graph@[u]@[j] < graph.len(),
    ensures
        r.0.len() == comp_n,
        r.1.len() == comp_n,
        forall|a: int| 0 <= a < comp_n ==> (#[trigger] r.0@[a])@.no_duplicates(),
        forall|a: int, b: usize| 0 <= a < comp_n ==> (#[trigger] r.0@[a]@.contains(b) <==> comp_edge(rows(graph@), cs, a, b as int)),
        forall|b: int| 0 <= b < comp_n ==> #[trigger] r.1@[b] == dep_set(rows(graph@), cs, comp_n as int, b).len(),
{
    let ghost g = rows(graph@);
    let mut edges: Vec<HashSet<usize>> = Vec::new();
    let mut succ: Vec<Vec<usize>> = Vec::new();
    let mut indeg: Vec<usize> = Vec::new();
    let mut k: usize = 0;
    while k < comp_n
        invariant
            k <= comp_n,
            edges.len() == k,
            succ.len() == k,
            indeg.len() == k,
            forall|a: int| 0 <= a < k ==> (#[trigger] edges@[a])@ == Set::<usize>::empty(),
            forall|a: int| 0 <= a < k ==> (#[trigger] succ@[a])@ == Seq::<usize>::empty(),
            forall|a: int| 0 <= a < k ==> #[trigger] indeg@[a] == 0,
        decreases comp_n - k,
    {
        edges.push(HashSet::new());
        succ.push(Vec::new());
        indeg.push(0);
        k += 1;
    }
    proof {
        assert forall|b: int| 0 <= b < comp_n implies #[trigger] indeg@[b] == preds(set_rows(edges@), b).len() by {
            assert(preds(set_rows(edges@), b) =~= Set::<int>::empty());
        }
    }
    let n = graph.len();
    let mut u: usize = 0;
    while u < n
        invariant
            u <= n,
            n == graph.len(),
            g == rows(graph@),
            nc.len() == n,
            cs.len() == comp_n,
            forall|v: int| 0 <= v < n ==> #[trigger] nc@[v] == node_comp(cs, v as usize),
            forall|x: int, y: int| 0 <= x < graph@.len() && 0 <= y < graph@[x]@.len() ==> #[trigger] graph@[x]@[y] < n,
            edges.len() == comp_n,
            indeg.len() == comp_n,
            succ.len() == comp_n,
            forall|a: int| 0 <= a < comp_n ==> (#[trigger] succ@[a])@.no_duplicates(),
            forall|a: int, b: usize| 0 <= a < comp_n ==> (#[trigger] succ@[a]@.contains(b) <==> edges@[a]@.contains(b)),
            forall|a: int, b: usize| 0 <= a < comp_n ==> (#[trigger] edges@[a]@.contains(b) <==> comp_edge_before(
                g,
                cs,
                a,
                b as int,
                u as int,
                0,
            )),
            forall|b: int| 0 <= b < comp_n ==> #[trigger] indeg@[b] == preds(set_rows(edges@), b).len(),
        decreases n - u,
    {
        let cu = nc[u];
        let row = &graph[u];
        let mut j: usize = 0;
        proof {
            assert forall|a: int, b: usize| 0 <= a < comp_n implies (#[trigger] edges@[a]@.contains(b) <==> comp_edge_before(
                g,
                cs,
                a,
                b as int,
                u as int,
                j as int,
            )) by {
                if comp_edge_before(g, cs, a, b as int, u as int, 0) {
                    let (x, y) = choose|x: int, y: int|
                        #![trigger g[x][y], node_comp(cs, x as usize)]
                        0 <= x < g.len() && 0 <= y < g[x].len() && (x < u || (x == u && y < 0)) && node_comp(cs, x as usize)
                            == b as int && node_comp(cs, g[x][y]) == a && a != b as int;
                    assert(0 <= x < g.len() && 0 <= y < g[x].len() && (x < u || (x == u && y < j)) && node_comp(cs, x as usize)
                        == b as int && node_comp(cs, g[x][y]) == a && a != b as int);
                }
            }
        }
        while j < row.len()
            invariant
                j <= row.len(),
                u < n,
                n == graph.len(),
                row@ == graph@[u as int]@,
                g == rows(graph@),
                cu == node_comp(cs, u as usize),
                nc.len() == n,
                cs.len() == comp_n,
                forall|v: int| 0 <= v < n ==> #[trigger] nc@[v] == node_comp(cs, v as usize),
                forall|x: int, y: int| 0 <= x < graph@.len() && 0 <= y < graph@[x]@.len() ==> #[trigger] graph@[x]@[y] < n,
                edges.len() == comp_n,
                indeg.len() == comp_n,
                succ.len() == comp_n,
                forall|a: int| 0 <= a < comp_n ==> (#[trigger] succ@[a])@.no_duplicates(),
                forall|a: int, b: usize| 0 <= a < comp_n ==> (#[trigger] succ@[a]@.contains(b) <==> edges@[a]@.contains(b)),
                forall|a: int, b: usize| 0 <= a < comp_n ==> (#[trigger] edges@[a]@.contains(b) <==> comp_edge_before(
                    g,
                    cs,
                    a,
                    b as int,
                    u as int,
                    j as int,
                )),
                forall|b: int| 0 <= b < comp_n ==> #[trigger] indeg@[b] == preds(set_rows(edges@), b).len(),
            decreases row.len() - j,
        {
            let v = row[j];
            assert(graph@[u as int]@[j as int] < n);
            let cv = nc[v];
            proof {
                assert(g[u as int][j as int] == v);
                lemma_node_comp_range(cs, v);
                lemma_node_comp_range(cs, u as usize);
            }
            if cu != cv {
                let ghost old_edges = set_rows(edges@);
                let mut set: HashSet<usize> = HashSet::new();
                edges.set_and_swap(cv, &mut set);
                let inserted = set.insert(cu);
                edges.set_and_swap(cv, &mut set);
                let ghost new_edges = set_rows(edges@);
                proof {
                    assert(new_edges == old_edges.update(cv as int, old_edges[cv as int].insert(cu)));
                    assert forall|a: int, b: usize| 0 <= a < comp_n implies (#[trigger] edges@[a]@.contains(b)
                        <==> comp_edge_before(g, cs, a, b as int, u as int, j + 1)) by {
                        assert(new_edges[a] == edges@[a]@);
                        if comp_edge_before(g, cs, a, b as int, u as int, j + 1) && !(a == cv && b == cu) {
                            let (x, y) = choose|x: int, y: int|
                                #![trigger g[x][y], node_comp(cs, x as usize)]
                                0 <= x < g.len() && 0 <= y < g[x].len() && (x < u || (x == u && y < j + 1))
                                    && node_comp(cs, x as usize) == b as int && node_comp(cs, g[x][y]) == a && a != b as int;
                            if x == u && y == j {
                                assert(false);
                            }
                            assert(comp_edge_before(g, cs, a, b as int, u as int, j as int));
                        }
                        if comp_edge_before(g, cs, a, b as int, u as int, j as int) {
                            let (x, y) = choose|x: int, y: int|
                                #![trigger g[x][y], node_comp(cs, x as usize)]
                                0 <= x < g.len() && 0 <= y < g[x].len() && (x < u || (x == u && y < j)) && node_comp(
                                    cs,
                                    x as usize,
                                ) == b as int && node_comp(cs, g[x][y]) == a && a != b as int;
                            assert(0 <= x < g.len() && 0 <= y < g[x].len() && (x < u || (x == u && y < j + 1))
                                && node_comp(cs, x as usize) == b as int && node_comp(cs, g[x][y]) == a && a != b as int);
                        }
                        if a == cv && b == cu {
                            assert(0 <= u < g.len() && 0 <= j < g[u as int].len() && node_comp(cs, u as usize) == b as int
                                && node_comp(cs, g[u as int][j as int]) == a && a != b as int);
                        }
                    }
                    assert forall|b: int| 0 <= b < comp_n && b != cu implies preds(new_edges, b) == preds(old_edges, b) by {
                        assert(preds(new_edges, b) =~= preds(old_edges, b));
                    }
                    if inserted {
                        assert(preds(new_edges, cu as int) =~= preds(old_edges, cu as int).insert(cv as int));
                        lemma_preds_bound(old_edges, cu as int);
                        lemma_preds_bound(new_edges, cu as int);
                    } else {
                        assert(preds(new_edges, cu as int) =~= preds(old_edges, cu as int));
                    }
                }
                if inserted {
                    let d = indeg[cu];
                    indeg.set(cu, d + 1);
                    let ghost old_succ = succ@;
                    let mut row2: Vec<usize> = Vec::new();
                    succ.set_and_swap(cv, &mut row2);
                    proof {
                        assert(row2@ == old_succ[cv as int]@);
                        assert(!row2@.contains(cu));
                    }
                    row2.push(cu);
                    succ.set_and_swap(cv, &mut row2);
                    proof {
                        assert forall|a: int, b: usize| 0 <= a < comp_n implies (#[trigger] succ@[a]@.contains(b)
                            <==> edges@[a]@.contains(b)) by {
                            if a == cv {
                                assert(succ@[a]@ == old_succ[a]@.push(cu));
                                if succ@[a]@.contains(b) && b != cu {
                                    let k = choose|k: int| 0 <= k < succ@[a]@.len() && succ@[a]@[k] == b;
                                    assert(old_succ[a]@[k] == b);
                                }
                                if old_succ[a]@.contains(b) {
                                    let k = choose|k: int| 0 <= k < old_succ[a]@.len() && old_succ[a]@[k] == b;
                                    assert(succ@[a]@[k] == b);
                                }
                                if b == cu {
                                    assert(succ@[a]@[old_succ[a]@.len() as int] == cu);
                                }
                            } else {
                                assert(succ@[a] == old_succ[a]);
                            }
                        }
                        assert forall|a: int| 0 <= a < comp_n implies (#[trigger] succ@[a])@.no_duplicates() by {
                            if a == cv {
                                assert(succ@[a]@ == old_succ[a]@.push(cu));
                                assert forall|x: int, y: int| 0 <= x < y < succ@[a]@.len() implies succ@[a]@[x]
                                    != succ@[a]@[y] by {
                                    if y == old_succ[a]@.len() {
                                        assert(old_succ[a]@.contains(succ@[a]@[x]));
                                    }
                                }
                            } else {
                                assert(succ@[a] == old_succ[a]);
                            }
                        }
                    }
                }
            } else {
                proof {
                    assert forall|a: int, b: usize| 0 <= a < comp_n implies (#[trigger] edges@[a]@.contains(b)
                        <==> comp_edge_before(g, cs, a, b as int, u as int, j + 1)) by {
                        if comp_edge_before(g, cs, a, b as int, u as int, j + 1) {
                            let (x, y) = choose|x: int, y: int|
                                #![trigger g[x][y], node_comp(cs, x as usize)]
                                0 <= x < g.len() && 0 <= y < g[x].len() && (x < u || (x == u && y < j + 1))
                                    && node_comp(cs, x as usize) == b as int && node_comp(cs, g[x][y]) == a && a != b as int;
                            if x == u && y == j {
                                assert(false);
                            }
                            assert(comp_edge_before(g, cs, a, b as int, u as int, j as int));
                        }
                        if comp_edge_before(g, cs, a, b as int, u as int, j as int) {
                            let (x, y) = choose|x: int, y: int|
                                #![trigger g[x][y], node_comp(cs, x as usize)]
                                0 <= x < g.len() && 0 <= y < g[x].len() && (x < u || (x == u && y < j)) && node_comp(
                                    cs,
                                    x as usize,
                                ) == b as int && node_comp(cs, g[x][y]) == a && a != b as int;
                            assert(0 <= x < g.len() && 0 <= y < g[x].len() && (x < u || (x == u && y < j + 1))
                                && node_comp(cs, x as usize) == b as int && node_comp(cs, g[x][y]) == a && a != b as int);
                        }
                    }
                }
            }
            j += 1;
        }
        proof {
            assert forall|a: int, b: usize| 0 <= a < comp_n implies (#[trigger] edges@[a]@.contains(b) <==> comp_edge_before(
                g,
                cs,
                a,
                b as int,
                u + 1,
                0,
            )) by {
                if comp_edge_before(g, cs, a, b as int, u + 1, 0) {
                    let (x, y) = choose|x: int, y: int|
                        #![trigger g[x][y], node_comp(cs, x as usize)]
                        0 <= x < g.len() && 0 <= y < g[x].len() && (x < u + 1 || (x == u + 1 && y < 0)) && node_comp(
                            cs,
                            x as usize,
                        ) == b as int && node_comp(cs, g[x][y]) == a && a != b as int;
                    assert(comp_edge_before(g, cs, a, b as int, u as int, j as int));
                }
                if comp_edge_before(g, cs, a, b as int, u as int, j as int) {
                    let (x, y) = choose|x: int, y: int|
                        #![trigger g[x][y], node_comp(cs, x as usize)]
                        0 <= x < g.len() && 0 <= y < g[x].len() && (x < u || (x == u && y < j)) && node_comp(cs, x as usize)
                            == b as int && node_comp(cs, g[x][y]) == a && a != b as int;
                    assert(0 <= x < g.len() && 0 <= y < g[x].len() && (x < u + 1 || (x == u + 1 && y < 0)) && node_comp(
                        cs,
                        x as usize,
                    ) == b as int && node_comp(cs, g[x][y]) == a && a != b as int);
                }
            }
        }
        u += 1;
    }
    proof {
        assert forall|a: int, b: usize| 0 <= a < comp_n implies (#[trigger] succ@[a]@.contains(b) <==> comp_edge(
            g,
            cs,
            a,
            b as int,
        )) by {
            assert(succ@[a]@.contains(b) <==> edges@[a]@.contains(b));
            if comp_edge(g, cs, a, b as int) {
                let (x, y) = choose|x: int, y: int|
                    #![trigger g[x][y], node_comp(cs, x as usize)]
                    0 <= x < g.len() && 0 <= y < g[x].len() && node_comp(cs, x as usize) == b as int && node_comp(cs, g[x][y])
                        == a && a != b as int;
                assert(0 <= x < g.len() && 0 <= y < g[x].len() && (x < n || (x == n && y < 0)) && node_comp(cs, x as usize)
                    == b as int && node_comp(cs, g[x][y]) == a && a != b as int);
            }
        }
    }
    proof {
        assert forall|b: int| 0 <= b < comp_n implies #[trigger] indeg@[b] == dep_set(g, cs, comp_n as int, b).len() by {
            assert forall|a: int| #[trigger] preds(set_rows(edges@), b).contains(a) <==> dep_set(g, cs, comp_n as int, b).contains(a) by {
                if 0 <= a < comp_n {
                    assert(set_rows(edges@)[a] == edges@[a]@);
                    assert(edges@[a]@.contains(b as usize) <==> comp_edge(g, cs, a, b as usize as int));
                }
            }
            assert(preds(set_rows(edges@), b) =~= dep_set(g, cs, comp_n as int, b));
        }
    }
    (succ, indeg)
}


/// `order` lists each component once, and no component comes before one it
/// depends on.
pub open spec fn is_topo_order(order: Seq<usize>, g: Seq<Seq<usize>>, cs: Seq<Seq<usize>>) -> bool {
    &&& order.len() == cs.len()
    &&& order.no_duplicates()
    &&& forall|i: int| 0 <= i < order.len() ==> #[trigger] order[i] < cs.len()
    &&& forall|i: int, j: int| 0 <= i < j < order.len() ==> !comp_edge(g, cs, order[j] as int, order[i] as int)
}

/// The components that `b` depends on and that are not yet in `done`.
pub open spec fn pending_deps(g: Seq<Seq<usize>>, cs: Seq<Seq<usize>>, comp_n: int, b: int, done: Seq<usize>) -> Set<int> {
    Set::new(|a: int| 0 <= a < comp_n && comp_edge(g, cs, a, b) && !done.contains(a as usize))
}

proof fn lemma_pending_finite(g: Seq<Seq<usize>>, cs: Seq<Seq<usize>>, comp_n: int, b: int, done: Seq<usize>)
    requires
        comp_n >= 0,
    ensures
        pending_deps(g, cs, comp_n, b, done).finite(),
{
    vstd::set_lib::lemma_int_range(0, comp_n);
    vstd::set_lib::lemma_len_subset(pending_deps(g, cs, comp_n, b, done), vstd::set_lib::set_int_range(0, comp_n));
}

/// A sequence of distinct numbers below `n` has at most `n` elements.
proof fn lemma_distinct_bound(s: Seq<usize>, n: int)
    requires
        s.no_duplicates(),
        forall|i: int| 0 <= i < s.len() ==> #[trigger] s[i] < n,
        n >= 0,
    ensures
        s.len() <= n,
{
    let t = s.map_values(|x: usize| x as int);
    assert forall|i: int, j: int| 0 <= i < j < t.len() implies t[i] != t[j] by {
        assert(s[i] != s[j]);
    }
    t.unique_seq_to_set();
    vstd::set_lib::lemma_int_range(0, n);
    assert forall|x: int| t.to_set().contains(x) implies vstd::set_lib::set_int_range(0, n).contains(x) by {
        let i = choose|i: int| 0 <= i < t.len() && t[i] == x;
        assert(s[i] < n);
    }
    vstd::set_lib::lemma_len_subset(t.to_set(), vstd::set_lib::set_int_range(0, n));
}

proof fn lemma_comp_edge_range(g: Seq<Seq<usize>>, cs: Seq<Seq<usize>>, a: int, b: int)
    requires
        comp_edge(g, cs, a, b),
    ensures
        0 <= a < cs.len(),
        0 <= b < cs.len(),
        a != b,
{
    let (u, j) = choose|u: int, j: int|
        #![trigger g[u][j], node_comp(cs, u as usize)]
        0 <= u < g.len() && 0 <= j < g[u].len() && node_comp(cs, u as usize) == b && node_comp(cs, g[u][j]) == a
            && a != b;
    lemma_node_comp_range(cs, u as usize);
    lemma_node_comp_range(cs, g[u][j]);
}

/// Orders the components so that each comes after the components it depends
/// on; fails when the components depend on one another in a cycle.
pub fn topo_order_sccs(graph: &[Vec<usize>], comps: &[Vec<usize>]) -> (r: Result<Vec<usize>, String>)
    requires
        forall|u: int, j: int| 0 <= u < graph@.len() && 0 <= j < graph@[u]@.len() ==> #[trigger] graph@[u]@[j] < graph.len(),
        forall|c: int, j: int| 0 <= c < comps@.len() && 0 <= j < comps@[c]@.len() ==> #[trigger] comps@[c]@[j] < graph.len(),
    ensures
        r is Ok <==> !has_dependency_cycle(rows(graph@), rows(comps@)),
        r matches Ok(order) ==> is_topo_order(order@, rows(graph@), rows(comps@)),
        r matches Err(m) ==> m@ == "internal error: cyclic component graph"@,
{
    let ghost g = rows(graph@);
    let ghost cs = rows(comps@);
    let n = graph.len();
    let comp_n = comps.len();
    let nc = node_components(n, comps);
    let (succ, mut indeg) = comp_graph(graph, &nc, comp_n, Ghost(cs));
    let mut queue: VecDeque<usize> = VecDeque::new();
    let mut order: Vec<usize> = Vec::new();
    let mut i: usize = 0;
    while i < comp_n
        invariant
            i <= comp_n,
            comp_n == cs.len(),
            indeg.len() == comp_n,
            order@ == Seq::<usize>::empty(),
            forall|b: int| 0 <= b < comp_n ==> #[trigger] indeg@[b] == dep_set(g, cs, comp_n as int, b).len(),
            queue@.no_duplicates(),
            forall|k: int| 0 <= k < queue@.len() ==> #[trigger] queue@[k] < i,
            forall|k: int| 0 <= k < queue@.len() ==> indeg@[#[trigger] queue@[k] as int] == 0,
            forall|x: int| 0 <= x < i && !queue@.contains(x as usize) ==> #[trigger] indeg@[x] > 0,
        decreases comp_n - i,
    {
        let ghost q0 = queue@;
        if indeg[i] == 0 {
            queue.push_back(i);
            proof {
                assert(queue@ == q0.push(i));
                assert forall|x: int| 0 <= x < i + 1 && !queue@.contains(x as usize) implies #[trigger] indeg@[x] > 0 by {
                    if x < i && q0.contains(x as usize) {
                        let k = choose|k: int| 0 <= k < q0.len() && q0[k] == x as usize;
                        assert(queue@[k] == x as usize);
                    }
                    if x == i {
                        assert(queue@[q0.len() as int] == i);
                    }
                }
                assert forall|a: int, b: int| 0 <= a < b < queue@.len() implies queue@[a] != queue@[b] by {
                    if b == q0.len() {
                        assert(q0[a] < i);
                    }
                }
            }
        } else {
            proof {
                assert forall|x: int| 0 <= x < i + 1 && !queue@.contains(x as usize) implies #[trigger] indeg@[x] > 0 by {
                }
            }
        }
        i += 1;
    }
    proof {
        assert forall|b: int| 0 <= b < comp_n implies #[trigger] pending_deps(g, cs, comp_n as int, b, order@)
            == dep_set(g, cs, comp_n as int, b) by {
            assert(pending_deps(g, cs, comp_n as int, b, order@) =~= dep_set(g, cs, comp_n as int, b));
        }
        assert(order@ + queue@ =~= queue@);
    }
    loop
        invariant
            comp_n == cs.len(),
            succ.len() == comp_n,
            indeg.len() == comp_n,
            forall|a: int| 0 <= a < comp_n ==> (#[trigger] succ@[a])@.no_duplicates(),
            forall|a: int, b: usize| 0 <= a < comp_n ==> (#[trigger] succ@[a]@.contains(b) <==> comp_edge(g, cs, a, b as int)),
            (order@ + queue@).no_duplicates(),
            forall|k: int| 0 <= k < order@.len() ==> #[trigger] order@[k] < comp_n,
            forall|k: int| 0 <= k < queue@.len() ==> #[trigger] queue@[k] < comp_n,
            forall|b: int| 0 <= b < comp_n && !order@.contains(b as usize) ==> #[trigger] indeg@[b]
                == pending_deps(g, cs, comp_n as int, b, order@).len(),
            forall|k: int| 0 <= k < queue@.len() ==> indeg@[#[trigger] queue@[k] as int] == 0,
            forall|x: int| 0 <= x < comp_n && !order@.contains(x as usize) && !queue@.contains(x as usize) ==> #[trigger] indeg@[x] > 0,
            forall|k: int, a: int| 0 <= k < order@.len() && 0 <= a < comp_n && #[trigger] comp_edge(g, cs, a, order@[k] as int)
                ==> order@.contains(a as usize),
            forall|k: int, l: int| 0 <= k < l < order@.len() ==> !comp_edge(g, cs, #[trigger] order@[l] as int, #[trigger] order@[k] as int),
        ensures
            comp_n == cs.len(),
            indeg.len() == comp_n,
            forall|b: int| 0 <= b < comp_n && !order@.contains(b as usize) ==> #[trigger] indeg@[b]
                == pending_deps(g, cs, comp_n as int, b, order@).len(),
            forall|x: int| 0 <= x < comp_n && !order@.contains(x as usize) ==> #[trigger] indeg@[x] > 0,
            order@.no_duplicates(),
            forall|k: int| 0 <= k < order@.len() ==> #[trigger] order@[k] < comp_n,
            forall|k: int, l: int| 0 <= k < l < order@.len() ==> !comp_edge(g, cs, #[trigger] order@[l] as int, #[trigger] order@[k] as int),
        decreases 2 * comp_n - 2 * order@.len() - queue@.len(),
    {
        proof {
            assert forall|k: int| 0 <= k < (order@ + queue@).len() implies #[trigger] (order@ + queue@)[k] < comp_n by {
                if k < order@.len() {
                    assert((order@ + queue@)[k] == order@[k]);
                } else {
                    assert((order@ + queue@)[k] == queue@[k - order@.len()]);
                }
            }
            lemma_distinct_bound(order@ + queue@, comp_n as int);
        }
        let ghost q0 = queue@;
        let next = queue.pop_front();
        match next {
            None => {
                proof {
                    assert(order@ + queue@ =~= order@);
                }
                break;
            },
            Some(c) => {
                let ghost q1 = queue@;
                let ghost old_order = order@;
                proof {
                    assert(q0 =~= seq![c] + q1);
                    assert(old_order + q0 =~= old_order.push(c) + q1);
                    assert(!old_order.contains(c)) by {
                        if old_order.contains(c) {
                            let k = choose|k: int| 0 <= k < old_order.len() && old_order[k] == c;
                            assert((old_order + q0)[k] == (old_order + q0)[old_order.len() as int]);
                        }
                    }
                    assert(indeg@[c as int] == 0) by {
                        assert(q0[0] == c);
                    }
                    lemma_pending_finite(g, cs, comp_n as int, c as int, old_order);
                    assert forall|a: int| 0 <= a < comp_n && comp_edge(g, cs, a, c as int) implies old_order.contains(a as usize) by {
                        if !old_order.contains(a as usize) {
                            assert(pending_deps(g, cs, comp_n as int, c as int, old_order).contains(a));
                        }
                    }
                }
                order.push(c);
                let row = &succ[c];
                proof {
                    assert(row@.skip(0) =~= row@);
                    assert forall|b: int| 0 <= b < comp_n && !order@.contains(b as usize) implies #[trigger] indeg@[b]
                        == pending_deps(g, cs, comp_n as int, b, order@).len() + (if row@.skip(0).contains(b as usize) {
                        1int
                    } else {
                        0int
                    }) by {
                        assert(!old_order.contains(b as usize)) by {
                            if old_order.contains(b as usize) {
                                let k = choose|k: int| 0 <= k < old_order.len() && old_order[k] == b as usize;
                                assert(order@[k] == b as usize);
                            }
                        }
                        lemma_pending_finite(g, cs, comp_n as int, b, old_order);
                        lemma_pending_finite(g, cs, comp_n as int, b, order@);
                        assert forall|x: usize| order@.contains(x) <==> (old_order.contains(x) || x == c) by {
                            if order@.contains(x) {
                                let k = choose|k: int| 0 <= k < order@.len() && order@[k] == x;
                                if k < old_order.len() {
                                    assert(old_order[k] == x);
                                }
                            }
                            if old_order.contains(x) {
                                let k = choose|k: int| 0 <= k < old_order.len() && old_order[k] == x;
                                assert(order@[k] == x);
                            }
                            if x == c {
                                assert(order@[old_order.len() as int] == c);
                            }
                        }
                        if comp_edge(g, cs, c as int, b) {
                            assert(row@.contains(b as usize));
                            assert(pending_deps(g, cs, comp_n as int, b, old_order) =~= pending_deps(g, cs, comp_n as int, b, order@).insert(c as int));
                            assert(!pending_deps(g, cs, comp_n as int, b, order@).contains(c as int));
                        } else {
                            assert(!row@.contains(b as usize));
                            assert(pending_deps(g, cs, comp_n as int, b, old_order) =~= pending_deps(g, cs, comp_n as int, b, order@));
                        }
                    }
                }
                proof {
                    assert forall|x: int| 0 <= x < comp_n && !order@.contains(x as usize) && !queue@.contains(x as usize) implies #[trigger] indeg@[x] > 0 by {
                        if x as usize == c {
                            assert(order@[old_order.len() as int] == c);
                        }
                        if old_order.contains(x as usize) {
                            let k = choose|k: int| 0 <= k < old_order.len() && old_order[k] == x as usize;
                            assert(order@[k] == x as usize);
                        }
                        if q0.contains(x as usize) {
                            let k = choose|k: int| 0 <= k < q0.len() && q0[k] == x as usize;
                            if k > 0 {
                                assert(q1[k - 1] == x as usize);
                            }
                        }
                    }
                }
                let mut j: usize = 0;
                while j < row.len()
                    invariant
                        j <= row.len(),
                        queue@.len() >= q1.len(),
                        c < comp_n,
                        comp_n == cs.len(),
                        row@ == succ@[c as int]@,
                        row@.no_duplicates(),
                        forall|b: usize| #[trigger] row@.contains(b) <==> comp_edge(g, cs, c as int, b as int),
                        succ.len() == comp_n,
                        indeg.len() == comp_n,
                        order@ == old_order.push(c),
                        !old_order.contains(c),
                        forall|k: int, a: int| 0 <= k < old_order.len() && 0 <= a < comp_n && #[trigger] comp_edge(g, cs, a, old_order[k] as int)
                            ==> old_order.contains(a as usize),
                        (order@ + queue@).no_duplicates(),
                        forall|k: int| 0 <= k < order@.len() ==> #[trigger] order@[k] < comp_n,
                        forall|k: int| 0 <= k < queue@.len() ==> #[trigger] queue@[k] < comp_n,
                        forall|b: int| 0 <= b < comp_n && !order@.contains(b as usize) ==> #[trigger] indeg@[b]
                            == pending_deps(g, cs, comp_n as int, b, order@).len() + (if row@.skip(j as int).contains(
                            b as usize,
                        ) {
                            1int
                        } else {
                            0int
                        }),
                        forall|k: int| 0 <= k < queue@.len() ==> indeg@[#[trigger] queue@[k] as int] == 0,
                        forall|x: int| 0 <= x < comp_n && !order@.contains(x as usize) && !queue@.contains(x as usize) ==> #[trigger] indeg@[x] > 0,
                        forall|x: int| 0 <= x < comp_n && #[trigger] row@.skip(j as int).contains(x as usize) ==> !queue@.contains(x as usize),
                    decreases row.len() - j,
                {
                    let to = row[j];
                    let ghost qa = queue@;
                    let ghost ia = indeg@;
                    proof {
                        assert(row@.contains(to));
                        lemma_comp_edge_range(g, cs, c as int, to as int);
                        assert(row@.skip(j as int)[0] == to);
                        assert(row@.skip(j as int).contains(to));
                        assert(!order@.contains(to)) by {
                            if order@.contains(to) {
                                let k = choose|k: int| 0 <= k < order@.len() && order@[k] == to;
                                if k < old_order.len() {
                                    assert(old_order[k] == to);
                                    assert(old_order.contains(c));
                                }
                            }
                        }
                        assert(!queue@.contains(to));
                        assert(row@.skip(j + 1) =~= row@.skip(j as int).drop_first());
                        assert(!row@.skip(j + 1).contains(to)) by {
                            if row@.skip(j + 1).contains(to) {
                                let k = choose|k: int| 0 <= k < row@.skip(j + 1).len() && #[trigger] row@.skip(j + 1)[k] == to;
                                assert(row@[j + 1 + k] == row@[j as int]);
                            }
                        }
                        assert forall|x: usize| #[trigger] row@.skip(j + 1).contains(x) && x != to implies row@.skip(j as int).contains(x) by {
                            let k = choose|k: int| 0 <= k < row@.skip(j + 1).len() && #[trigger] row@.skip(j + 1)[k] == x;
                            assert(row@.skip(j as int)[k + 1] == x);
                        }
                        assert forall|x: usize| #[trigger] row@.skip(j as int).contains(x) && x != to implies row@.skip(j + 1).contains(x) by {
                            let k = choose|k: int| 0 <= k < row@.skip(j as int).len() && #[trigger] row@.skip(j as int)[k] == x;
                            assert(k > 0);
                            assert(row@.skip(j + 1)[k - 1] == x);
                        }
                    }
                    let d = indeg[to];
                    indeg.set(to, d - 1);
                    if d - 1 == 0 {
                        queue.push_back(to);
                    }
                    proof {
                        assert forall|b: int| 0 <= b < comp_n && !order@.contains(b as usize) implies #[trigger] indeg@[b]
                            == pending_deps(g, cs, comp_n as int, b, order@).len() + (if row@.skip(j + 1).contains(
                            b as usize,
                        ) {
                            1int
                        } else {
                            0int
                        }) by {
                            if b != to as int {
                                assert(indeg@[b] == ia[b]);
                                if row@.skip(j as int).contains(b as usize) {
                                    assert(row@.skip(j + 1).contains(b as usize));
                                }
                                if row@.skip(j + 1).contains(b as usize) {
                                    assert(row@.skip(j as int).contains(b as usize));
                                }
                            }
                        }
                        if d - 1 == 0 {
                            assert(queue@ == qa.push(to));
                            assert forall|a: int, b: int| 0 <= a < b < (order@ + queue@).len() implies (order@ + queue@)[a]
                                != (order@ + queue@)[b] by {
                                if b == (order@ + queue@).len() - 1 {
                                    let s2 = order@ + queue@;
                                    assert(s2[b] == to);
                                    if a < order@.len() {
                                        assert(s2[a] == order@[a]);
                                        if order@[a] == to {
                                            assert(order@.contains(to));
                                        }
                                    } else {
                                        assert(s2[a] == qa[a - order@.len()]);
                                        if qa[a - order@.len()] == to {
                                            assert(qa.contains(to));
                                        }
                                    }
                                } else {
                                    assert((order@ + queue@)[a] == (order@ + qa)[a]);
                                    assert((order@ + queue@)[b] == (order@ + qa)[b]);
                                }
                            }
                            assert forall|k: int| 0 <= k < queue@.len() implies indeg@[#[trigger] queue@[k] as int] == 0 by {
                                if k < qa.len() {
                                    assert(queue@[k] == qa[k]);
                                    assert(qa[k] != to) by {
                                        assert(qa.contains(qa[k]));
                                    }
                                }
                            }
                            assert forall|x: int| 0 <= x < comp_n && !order@.contains(x as usize) && !queue@.contains(x as usize) implies #[trigger] indeg@[x] > 0 by {
                                if x != to as int {
                                    assert(indeg@[x] == ia[x]);
                                    if qa.contains(x as usize) {
                                        let k = choose|k: int| 0 <= k < qa.len() && qa[k] == x as usize;
                                        assert(queue@[k] == x as usize);
                                    }
                                } else {
                                    assert(queue@[qa.len() as int] == to);
                                }
                            }
                            assert forall|x: int| 0 <= x < comp_n && #[trigger] row@.skip(j + 1).contains(x as usize) implies !queue@.contains(x as usize) by {
                                assert(row@.skip(j as int).contains(x as usize));
                                if queue@.contains(x as usize) {
                                    let k = choose|k: int| 0 <= k < queue@.len() && queue@[k] == x as usize;
                                    if k < qa.len() {
                                        assert(qa[k] == x as usize);
                                    }
                                }
                            }
                        } else {
                            assert forall|k: int| 0 <= k < queue@.len() implies indeg@[#[trigger] queue@[k] as int] == 0 by {
                                assert(queue@[k] != to) by {
                                    assert(queue@.contains(queue@[k]));
                                }
                            }
                            assert forall|x: int| 0 <= x < comp_n && !order@.contains(x as usize) && !queue@.contains(x as usize) implies #[trigger] indeg@[x] > 0 by {
                                if x != to as int {
                                    assert(indeg@[x] == ia[x]);
                                } else {
                                    lemma_pending_finite(g, cs, comp_n as int, x, order@);
                                    assert(!row@.skip(j + 1).contains(to));
                                }
                            }
                            assert forall|x: int| 0 <= x < comp_n && #[trigger] row@.skip(j + 1).contains(x as usize) implies !queue@.contains(x as usize) by {
                                if x != to as int {
                                    assert(row@.skip(j as int).contains(x as usize));
                                }
                            }
                        }
                    }
                    j += 1;
                }
                proof {
                    assert forall|k: int| 0 <= k < (order@ + queue@).len() implies #[trigger] (order@ + queue@)[k] < comp_n by {
                        if k < order@.len() {
                            assert((order@ + queue@)[k] == order@[k]);
                        } else {
                            assert((order@ + queue@)[k] == queue@[k - order@.len()]);
                        }
                    }
                    lemma_distinct_bound(order@ + queue@, comp_n as int);
                    assert(row@.skip(j as int) =~= Seq::<usize>::empty());
                    assert forall|k: int, a: int| 0 <= k < order@.len() && 0 <= a < comp_n && #[trigger] comp_edge(g, cs, a, order@[k] as int)
                        implies order@.contains(a as usize) by {
                        if k < old_order.len() {
                            assert(order@[k] == old_order[k]);
                            assert(old_order.contains(a as usize));
                            let m = choose|m: int| 0 <= m < old_order.len() && old_order[m] == a as usize;
                            assert(order@[m] == a as usize);
                        } else {
                            assert(order@[k] == c);
                            assert(old_order.contains(a as usize));
                            let m = choose|m: int| 0 <= m < old_order.len() && old_order[m] == a as usize;
                            assert(order@[m] == a as usize);
                        }
                    }
                    assert forall|k: int, l: int| 0 <= k < l < order@.len() implies !comp_edge(g, cs, #[trigger] order@[l] as int, #[trigger] order@[k] as int) by {
                        if l == old_order.len() {
                            if comp_edge(g, cs, c as int, order@[k] as int) {
                                assert(order@[k] == old_order[k]);
                                lemma_comp_edge_range(g, cs, c as int, order@[k] as int);
                                assert(old_order.contains(c));
                            }
                        } else {
                            assert(order@[k] == old_order[k]);
                            assert(order@[l] == old_order[l]);
                        }
                    }
                }
            },
        }
    }
    if order.len() != comp_n {
        proof {
            lemma_distinct_bound(order@, comp_n as int);
            lemma_missing(order@, comp_n as int);
            let s = Set::new(|b: int| 0 <= b < comp_n && !order@.contains(b as usize));
            assert forall|b: int| #[trigger] s.contains(b) implies 0 <= b < cs.len() && depends_within(g, cs, s, b) by {
                let p = pending_deps(g, cs, comp_n as int, b, order@);
                lemma_pending_finite(g, cs, comp_n as int, b, order@);
                assert(indeg@[b] > 0);
                assert(p.len() > 0);
                let a = p.choose();
                assert(p.contains(a));
                assert(s.contains(a));
            }
            let b0 = choose|b: int| 0 <= b < comp_n && !#[trigger] order@.contains(b as usize);
            assert(s.contains(b0));
            assert(cyclic_set(g, cs, s));
        }
        return Err(String::from_str("internal error: cyclic component graph"));
    }
    proof {
        lemma_topo_acyclic(order@, g, cs);
    }
    Ok(order)
}

} // verus!
