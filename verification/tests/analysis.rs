use kscr_types::{
    backend_float_bits, backend_int_bits, merge_build_rename_map, desugar_qualified_ref, extract_return_monad_type, ftv_env_applied_from_ftv,
    tarjan_scc, topo_order_sccs, ty_has_unqualified_type_alias, QualEnv, Subst, Ty,
};
use kscr_types::{apply, ftv_ty};
use std::collections::HashSet;

fn con(name: &str) -> Ty {
    Ty::Con(name.to_string())
}

fn app(head: Ty, args: Vec<Ty>) -> Ty {
    Ty::App { head: Box::new(head), args }
}

fn func(a: Ty, b: Ty) -> Ty {
    Ty::Func(Box::new(a), Box::new(b))
}

#[test]
fn topo_order_puts_dependencies_first() {
    let graph = vec![vec![1], vec![], vec![1]];
    let comps = vec![vec![0], vec![1], vec![2]];
    let order = topo_order_sccs(&graph, &comps).unwrap();
    assert_eq!(order.len(), 3);
    assert_eq!(order[0], 1);
    let rest: HashSet<usize> = order[1..].iter().copied().collect();
    assert_eq!(rest, [0usize, 2].into_iter().collect());
}

#[test]
fn topo_order_chain() {
    let graph = vec![vec![], vec![0], vec![1]];
    let comps = vec![vec![2], vec![1], vec![0]];
    assert_eq!(topo_order_sccs(&graph, &comps).unwrap(), vec![2, 1, 0]);
}

#[test]
fn topo_order_ignores_edges_inside_a_component() {
    let graph = vec![vec![1], vec![0]];
    let comps = vec![vec![0, 1]];
    assert_eq!(topo_order_sccs(&graph, &comps).unwrap(), vec![0]);
}

#[test]
fn topo_order_of_nothing() {
    let graph: Vec<Vec<usize>> = vec![];
    let comps: Vec<Vec<usize>> = vec![];
    assert_eq!(topo_order_sccs(&graph, &comps).unwrap(), Vec::<usize>::new());
}

#[test]
fn topo_order_rejects_cyclic_components() {
    let graph = vec![vec![1], vec![0]];
    let comps = vec![vec![0], vec![1]];
    assert_eq!(
        topo_order_sccs(&graph, &comps).unwrap_err(),
        "internal error: cyclic component graph"
    );
}

#[test]
fn backend_bit_widths() {
    assert_eq!(backend_int_bits("i64"), Some(64));
    assert_eq!(backend_int_bits("Std.i32"), Some(32));
    assert_eq!(backend_int_bits("i+8"), Some(8));
    assert_eq!(backend_int_bits("i65535"), Some(65535));
    assert_eq!(backend_int_bits("i65536"), None);
    assert_eq!(backend_int_bits("i"), None);
    assert_eq!(backend_int_bits("i6x"), None);
    assert_eq!(backend_int_bits("f64"), None);
    assert_eq!(backend_float_bits("f32"), Some(32));
    assert_eq!(backend_float_bits("M.f64"), Some(64));
    assert_eq!(backend_float_bits("i64"), None);
}

#[test]
fn return_monad_of_io_action() {
    let io_unit = app(con("IO"), vec![con("Unit")]);
    let f = func(con("Integer"), func(con("Bool"), io_unit.clone()));
    let pattern = app(Ty::Var(7), vec![con("Unit")]);
    assert_eq!(extract_return_monad_type(&f, &pattern), Some(io_unit));
}

#[test]
fn return_monad_needs_variable_head_and_one_argument() {
    let io_unit = app(con("IO"), vec![con("Unit")]);
    let f = func(con("Integer"), io_unit);
    assert_eq!(extract_return_monad_type(&f, &app(con("IO"), vec![con("Unit")])), None);
    assert_eq!(extract_return_monad_type(&f, &app(Ty::Var(1), vec![con("A"), con("B")])), None);
    assert_eq!(extract_return_monad_type(&f, &Ty::Var(1)), None);
    let pair = func(con("X"), app(con("Pair"), vec![con("A"), con("B")]));
    assert_eq!(extract_return_monad_type(&pair, &app(Ty::Var(1), vec![con("A"), con("B")])), None);
}

#[test]
fn env_free_vars_after_substitution() {
    let mut s = Subst::new();
    s.insert(1, Ty::List(Box::new(Ty::Var(2))));
    s.insert(2, Ty::Var(4));
    let env: HashSet<u32> = [1u32, 3].into_iter().collect();
    let out = ftv_env_applied_from_ftv(&s, &env);
    assert_eq!(out, [4u32, 3].into_iter().collect());
}

#[test]
fn env_free_vars_ground_binding() {
    let mut s = Subst::new();
    s.insert(5, con("Integer"));
    let env: HashSet<u32> = [5u32].into_iter().collect();
    assert!(ftv_env_applied_from_ftv(&s, &env).is_empty());
}

fn env_with(qs: &[&str]) -> QualEnv {
    let mut env = QualEnv::new();
    for q in qs {
        env.allow(q.to_string());
    }
    env
}

#[test]
fn qualified_ref_with_allowed_qualifier() {
    let env = env_with(&["M", "Prelude"]);
    assert_eq!(desugar_qualified_ref("M.x", &env).unwrap(), "M.x");
    assert_eq!(desugar_qualified_ref("x", &env).unwrap(), "x");
    assert_eq!(desugar_qualified_ref(".", &env).unwrap(), ".");
    assert_eq!(desugar_qualified_ref("N.", &env).unwrap(), "N.");
    assert_eq!(desugar_qualified_ref(".x", &env).unwrap(), ".x");
}

#[test]
fn qualified_ref_splits_at_last_dot() {
    let env = env_with(&["A.B"]);
    assert_eq!(desugar_qualified_ref("A.B.c", &env).unwrap(), "A.B.c");
    assert_eq!(
        desugar_qualified_ref("A.c", &env).unwrap_err(),
        "unknown qualifier A in A.c (allowed: A.B)"
    );
}

#[test]
fn qualified_ref_unknown_qualifier_lists_allowed_in_order() {
    let env = env_with(&["Prelude", "M", "Data.List", "M"]);
    assert_eq!(
        desugar_qualified_ref("N.x", &env).unwrap_err(),
        "unknown qualifier N in N.x (allowed: Data.List, M, Prelude)"
    );
    let empty = QualEnv::new();
    assert_eq!(desugar_qualified_ref("N.x", &empty).unwrap_err(), "unknown qualifier N in N.x (allowed: )");
}

#[test]
fn types_name_no_alias() {
    assert_eq!(ty_has_unqualified_type_alias(&con("Foo")), None);
}

#[test]
fn tarjan_finds_cycle_and_orders_dependencies_first() {
    let graph = vec![vec![1], vec![2], vec![0], vec![2]];
    assert_eq!(tarjan_scc(&graph), vec![vec![2, 1, 0], vec![3]]);
}

#[test]
fn tarjan_on_a_chain() {
    let graph = vec![vec![1], vec![]];
    assert_eq!(tarjan_scc(&graph), vec![vec![1], vec![0]]);
}

#[test]
fn tarjan_self_loop_and_empty() {
    assert_eq!(tarjan_scc(&[vec![0]]), vec![vec![0]]);
    let empty: Vec<Vec<usize>> = vec![];
    assert_eq!(tarjan_scc(&empty), Vec::<Vec<usize>>::new());
}

#[test]
fn tarjan_components_feed_topological_order() {
    let graph = vec![vec![1], vec![0], vec![0], vec![]];
    let comps = tarjan_scc(&graph);
    assert_eq!(comps.len(), 3);
    let order = topo_order_sccs(&graph, &comps).unwrap();
    assert_eq!(order.len(), 3);
    let pos = |node: usize| {
        let c = comps.iter().position(|comp| comp.contains(&node)).unwrap();
        order.iter().position(|&x| x == c).unwrap()
    };
    assert!(pos(0) < pos(2));
    assert_eq!(pos(0), pos(1));
}

fn strings(xs: &[&str]) -> Vec<String> {
    xs.iter().map(|x| x.to_string()).collect()
}

#[test]
fn rename_map_skips_unchanged_names_and_keeps_last_pair() {
    let from = strings(&["a", "b", "c", "a", "d"]);
    let to = strings(&["x", "b", "y", "z"]);
    let pairs = merge_build_rename_map(&from, &to);
    assert!(pairs.iter().all(|(k, v)| k != v));
    let map: std::collections::HashMap<String, String> = pairs.into_iter().collect();
    let expected: std::collections::HashMap<String, String> =
        [("a", "z"), ("c", "y")].iter().map(|(k, v)| (k.to_string(), v.to_string())).collect();
    assert_eq!(map, expected);
}

#[test]
fn rename_map_of_identical_lists_is_empty() {
    let names = strings(&["p", "q"]);
    assert!(merge_build_rename_map(&names, &names).is_empty());
}

#[test]
fn env_free_vars_agree_with_applying_first() {
    let mut s = Subst::new();
    s.insert(1, Ty::List(Box::new(Ty::Var(2))));
    s.insert(2, Ty::Tuple(vec![Ty::Var(4), con("Integer")]));
    let t = func(Ty::Var(1), app(con("Maybe"), vec![Ty::Var(3), Ty::Var(2)]));
    let direct = ftv_ty(&apply(&s, t.clone()));
    let via_env = ftv_env_applied_from_ftv(&s, &ftv_ty(&t));
    assert_eq!(direct, via_env);
    assert_eq!(direct, [3u32, 4].into_iter().collect());
}

#[test]
fn components_of_any_graph_can_be_ordered() {
    let graph = vec![vec![1, 3], vec![2], vec![0, 4], vec![4], vec![3, 5], vec![]];
    let comps = tarjan_scc(&graph);
    let order = topo_order_sccs(&graph, &comps).unwrap();
    assert_eq!(order.len(), comps.len());
    let mut seen: Vec<usize> = comps.iter().flatten().copied().collect();
    seen.sort();
    assert_eq!(seen, vec![0, 1, 2, 3, 4, 5]);
}
