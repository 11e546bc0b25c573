use std::collections::HashSet;

use depgraph::Graph;

fn edge_set(g: &Graph, node: u64) -> Option<Vec<u64>> {
    g.edges(&node).map(|it| {
        let mut v: Vec<u64> = it.copied().collect();
        v.sort();
        v
    })
}

fn node_set(g: &Graph) -> Vec<u64> {
    let mut v: Vec<u64> = g.iter().copied().collect();
    v.sort();
    v
}

fn position(order: &[u64], n: u64) -> usize {
    order.iter().position(|&x| x == n).unwrap()
}

#[test]
fn new_graph_has_no_nodes() {
    let g = Graph::new();
    assert_eq!(node_set(&g), Vec::<u64>::new());
    assert!(g.get_nodes().is_empty());
    assert_eq!(g.sort(), Some(vec![]));
}

#[test]
fn default_graph_equals_new() {
    assert!(Graph::default() == Graph::new());
}

#[test]
fn nodes_are_exactly_the_added_keys() {
    let mut g = Graph::new();
    g.add(1, &[2, 3]);
    g.link(4, 5);
    g.link(1, 6);
    g.add(7, &[]);
    assert_eq!(node_set(&g), vec![1, 4, 7]);
    assert_eq!(g.get_nodes().len(), 3);
}

#[test]
fn edges_of_node_never_added_is_none() {
    let mut g = Graph::new();
    g.link(1, 2);
    assert_eq!(edge_set(&g, 2), None);
    assert_eq!(edge_set(&g, 3), None);
    assert_eq!(edge_set(&g, 1), Some(vec![2]));
}

#[test]
fn empty_successor_set_differs_from_absent_node() {
    let mut g = Graph::new();
    g.add(1, &[]);
    assert_eq!(edge_set(&g, 1), Some(vec![]));
    assert_eq!(edge_set(&g, 2), None);
}

#[test]
fn repeated_add_merges_children_without_duplicates() {
    let (a, b, c, d) = (10, 20, 30, 40);
    let mut g = Graph::new();
    g.add(a, &[b, c]);
    g.add(a, &[c, d]);
    assert_eq!(edge_set(&g, a), Some(vec![b, c, d]));
}

#[test]
fn add_ignores_duplicates_within_one_batch() {
    let mut g = Graph::new();
    g.add(1, &[2, 2, 3, 2]);
    assert_eq!(edge_set(&g, 1), Some(vec![2, 3]));
}

#[test]
fn link_equals_add_of_one_child() {
    let mut g = Graph::new();
    g.link(1, 2);
    let mut h = Graph::new();
    h.add(1, &[2]);
    assert!(g == h);
}

#[test]
fn get_nodes_shows_the_table() {
    let mut g = Graph::new();
    g.add(1, &[2, 3]);
    let table = g.get_nodes();
    let expected: HashSet<u64> = [2, 3].into_iter().collect();
    assert_eq!(table.get(&1), Some(&expected));
    assert_eq!(table.get(&2), None);
}

#[test]
fn sort_lists_each_key_once_with_self_loop() {
    let mut g = Graph::new();
    g.link(1, 1);
    g.link(1, 2);
    g.link(2, 3);
    g.add(3, &[]);
    let order = g.sort().unwrap();
    assert_eq!(order.len(), 3);
    let mut sorted = order.clone();
    sorted.sort();
    assert_eq!(sorted, vec![1, 2, 3]);
}

#[test]
fn sort_of_single_self_loop() {
    let mut g = Graph::new();
    g.link(5, 5);
    assert_eq!(g.sort(), Some(vec![5]));
}

#[test]
fn sort_places_chain_successors_first() {
    let mut g = Graph::new();
    g.link(1, 2);
    g.link(2, 3);
    g.add(3, &[]);
    assert_eq!(g.sort(), Some(vec![3, 2, 1]));
}

#[test]
fn sort_of_acyclic_graph_puts_targets_before_sources() {
    let mut g = Graph::new();
    g.add(1, &[2, 3]);
    g.add(2, &[4]);
    g.add(3, &[4, 5]);
    g.add(4, &[5]);
    g.add(5, &[]);
    g.add(6, &[1, 5]);
    let order = g.sort().unwrap();
    assert_eq!(order.len(), 6);
    for u in 1..=6u64 {
        if let Some(targets) = edge_set(&g, u) {
            for v in targets {
                assert!(position(&order, v) < position(&order, u), "{} before {}", v, u);
            }
        }
    }
}

#[test]
fn sort_leaves_out_nodes_that_are_only_successors() {
    let mut g = Graph::new();
    g.link(1, 99);
    assert_eq!(g.sort(), Some(vec![1]));
}

#[test]
fn sort_of_three_cycle_lists_all_three() {
    let (a, b, c) = (1, 2, 3);
    let mut g = Graph::new();
    g.link(a, b);
    g.link(b, c);
    g.link(c, a);
    let mut order = g.sort().unwrap();
    assert_eq!(order.len(), 3);
    order.sort();
    assert_eq!(order, vec![a, b, c]);
}

#[test]
fn path_to_top_of_root_is_itself() {
    let mut g = Graph::new();
    g.link(1, 2);
    assert_eq!(g.path_to_top(&1), vec![&1]);
    assert_eq!(g.path_to_top(&42), vec![&42]);
}

#[test]
fn path_to_top_walks_up_a_chain() {
    let mut g = Graph::new();
    g.link(1, 2);
    g.link(2, 3);
    assert_eq!(g.path_to_top(&3), vec![&3, &2, &1]);
}

#[test]
fn path_to_top_stops_on_two_cycle() {
    let (x, y) = (7, 8);
    let mut g = Graph::new();
    g.link(x, y);
    g.link(y, x);
    assert_eq!(g.path_to_top(&x), vec![&x, &y]);
    assert_eq!(g.path_to_top(&y), vec![&y, &x]);
}

#[test]
fn path_to_top_has_no_duplicates_in_larger_cycle() {
    let mut g = Graph::new();
    g.link(1, 2);
    g.link(2, 3);
    g.link(3, 1);
    g.link(4, 3);
    let path = g.path_to_top(&1);
    assert_eq!(*path[0], 1);
    let distinct: HashSet<u64> = path.iter().map(|x| **x).collect();
    assert_eq!(distinct.len(), path.len());
    for w in path.windows(2) {
        assert!(edge_set(&g, *w[1]).unwrap().contains(w[0]));
    }
}

#[test]
fn graphs_built_in_different_orders_are_equal() {
    let mut g = Graph::new();
    g.link(1, 2);
    g.add(3, &[4, 5]);
    g.link(1, 3);
    let mut h = Graph::new();
    h.add(1, &[3]);
    h.link(3, 5);
    h.add(1, &[2]);
    h.link(3, 4);
    assert!(g == h);
}

#[test]
fn graphs_with_different_edges_differ() {
    let mut g = Graph::new();
    g.link(1, 2);
    let mut h = Graph::new();
    h.link(1, 3);
    assert!(g != h);
    let mut k = Graph::new();
    k.link(1, 2);
    k.add(2, &[]);
    assert!(g != k);
}

#[test]
fn mutating_a_clone_leaves_the_original() {
    let mut g = Graph::new();
    g.link(1, 2);
    let mut copy = g.clone();
    assert!(copy == g);
    copy.link(1, 3);
    copy.link(4, 5);
    assert_eq!(edge_set(&g, 1), Some(vec![2]));
    assert_eq!(edge_set(&g, 4), None);
    assert_eq!(edge_set(&copy, 1), Some(vec![2, 3]));
    assert!(copy != g);
}

#[test]
fn debug_string_of_empty_graph() {
    assert_eq!(Graph::new().to_debug_string(), "Graph {\n}");
}

#[test]
fn debug_string_lists_node_and_successor() {
    let mut g = Graph::new();
    g.link(1, 23);
    assert_eq!(g.to_debug_string(), "Graph {\n  - 1\n    - 23\n}");
}

#[test]
fn debug_string_of_node_without_successors() {
    let mut g = Graph::new();
    g.add(18446744073709551615, &[]);
    assert_eq!(g.to_debug_string(), "Graph {\n  - 18446744073709551615\n}");
}

#[test]
fn debug_string_has_one_line_per_key_and_edge() {
    let mut g = Graph::new();
    g.add(10, &[0, 7]);
    g.add(20, &[10]);
    let text = g.to_debug_string();
    let lines: Vec<&str> = text.lines().collect();
    assert_eq!(lines.len(), 7);
    assert_eq!(lines[0], "Graph {");
    assert_eq!(lines[6], "}");
    let mut keys: Vec<&str> = lines.iter().filter(|l| l.starts_with("  - ")).copied().collect();
    keys.sort();
    assert_eq!(keys, vec!["  - 10", "  - 20"]);
    let mut succs: Vec<&str> = lines.iter().filter(|l| l.starts_with("    - ")).copied().collect();
    succs.sort();
    assert_eq!(succs, vec!["    - 0", "    - 10", "    - 7"]);
}

#[test]
fn sort_of_three_cycle_is_a_depth_first_post_order() {
    let mut g = Graph::new();
    g.link(1, 2);
    g.link(2, 3);
    g.link(3, 1);
    let order = g.sort().unwrap();
    assert!(
        order == vec![3, 2, 1] || order == vec![1, 3, 2] || order == vec![2, 1, 3],
        "{:?}",
        order
    );
}
