use vrg::util::graph::Graph;

fn names(nodes: &Vec<&vrg::util::graph::Node<u32>>) -> Vec<String> {
    nodes.iter().map(|n| n.name.clone()).collect()
}

fn chain() -> Graph<u32, u8> {
    // a -> b -> c, a -> c
    let mut g: Graph<u32, u8> = Graph::new();
    g.add_node("a", 1);
    g.add_node("b", 2);
    g.add_node("c", 3);
    g.add_edge("a", "b", 10);
    g.add_edge("b", "c", 20);
    g.add_edge("a", "c", 30);
    g
}

#[test]
fn new_graph_is_empty() {
    let g: Graph<u32, u8> = Graph::new();
    assert_eq!(g.node_count(), 0);
    assert_eq!(g.edge_count(), 0);
    assert!(!g.contains_node("a"));
}

#[test]
fn add_node_then_get_node() {
    let mut g: Graph<u32, u8> = Graph::new();
    g.add_node("first", 7);
    g.add_node("second", 8);
    assert_eq!(g.node_count(), 2);
    assert_eq!(g.get_node("first").data, 7);
    assert_eq!(g.get_node("second").data, 8);
    assert_eq!(g.get_node("second").name, "second");
    assert!(g.contains_node("first"));
    assert!(!g.contains_node("third"));
}

#[test]
fn re_adding_a_name_refers_to_the_new_node() {
    let mut g: Graph<u32, u8> = Graph::new();
    g.add_node("x", 1);
    g.add_node("y", 2);
    g.add_node("x", 3);
    assert_eq!(g.node_count(), 3);
    assert_eq!(g.get_node("x").data, 3);
    assert_eq!(g.get_node("y").data, 2);
}

#[test]
fn edges_connect_named_nodes() {
    let g = chain();
    assert_eq!(g.edge_count(), 3);
    let next = g.get_next_edges("a");
    assert_eq!(next.len(), 2);
    assert_eq!((next[0].src, next[0].dst, next[0].info), (0, 1, 10));
    assert_eq!((next[1].src, next[1].dst, next[1].info), (0, 2, 30));
    assert_eq!(g.get_src_node(next[0]).name, "a");
    assert_eq!(g.get_dst_node(next[0]).name, "b");
    assert_eq!(g.get_dst_node(next[1]).name, "c");
}

#[test]
fn prev_and_next_lists() {
    let g = chain();
    assert_eq!(names(&g.get_next_nodes("a")), vec!["b", "c"]);
    assert_eq!(names(&g.get_next_nodes("c")), Vec::<String>::new());
    assert_eq!(names(&g.get_prev_nodes("c")), vec!["b", "a"]);
    assert_eq!(names(&g.get_prev_nodes("a")), Vec::<String>::new());
    let prev = g.get_prev_edges("c");
    assert_eq!(prev.iter().map(|e| e.info).collect::<Vec<_>>(), vec![20, 30]);
}

#[test]
fn edges_follow_the_node_a_name_referred_to_when_added() {
    let mut g: Graph<u32, u8> = Graph::new();
    g.add_node("a", 1);
    g.add_node("b", 2);
    g.add_edge("a", "b", 1);
    g.add_node("a", 9);
    // the new "a" has no edges; the old edge still starts at node 0
    assert_eq!(g.get_next_edges("a").len(), 0);
    let prev = g.get_prev_edges("b");
    assert_eq!(prev.len(), 1);
    assert_eq!(prev[0].src, 0);
    assert_eq!(g.get_src_node(prev[0]).data, 1);
}

#[test]
fn breadth_first_forwards_visits_each_reachable_node_once() {
    let g = chain();
    assert_eq!(names(&g.breadth_first_forwards("a")), vec!["a", "b", "c"]);
    assert_eq!(names(&g.breadth_first_forwards("b")), vec!["b", "c"]);
    assert_eq!(names(&g.breadth_first_forwards("c")), vec!["c"]);
}

#[test]
fn breadth_first_backwards_follows_edges_against_direction() {
    let g = chain();
    assert_eq!(names(&g.breadth_first_backwards("c")), vec!["c", "b", "a"]);
    assert_eq!(names(&g.breadth_first_backwards("a")), vec!["a"]);
}

#[test]
fn breadth_first_walk_ends_on_a_cycle() {
    let mut g: Graph<u32, u8> = Graph::new();
    g.add_node("a", 1);
    g.add_node("b", 2);
    g.add_node("c", 3);
    g.add_edge("a", "b", 0);
    g.add_edge("b", "a", 0);
    g.add_edge("b", "c", 0);
    let walk = names(&g.breadth_first_forwards("a"));
    assert_eq!(walk, vec!["a", "b", "c"]);
    let back = names(&g.breadth_first_backwards("c"));
    assert_eq!(back, vec!["c", "b", "a"]);
}

#[test]
fn breadth_first_walk_is_breadth_first() {
    // r -> x, r -> y, x -> z, y -> w
    let mut g: Graph<u32, u8> = Graph::new();
    for (i, n) in ["r", "x", "y", "z", "w"].iter().enumerate() {
        g.add_node(n, i as u32);
    }
    g.add_edge("r", "x", 0);
    g.add_edge("r", "y", 0);
    g.add_edge("x", "z", 0);
    g.add_edge("y", "w", 0);
    assert_eq!(names(&g.breadth_first_forwards("r")), vec!["r", "x", "y", "z", "w"]);
}

#[test]
fn walk_law_examples_root_first_no_repeats_all_reachable() {
    // diamond with a back edge: every node reachable from "s" is listed once, "s" first
    let mut g: Graph<u32, u8> = Graph::new();
    for (i, n) in ["s", "l", "r", "t", "u"].iter().enumerate() {
        g.add_node(n, i as u32);
    }
    g.add_edge("s", "l", 0);
    g.add_edge("s", "r", 0);
    g.add_edge("l", "t", 0);
    g.add_edge("r", "t", 0);
    g.add_edge("t", "s", 0);
    let walk = names(&g.breadth_first_forwards("s"));
    assert_eq!(walk[0], "s");
    let mut sorted = walk.clone();
    sorted.sort();
    sorted.dedup();
    assert_eq!(sorted.len(), walk.len());
    assert_eq!(sorted, vec!["l", "r", "s", "t"]);
}

#[test]
fn backward_walk_matches_forward_walk_of_turned_around_graph() {
    let g = chain();
    let mut r: Graph<u32, u8> = Graph::new();
    r.add_node("a", 1);
    r.add_node("b", 2);
    r.add_node("c", 3);
    r.add_edge("b", "a", 10);
    r.add_edge("c", "b", 20);
    r.add_edge("c", "a", 30);
    for root in ["a", "b", "c"] {
        assert_eq!(names(&g.breadth_first_backwards(root)), names(&r.breadth_first_forwards(root)));
    }
}

#[test]
fn edge_count_is_the_sum_of_the_lists() {
    let g = chain();
    let out: usize = ["a", "b", "c"].iter().map(|n| g.get_next_edges(n).len()).sum();
    let inc: usize = ["a", "b", "c"].iter().map(|n| g.get_prev_edges(n).len()).sum();
    assert_eq!(out, g.edge_count());
    assert_eq!(inc, g.edge_count());
    assert_eq!(g.node_count(), 3);
}

#[test]
fn small_cyclic_graph_walk_lists_every_reachable_node() {
    // a -> b -> c -> d -> a, plus c -> e; e unreachable from nothing else
    let mut g: Graph<u32, u8> = Graph::new();
    for (i, n) in ["a", "b", "c", "d", "e", "f"].iter().enumerate() {
        g.add_node(n, i as u32);
    }
    g.add_edge("a", "b", 0);
    g.add_edge("b", "c", 0);
    g.add_edge("c", "d", 0);
    g.add_edge("d", "a", 0);
    g.add_edge("c", "e", 0);
    assert_eq!(names(&g.breadth_first_forwards("b")), vec!["b", "c", "d", "e", "a"]);
    assert_eq!(names(&g.breadth_first_backwards("a")), vec!["a", "d", "c", "b"]);
}

#[test]
fn walk_lists_each_node_after_one_it_is_reached_from() {
    let mut g: Graph<u32, u8> = Graph::new();
    for (i, n) in ["r", "x", "y", "z", "w"].iter().enumerate() {
        g.add_node(n, i as u32);
    }
    g.add_edge("r", "y", 0);
    g.add_edge("y", "x", 0);
    g.add_edge("x", "z", 0);
    g.add_edge("z", "r", 0);
    g.add_edge("r", "w", 0);
    let walk = names(&g.breadth_first_forwards("r"));
    assert_eq!(walk, vec!["r", "y", "w", "x", "z"]);
    for k in 1..walk.len() {
        let reached = (0..k).any(|j| names(&g.get_next_nodes(&walk[j])).contains(&walk[k]));
        assert!(reached, "{} is not one step from an earlier node", walk[k]);
    }
}
