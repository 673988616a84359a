use graph_traversal::analysis::{analyse, build, Entry};
use graph_traversal::graph::Graph;
use graph_traversal::model::GraphType;

fn s(text: &str) -> String {
    text.to_string()
}

fn list(items: &[&str]) -> Vec<String> {
    items.iter().map(|item| item.to_string()).collect()
}

fn entry(origin: &str, destinations: &[&str]) -> (String, Vec<String>) {
    (s(origin), list(destinations))
}

fn sorted(mut items: Vec<String>) -> Vec<String> {
    items.sort();
    items
}

#[test]
fn new_graph_is_empty() {
    let g = Graph::new(GraphType::Directed);
    assert_eq!(g.typ(), GraphType::Directed);
    assert!(g.vertices().is_empty());
    assert!(g.neighbors(&s("a")).is_none());
    let u = Graph::new(GraphType::Undirected);
    assert_eq!(u.typ(), GraphType::Undirected);
}

#[test]
fn directed_chain_with_shortcut() {
    let g = build(GraphType::Directed, &vec![entry("a", &["b", "c"]), entry("b", &["c"])]);
    assert_eq!(g.vertices(), &list(&["a", "b", "c"]));
    assert_eq!(g.bfs(&s("a")), list(&["a", "b", "c"]));
    assert_eq!(g.dfs(&s("a")), list(&["a", "b", "c"]));
    assert_eq!(g.neighbors(&s("a")), Some(&list(&["b", "c"])));
    assert_eq!(g.neighbors(&s("b")), Some(&list(&["c"])));
    assert_eq!(g.neighbors(&s("c")), None);
}

#[test]
fn undirected_edge_from_its_destination() {
    let g = build(GraphType::Undirected, &vec![entry("a", &["b"])]);
    assert_eq!(g.vertices(), &list(&["a", "b"]));
    assert_eq!(g.neighbors(&s("a")), Some(&list(&["b"])));
    assert_eq!(g.neighbors(&s("b")), Some(&list(&["a"])));
    assert_eq!(g.bfs(&s("b")), list(&["b", "a"]));
    assert_eq!(g.dfs(&s("b")), list(&["b", "a"]));
}

#[test]
fn disconnected_part_is_left_out() {
    let g = build(GraphType::Directed, &vec![entry("a", &["b"]), entry("x", &["y"])]);
    assert_eq!(g.vertices(), &list(&["a", "b", "x", "y"]));
    assert_eq!(g.bfs(&s("a")), list(&["a", "b"]));
    assert_eq!(g.dfs(&s("a")), list(&["a", "b"]));
    assert_eq!(g.bfs(&s("x")), list(&["x", "y"]));
    assert_eq!(g.dfs(&s("y")), list(&["y"]));
}

#[test]
fn self_loop_is_visited_once() {
    let g = build(GraphType::Directed, &vec![entry("a", &["a"])]);
    assert_eq!(g.vertices(), &list(&["a"]));
    assert_eq!(g.neighbors(&s("a")), Some(&list(&["a"])));
    assert_eq!(g.bfs(&s("a")), list(&["a"]));
    assert_eq!(g.dfs(&s("a")), list(&["a"]));
}

#[test]
fn undirected_self_loop_is_listed_twice() {
    let g = build(GraphType::Undirected, &vec![entry("a", &["a"])]);
    assert_eq!(g.vertices(), &list(&["a"]));
    assert_eq!(g.neighbors(&s("a")), Some(&list(&["a", "a"])));
    assert_eq!(g.bfs(&s("a")), list(&["a"]));
    assert_eq!(g.dfs(&s("a")), list(&["a"]));
}

#[test]
fn duplicate_edge_is_kept_and_visited_once() {
    let g = build(GraphType::Directed, &vec![entry("a", &["b", "b"])]);
    assert_eq!(g.vertices(), &list(&["a", "b"]));
    assert_eq!(g.neighbors(&s("a")), Some(&list(&["b", "b"])));
    assert_eq!(g.bfs(&s("a")), list(&["a", "b"]));
    assert_eq!(g.dfs(&s("a")), list(&["a", "b"]));
}

#[test]
fn undirected_duplicate_edge_is_kept_both_ways() {
    let g = build(GraphType::Undirected, &vec![entry("a", &["b", "b"])]);
    assert_eq!(g.neighbors(&s("a")), Some(&list(&["b", "b"])));
    assert_eq!(g.neighbors(&s("b")), Some(&list(&["a", "a"])));
    assert_eq!(g.bfs(&s("a")), list(&["a", "b"]));
    assert_eq!(g.dfs(&s("b")), list(&["b", "a"]));
}

#[test]
fn unknown_start_is_visited_alone() {
    let g = build(GraphType::Directed, &vec![entry("a", &["b"])]);
    assert_eq!(g.bfs(&s("z")), list(&["z"]));
    assert_eq!(g.dfs(&s("z")), list(&["z"]));
    let empty = Graph::new(GraphType::Undirected);
    assert_eq!(empty.bfs(&s("a")), list(&["a"]));
    assert_eq!(empty.dfs(&s("a")), list(&["a"]));
    assert_eq!(empty.bfs(&s("")), list(&[""]));
}

#[test]
fn identifiers_are_compared_exactly() {
    let g = build(GraphType::Directed, &vec![entry("a", &["A", " a"]), entry("A", &["a "])]);
    assert_eq!(g.vertices(), &list(&["a", "A", " a", "a "]));
    assert_eq!(g.bfs(&s("a")), list(&["a", "A", " a", "a "]));
    assert_eq!(g.bfs(&s("A")), list(&["A", "a "]));
    assert_eq!(g.bfs(&s("a ")), list(&["a "]));
}

#[test]
fn undirected_edges_are_symmetric() {
    let mut g = Graph::new(GraphType::Undirected);
    let edges = [("a", "b"), ("b", "c"), ("c", "a"), ("d", "a")];
    for (from, to) in edges {
        g.add_edge(&s(from), &s(to));
    }
    for (from, to) in edges {
        assert!(g.neighbors(&s(from)).unwrap().contains(&s(to)));
        assert!(g.neighbors(&s(to)).unwrap().contains(&s(from)));
    }
    assert_eq!(g.neighbors(&s("a")), Some(&list(&["b", "c", "d"])));
    assert_eq!(g.neighbors(&s("b")), Some(&list(&["a", "c"])));
    assert_eq!(g.neighbors(&s("c")), Some(&list(&["b", "a"])));
    assert_eq!(g.neighbors(&s("d")), Some(&list(&["a"])));
}

#[test]
fn directed_edge_is_one_way() {
    let mut g = Graph::new(GraphType::Directed);
    g.add_edge(&s("a"), &s("b"));
    assert_eq!(g.neighbors(&s("a")), Some(&list(&["b"])));
    assert_eq!(g.neighbors(&s("b")), None);
    assert_eq!(g.bfs(&s("b")), list(&["b"]));
    g.add_edge(&s("b"), &s("a"));
    assert_eq!(g.neighbors(&s("b")), Some(&list(&["a"])));
    assert_eq!(g.neighbors(&s("a")), Some(&list(&["b"])));
    assert_eq!(g.bfs(&s("b")), list(&["b", "a"]));
}

#[test]
fn known_vertices_are_not_listed_again() {
    let mut g = Graph::new(GraphType::Undirected);
    g.add_edge(&s("a"), &s("b"));
    g.add_edge(&s("b"), &s("a"));
    g.add_edge(&s("a"), &s("b"));
    g.add_edge(&s("b"), &s("b"));
    assert_eq!(g.vertices(), &list(&["a", "b"]));
    g.add_edge(&s("c"), &s("a"));
    assert_eq!(g.vertices(), &list(&["a", "b", "c"]));
}

#[test]
fn origin_is_registered_before_destination() {
    let g = build(GraphType::Directed, &vec![entry("m", &["k", "z"]), entry("b", &["a", "m"])]);
    assert_eq!(g.vertices(), &list(&["m", "k", "z", "b", "a"]));
}

#[test]
fn origin_without_destinations_adds_nothing() {
    let g = build(GraphType::Directed, &vec![entry("a", &[]), entry("b", &["c"])]);
    assert_eq!(g.vertices(), &list(&["b", "c"]));
    assert_eq!(g.neighbors(&s("a")), None);
    let none = build(GraphType::Undirected, &vec![]);
    assert!(none.vertices().is_empty());
}

#[test]
fn traversal_orders_differ_on_a_tree() {
    let g = build(
        GraphType::Directed,
        &vec![entry("a", &["b", "c"]), entry("b", &["d", "e"]), entry("c", &["f"])],
    );
    assert_eq!(g.bfs(&s("a")), list(&["a", "b", "c", "d", "e", "f"]));
    assert_eq!(g.dfs(&s("a")), list(&["a", "b", "d", "e", "c", "f"]));
}

#[test]
fn depth_first_takes_a_vertex_where_it_is_first_reached() {
    // `c` waits on the stack as a neighbour of `a` while it is reached
    // through `b`; its second copy is dropped when it comes up.
    let g = build(
        GraphType::Directed,
        &vec![entry("a", &["b", "c"]), entry("b", &["c"]), entry("c", &["d"])],
    );
    assert_eq!(g.dfs(&s("a")), list(&["a", "b", "c", "d"]));
    assert_eq!(g.bfs(&s("a")), list(&["a", "b", "c", "d"]));
}

#[test]
fn breadth_first_goes_by_distance() {
    let g = build(
        GraphType::Undirected,
        &vec![entry("a", &["b"]), entry("b", &["c"]), entry("c", &["d"]), entry("a", &["d"])],
    );
    assert_eq!(g.bfs(&s("a")), list(&["a", "b", "d", "c"]));
    assert_eq!(g.dfs(&s("a")), list(&["a", "b", "c", "d"]));
    assert_eq!(g.bfs(&s("c")), list(&["c", "b", "d", "a"]));
    assert_eq!(g.dfs(&s("c")), list(&["c", "b", "a", "d"]));
}

#[test]
fn cycle_is_traversed_once() {
    let g = build(
        GraphType::Directed,
        &vec![entry("a", &["b"]), entry("b", &["c"]), entry("c", &["a"])],
    );
    assert_eq!(g.bfs(&s("b")), list(&["b", "c", "a"]));
    assert_eq!(g.dfs(&s("b")), list(&["b", "c", "a"]));
}

#[test]
fn both_traversals_visit_the_same_vertices_once() {
    let g = build(
        GraphType::Directed,
        &vec![
            entry("a", &["b", "c", "b"]),
            entry("b", &["d", "a"]),
            entry("c", &["d", "e", "c"]),
            entry("e", &["b"]),
            entry("x", &["a"]),
        ],
    );
    for start in ["a", "b", "c", "d", "e", "x", "nowhere"] {
        let bfs = g.bfs(&s(start));
        let dfs = g.dfs(&s(start));
        assert_eq!(bfs.len(), dfs.len());
        assert_eq!(bfs[0], s(start));
        assert_eq!(dfs[0], s(start));
        let mut distinct = sorted(bfs.clone());
        distinct.dedup();
        assert_eq!(distinct.len(), bfs.len());
        assert_eq!(sorted(bfs), sorted(dfs));
    }
    assert_eq!(g.bfs(&s("a")), list(&["a", "b", "c", "d", "e"]));
    assert_eq!(g.dfs(&s("a")), list(&["a", "b", "d", "c", "e"]));
    assert_eq!(g.bfs(&s("x")).len(), 6);
    assert_eq!(g.bfs(&s("d")), list(&["d"]));
}

#[test]
fn analyse_answers_with_graph_and_both_orders() {
    let request = Entry {
        graph_type: GraphType::Directed,
        edges: vec![entry("a", &["b", "c"]), entry("b", &["c"])],
        start: s("a"),
    };
    let response = analyse(&request);
    assert_eq!(response.start, s("a"));
    assert_eq!(response.bfs_result, list(&["a", "b", "c"]));
    assert_eq!(response.dfs_result, list(&["a", "b", "c"]));
    assert_eq!(response.graph.typ(), GraphType::Directed);
    assert_eq!(response.graph.vertices(), &list(&["a", "b", "c"]));
    assert_eq!(response.graph.neighbors(&s("a")), Some(&list(&["b", "c"])));
}

#[test]
fn analyse_from_an_unknown_start() {
    let request = Entry {
        graph_type: GraphType::Undirected,
        edges: vec![entry("a", &["b"])],
        start: s("q"),
    };
    let response = analyse(&request);
    assert_eq!(response.start, s("q"));
    assert_eq!(response.bfs_result, list(&["q"]));
    assert_eq!(response.dfs_result, list(&["q"]));
    assert_eq!(response.graph.vertices(), &list(&["a", "b"]));
}
