use the_algorithms_rust::{DiGraph, Graph, UnDiGraph};

#[test]
fn test_digraph_neighbours() {
    let mut graph = DiGraph::<i32, i32>::default();
    graph.add_vertex(1, 10);
    graph.add_vertex(2, 11);
    graph.add_vertex(3, 9);
    graph.add_edge(1, 2);
    graph.add_edge(2, 3);

    let mut neighbours = graph.neighbours(2);
    let mut check_node;

    assert_eq!(neighbours.len(), 1);
    check_node = 3;
    assert!(neighbours.contains(&check_node));

    graph.add_edge(2, 1);

    neighbours = graph.neighbours(2);

    assert_eq!(neighbours.len(), 2);
    check_node = 1;
    assert!(neighbours.contains(&check_node));
    check_node = 3;
    assert!(neighbours.contains(&check_node));
}

#[test]
fn test_digraph_adjacent() {
    let mut graph = DiGraph::<i32, i32>::default();
    graph.add_vertex(1, 10);
    graph.add_vertex(2, 11);
    graph.add_vertex(3, 9);
    graph.add_edge(1, 2);
    graph.add_edge(2, 3);

    assert!(graph.adjacent(1, 2));
    assert!(!graph.adjacent(2, 1));
}

#[test]
fn test_graph_neighbours() {
    let mut graph = UnDiGraph::<i32, i32>::default();
    graph.add_vertex(1, 10);
    graph.add_vertex(2, 11);
    graph.add_vertex(3, 9);
    graph.add_vertex(4, 8);
    graph.add_edge(1, 2);
    graph.add_edge(2, 3);
    graph.add_edge(3, 4);

    let neighbours = graph.neighbours(2);
    let mut check_node;

    assert_eq!(neighbours.len(), 2);
    check_node = 1;
    assert!(neighbours.contains(&check_node));
    check_node = 3;
    assert!(neighbours.contains(&check_node));
}

#[test]
fn test_graph_adjacent() {
    let mut graph = UnDiGraph::<i32, i32>::default();
    graph.add_vertex(1, 10);
    graph.add_vertex(2, 11);
    graph.add_vertex(3, 9);
    graph.add_vertex(4, 8);
    graph.add_edge(1, 2);
    graph.add_edge(2, 3);
    graph.add_edge(3, 4);

    assert!(graph.adjacent(1, 2));
    assert!(graph.adjacent(2, 1));
    assert!(graph.adjacent(3, 2));
    assert!(graph.adjacent(2, 3));
}

#[test]
fn undirected_graph_from_doc_example() {
    let mut graph = UnDiGraph::<&'static str, i32>::new();
    graph.add_vertex("A", 10);
    graph.add_vertex("B", 11);
    graph.add_vertex("C", 9);
    graph.add_edge("A", "B");
    graph.add_edge("B", "C");
    assert!(graph.adjacent("A", "B"));
    assert!(graph.adjacent("B", "A"));
    assert!(!graph.adjacent("A", "C"));
}

#[test]
fn vertex_values_and_edge_removal() {
    let mut graph = DiGraph::<i32, i32>::new();
    assert_eq!(graph.get_vertex_value(1), None);
    graph.add_vertex(1, 10);
    assert_eq!(graph.get_vertex_value(1), Some(10));
    graph.set_vertex_value(1, 12);
    assert_eq!(graph.get_vertex_value(1), Some(12));
    graph.set_vertex_value(5, 50);
    assert_eq!(graph.get_vertex_value(5), None);
    graph.add_edge(1, 2);
    graph.remove_vertex(1);
    assert_eq!(graph.get_vertex_value(1), None);
    assert!(graph.adjacent(1, 2));
    graph.remove_edge(1, 2);
    assert!(!graph.adjacent(1, 2));
    assert!(graph.neighbours(1).is_empty());
}

#[test]
fn undirected_removal_follows_the_added_direction() {
    let mut graph = UnDiGraph::<i32, i32>::new();
    graph.add_edge(1, 2);
    graph.remove_edge(2, 1);
    assert!(graph.adjacent(1, 2));
    graph.remove_edge(1, 2);
    assert!(!graph.adjacent(2, 1));
}

#[test]
fn undirected_self_loop_listed_once() {
    let mut graph = UnDiGraph::<i32, i32>::new();
    graph.add_edge(7, 7);
    graph.add_edge(7, 8);
    graph.add_edge(9, 7);
    let mut n = graph.neighbours(7);
    n.sort();
    assert_eq!(n, vec![7, 8, 9]);
}
