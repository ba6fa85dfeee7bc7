use egonet::circles::Circles;
use egonet::error::GraphError;
use egonet::graph::build_graph;
use egonet::matrix::read_graph;
use egonet::graph::Graph;
use std::collections::HashMap;
use std::collections::HashSet;

fn matrix_of(graph: &Graph) -> Vec<Vec<usize>> {
    let n = graph.num_nodes();
    (0..n)
        .map(|a| (0..n).map(|b| graph.weight(a, b).unwrap()).collect())
        .collect()
}

#[test]
fn new_graph_has_no_edges_and_no_annotations() {
    let graph = Graph::new(3);
    assert_eq!(graph.num_nodes(), 3);
    assert_eq!(matrix_of(&graph), vec![vec![0; 3]; 3]);
    assert_eq!(graph.circles().len(), 0);
    assert!(graph.features().is_empty());
    assert!(graph.ego_features().is_empty());
    assert!(graph.feature_names().is_empty());
}

#[test]
fn new_graph_of_no_nodes() {
    let graph = Graph::new(0);
    assert_eq!(graph.num_nodes(), 0);
    assert_eq!(
        graph.weight(0, 0),
        Err(GraphError::IndexOutOfRange { index: 0, nodes: 0 })
    );
}

#[test]
fn add_edge_sets_both_directions_to_weight_one() {
    let mut graph = Graph::new(3);
    assert_eq!(graph.add_edge(0, 2), Ok(()));
    assert_eq!(
        matrix_of(&graph),
        vec![vec![0, 0, 1], vec![0, 0, 0], vec![1, 0, 0]]
    );
}

#[test]
fn adding_an_edge_twice_is_adding_it_once() {
    let mut once = Graph::new(4);
    once.add_edge(1, 3).unwrap();
    let mut twice = Graph::new(4);
    twice.add_edge(1, 3).unwrap();
    twice.add_edge(1, 3).unwrap();
    assert_eq!(matrix_of(&once), matrix_of(&twice));
    let mut reversed = Graph::new(4);
    reversed.add_edge(1, 3).unwrap();
    reversed.add_edge(3, 1).unwrap();
    assert_eq!(matrix_of(&once), matrix_of(&reversed));
    assert_eq!(once.weight(1, 3), Ok(1));
}

#[test]
fn add_edge_out_of_range_fails_and_changes_nothing() {
    let mut graph = Graph::new(2);
    graph.add_edge(0, 1).unwrap();
    let before = matrix_of(&graph);
    assert_eq!(
        graph.add_edge(2, 0),
        Err(GraphError::IndexOutOfRange { index: 2, nodes: 2 })
    );
    assert_eq!(
        graph.add_edge(0, 5),
        Err(GraphError::IndexOutOfRange { index: 5, nodes: 2 })
    );
    assert_eq!(
        graph.add_edge(7, 9),
        Err(GraphError::IndexOutOfRange { index: 7, nodes: 2 })
    );
    assert_eq!(matrix_of(&graph), before);
}

#[test]
fn add_weighted_edge_sets_and_clears() {
    let mut graph = Graph::new(2);
    assert_eq!(graph.add_weighted_edge(0, 1, 9), Ok(()));
    assert_eq!(graph.weight(0, 1), Ok(9));
    assert_eq!(graph.weight(1, 0), Ok(9));
    assert_eq!(graph.add_weighted_edge(1, 0, 0), Ok(()));
    assert_eq!(matrix_of(&graph), vec![vec![0, 0], vec![0, 0]]);
    assert_eq!(
        graph.add_weighted_edge(0, 2, 3),
        Err(GraphError::IndexOutOfRange { index: 2, nodes: 2 })
    );
}

#[test]
fn weight_out_of_range_names_the_first_bad_index() {
    let graph = Graph::new(2);
    assert_eq!(
        graph.weight(3, 4),
        Err(GraphError::IndexOutOfRange { index: 3, nodes: 2 })
    );
    assert_eq!(
        graph.weight(1, 4),
        Err(GraphError::IndexOutOfRange { index: 4, nodes: 2 })
    );
}

#[test]
fn read_graph_builds_a_symmetric_matrix() {
    assert_eq!(
        read_graph(3, vec![(0, 1), (2, 1), (0, 1)]),
        Ok(vec![vec![0, 1, 0], vec![1, 0, 1], vec![0, 1, 0]])
    );
    assert_eq!(read_graph(2, Vec::new()), Ok(vec![vec![0, 0], vec![0, 0]]));
    assert_eq!(read_graph(0, Vec::new()), Ok(Vec::new()));
}

#[test]
fn read_graph_fails_on_the_first_end_out_of_range() {
    assert_eq!(
        read_graph(3, vec![(0, 1), (1, 3), (9, 9)]),
        Err(GraphError::IndexOutOfRange { index: 3, nodes: 3 })
    );
    assert_eq!(
        read_graph(3, vec![(4, 5)]),
        Err(GraphError::IndexOutOfRange { index: 4, nodes: 3 })
    );
}

#[test]
fn build_graph_attaches_the_annotations() {
    let mut circles = Circles::new();
    circles.insert("friends".to_string(), HashSet::from([1, 2]));
    let mut features = HashMap::new();
    features.insert(1usize, vec![true, false]);
    let graph = build_graph(
        3,
        vec![(0, 1), (1, 2), (1, 2)],
        circles,
        features,
        vec![false, true],
        vec!["age".to_string(), "school".to_string()],
    )
    .unwrap();
    assert_eq!(
        matrix_of(&graph),
        vec![vec![0, 1, 0], vec![1, 0, 1], vec![0, 1, 0]]
    );
    assert_eq!(
        graph.circles().get(&"friends".to_string()),
        Some(&HashSet::from([1, 2]))
    );
    assert_eq!(graph.features().get(&1), Some(&vec![true, false]));
    assert_eq!(graph.ego_features(), &vec![false, true]);
    assert_eq!(
        graph.feature_names(),
        &vec!["age".to_string(), "school".to_string()]
    );
}

#[test]
fn build_graph_fails_on_the_first_end_out_of_range() {
    let r = build_graph(
        2,
        vec![(0, 1), (1, 2), (5, 0)],
        Circles::new(),
        HashMap::new(),
        Vec::new(),
        Vec::new(),
    );
    assert_eq!(
        r.unwrap_err(),
        GraphError::IndexOutOfRange { index: 2, nodes: 2 }
    );
}

#[test]
fn annotations_do_not_change_distances() {
    let mut circles = Circles::new();
    circles.insert("all".to_string(), HashSet::from([0, 1, 2]));
    let mut features = HashMap::new();
    features.insert(2usize, vec![true]);
    let plain = build_graph(
        3,
        vec![(0, 1)],
        Circles::new(),
        HashMap::new(),
        Vec::new(),
        Vec::new(),
    )
    .unwrap();
    let annotated = build_graph(
        3,
        vec![(0, 1)],
        circles,
        features,
        vec![true],
        vec!["x".to_string()],
    )
    .unwrap();
    assert_eq!(plain.shortest_distances(0), annotated.shortest_distances(0));
    assert_eq!(plain.longest_path(), annotated.longest_path());
}
