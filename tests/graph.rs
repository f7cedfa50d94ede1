use max_cut::graph::adjacency_matrix::AdjacencyMatrix;
use max_cut::graph::edge::Edge as PlainEdge;
use max_cut::graph::{Edge, Graph, MalformedInputError, NotQuadError};

fn sample() -> Graph {
    Graph::new(vec![
        vec![false, true, true, false],
        vec![false, false, true, true],
        vec![true, false, false, false],
        vec![true, false, false, false],
    ])
    .unwrap()
}

#[test]
fn all_edges() {
    let graph = sample();

    let expected = vec![
        Edge(0usize, 1usize),
        Edge(0usize, 2usize),
        Edge(0usize, 3usize),
        Edge(1usize, 2usize),
        Edge(1usize, 3usize),
    ];

    assert_eq!(graph.all_edges(), expected);
    assert_eq!(graph.edge_size(), expected.len());
}

#[test]
fn get_neighbors() {
    let graph = sample();

    assert_eq!(graph.get_neighbors(0usize), vec![1usize, 2usize, 3usize]);
    assert_eq!(graph.get_neighbors(2usize), vec![0usize, 1usize])
}

#[test]
fn new_refuses_non_square() {
    let r = Graph::new(vec![vec![false, true], vec![true]]);
    assert_eq!(r, Err(NotQuadError));
}

#[test]
fn empty_graph_has_no_edges() {
    let g = Graph::new_empty(5);
    assert_eq!(g.size(), 5);
    assert_eq!(g.edge_size(), 0);
    assert!(g.all_edges().is_empty());
    assert!(g.get_neighbors(3).is_empty());
}

#[test]
fn add_edge_is_symmetric_and_idempotent() {
    let mut g = Graph::new_empty(4);
    g.add_edge(&(2, 1));
    g.add_edge(&(1, 2));
    g.add_edge(&(2, 1));
    assert_eq!(g.edge_size(), 1);
    assert_eq!(g.all_edges(), vec![Edge(1, 2)]);
    assert_eq!(g.get_neighbors(1), vec![2]);
    assert_eq!(g.get_neighbors(2), vec![1]);
    assert!(g.contains_edge(&(1, 2)));
    assert!(g.contains_edge(&(2, 1)));
    assert!(!g.contains_edge(&(0, 1)));
}

#[test]
fn add_edge_ignores_loops() {
    let mut g = Graph::new_empty(3);
    g.add_edge(&(1, 1));
    assert_eq!(g.edge_size(), 0);
    assert!(g.get_neighbors(1).is_empty());
}

#[test]
fn build_accepts_edges_in_range() {
    let g = Graph::build(4, &[(0, 1), (1, 2), (2, 3), (3, 0), (1, 0)]).unwrap();
    assert_eq!(g.size(), 4);
    assert_eq!(g.edge_size(), 4);
    assert_eq!(g.all_edges(), vec![Edge(0, 1), Edge(0, 3), Edge(1, 2), Edge(2, 3)]);
}

#[test]
fn build_refuses_out_of_range_endpoint() {
    let r = Graph::build(3, &[(0, 1), (1, 3), (5, 0)]);
    assert_eq!(r, Err(MalformedInputError { edge: (1, 3) }));
}

#[test]
fn round_trip_keeps_edges() {
    let g = Graph::build(6, &[(0, 5), (4, 1), (2, 3), (3, 1), (5, 2), (0, 4)]).unwrap();
    let pairs: Vec<(usize, usize)> = g.all_edges().iter().map(|e| (e.0, e.1)).collect();
    let h = Graph::build(g.size(), &pairs).unwrap();
    assert_eq!(h.edge_size(), g.edge_size());
    let mut a = g.all_edges();
    let mut b = h.all_edges();
    a.sort_by_key(|e| (e.0, e.1));
    b.sort_by_key(|e| (e.0, e.1));
    assert_eq!(a, b);
}

#[test]
fn all_edges_are_canonical_and_distinct() {
    let g = Graph::build(5, &[(4, 0), (3, 1), (1, 3), (2, 4), (0, 2)]).unwrap();
    let es = g.all_edges();
    for (i, e) in es.iter().enumerate() {
        assert!(e.0 < e.1);
        for f in &es[i + 1..] {
            assert_ne!(e, f);
        }
    }
    assert_eq!(es.len(), 4);
}

#[test]
fn adjacency_matrix_add_delete_contains() {
    let mut m = AdjacencyMatrix::new_empty(3);
    m.add_edge(&PlainEdge::new(0, 2));
    assert!(m.contains_edge(PlainEdge::new(0, 2)));
    assert!(m.contains_edge(PlainEdge::new(2, 0)));
    assert!(!m.contains_edge(PlainEdge::new(0, 1)));
    assert!(!m.contains_edge(PlainEdge::new(0, 7)));
    m.add_edges(&[PlainEdge::new(0, 1), PlainEdge::new(1, 2)]);
    assert!(m.contains_edge(PlainEdge::new(1, 0)));
    m.delete_edge(&PlainEdge::new(2, 0));
    assert!(!m.contains_edge(PlainEdge::new(0, 2)));
    m.delete_edges(&[PlainEdge::new(0, 1), PlainEdge::new(1, 2)]);
    assert!(!m.contains_edge(PlainEdge::new(1, 2)));
}

#[test]
fn plain_edge_equality() {
    assert_eq!(PlainEdge::new(1, 2), PlainEdge::new(1, 2));
    assert_ne!(PlainEdge::new(1, 2), PlainEdge::new(2, 1));
}
