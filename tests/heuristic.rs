use max_cut::cut::cut_edges;
use max_cut::graph::{Edge, Graph};
use max_cut::heuristic::{
    concat_parts, cut_of_sides, keep_best, needs_another_round, rand_aprox, random_sides, slice_bounds,
    worker_count,
};

fn ring(n: usize) -> Graph {
    let pairs: Vec<(usize, usize)> = (0..n).map(|i| (i, (i + 1) % n)).collect();
    Graph::build(n, &pairs).unwrap()
}

/// The random cut computed slice by slice, as the parallel form does it.
fn sliced_random_cut(g: &Graph, parts: usize) -> Vec<Edge> {
    let bounds = slice_bounds(g.size(), parts);
    let bufs: Vec<Vec<bool>> = bounds.iter().map(|&(lo, hi)| random_sides(hi - lo)).collect();
    let sides = concat_parts(&bufs);
    assert_eq!(sides.len(), g.size());
    let edges = g.all_edges();
    let edge_bounds = slice_bounds(edges.len(), parts);
    let cuts: Vec<Vec<Edge>> = edge_bounds.iter().map(|&(lo, hi)| cut_edges(&edges[lo..hi], &sides)).collect();
    concat_parts(&cuts)
}

#[test]
fn random_cut_returns_edges_of_the_graph() {
    let g = ring(30);
    let all = g.all_edges();
    for _ in 0..20 {
        let cut = rand_aprox(&g);
        assert!(cut.iter().all(|e| all.contains(e)));
    }
}

#[test]
fn random_cut_expected_size_is_half() {
    let g = ring(200);
    let trials = 200;
    let total: usize = (0..trials).map(|_| rand_aprox(&g).len()).sum();
    let mean = total as f64 / trials as f64;
    assert!((mean - 100.0).abs() < 5.0, "mean {}", mean);
    let total_sliced: usize = (0..trials).map(|_| sliced_random_cut(&g, 7).len()).sum();
    let mean_sliced = total_sliced as f64 / trials as f64;
    assert!((mean_sliced - 100.0).abs() < 5.0, "mean {}", mean_sliced);
}

#[test]
fn sliced_cut_returns_edges_of_the_graph() {
    for &(n, parts) in &[(3usize, 8usize), (5, 2), (17, 4), (40, 8), (0, 3)] {
        let g = ring(n.max(3));
        let all = g.all_edges();
        let cut = sliced_random_cut(&g, parts);
        assert!(cut.iter().all(|e| all.contains(e)));
    }
}

#[test]
fn sliced_cut_equals_whole_cut() {
    let g = ring(11);
    let sides = random_sides(11);
    let whole = cut_of_sides(&g, &sides);
    let edges = g.all_edges();
    let cuts: Vec<Vec<Edge>> = slice_bounds(edges.len(), 4).iter().map(|&(lo, hi)| cut_edges(&edges[lo..hi], &sides)).collect();
    assert_eq!(concat_parts(&cuts), whole);
}

#[test]
fn cut_of_sides_exact() {
    let g = Graph::build(4, &[(0, 1), (1, 2), (2, 3), (3, 0)]).unwrap();
    let cut = cut_of_sides(&g, &vec![true, false, false, true]);
    assert_eq!(cut, vec![Edge(0, 1), Edge(2, 3)]);
}

#[test]
fn random_sides_has_requested_length() {
    assert_eq!(random_sides(0).len(), 0);
    assert_eq!(random_sides(13).len(), 13);
}

#[test]
fn slice_bounds_are_contiguous_and_even() {
    assert_eq!(slice_bounds(10, 4), vec![(0, 3), (3, 6), (6, 8), (8, 10)]);
    assert_eq!(slice_bounds(2, 4), vec![(0, 1), (1, 2), (2, 2), (2, 2)]);
    assert_eq!(slice_bounds(0, 2), vec![(0, 0), (0, 0)]);
}

#[test]
fn concat_joins_in_order() {
    assert_eq!(concat_parts(&vec![vec![1, 2], vec![], vec![3]]), vec![1, 2, 3]);
}

#[test]
fn keep_best_prefers_strictly_larger() {
    let best = vec![Edge(0, 1)];
    let a = vec![Edge(1, 2)];
    let b = vec![Edge(0, 2), Edge(1, 3)];
    let c = vec![Edge(0, 3), Edge(2, 3)];
    assert_eq!(keep_best(best.clone(), vec![a.clone()]), best);
    assert_eq!(keep_best(best.clone(), vec![a, b.clone(), c]), b);
    assert_eq!(keep_best(vec![], vec![]), vec![]);
}

#[test]
fn keep_best_never_shrinks() {
    let mut best: Vec<Edge> = vec![];
    let g = ring(12);
    for _ in 0..10 {
        let results: Vec<Vec<Edge>> = (0..3).map(|_| rand_aprox(&g)).collect();
        let before = best.len();
        best = keep_best(best, results);
        assert!(best.len() >= before);
    }
}

#[test]
fn round_rule() {
    assert!(!needs_another_round(0, 0, 0));
    assert!(!needs_another_round(0, 1, 0));
    assert!(needs_another_round(2, 5, 10));
    assert!(!needs_another_round(3, 5, 10));
    assert!(!needs_another_round(2, 4, 10));
    assert!(!needs_another_round(1, 3, 1));
    assert!(needs_another_round(0, 3, 1));
    assert!(!needs_another_round(usize::MAX, usize::MAX, usize::MAX));
}

#[test]
fn rounds_stop_on_one_vertex() {
    let g = Graph::new_empty(1);
    assert!(!needs_another_round(0, g.size(), g.edge_size()));
    let g = Graph::new_empty(0);
    assert!(!needs_another_round(0, g.size(), g.edge_size()));
}

#[test]
fn worker_count_falls_back_to_eight() {
    assert_eq!(worker_count(None), 8);
    assert_eq!(worker_count(Some(3)), 3);
}
