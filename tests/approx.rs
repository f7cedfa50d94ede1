use max_cut::approx::{max_cut_greedy, max_cut_greedy_impr};
use max_cut::graph::{Edge, Graph};

fn edges_of_graph_without_repeats(g: &Graph, cut: &[Edge]) -> bool {
    let all = g.all_edges();
    cut.iter().all(|e| all.contains(e))
        && cut.iter().enumerate().all(|(i, e)| !cut[i + 1..].contains(e))
}

/// Whether some side assignment puts the ends of exactly the edges in `cut`
/// on different sides; found by propagating sides over the graph.
fn crosses_some_partition(g: &Graph, cut: &[Edge]) -> bool {
    let n = g.size();
    let mut side: Vec<Option<bool>> = vec![None; n];
    for start in 0..n {
        if side[start].is_some() {
            continue;
        }
        side[start] = Some(false);
        let mut stack = vec![start];
        while let Some(v) = stack.pop() {
            for u in g.get_neighbors(v) {
                let (a, b) = if u < v { (u, v) } else { (v, u) };
                let crossing = cut.contains(&Edge(a, b));
                let want = side[v].unwrap() ^ crossing;
                match side[u] {
                    None => {
                        side[u] = Some(want);
                        stack.push(u);
                    }
                    Some(s) if s != want => return false,
                    _ => {}
                }
            }
        }
    }
    true
}

#[test]
fn greedy_four_cycle_cuts_all_edges() {
    let g = Graph::build(4, &[(0, 1), (1, 2), (2, 3), (3, 0)]).unwrap();
    let cut = max_cut_greedy_impr(&g);
    assert_eq!(cut.len(), 4);
    assert!(edges_of_graph_without_repeats(&g, &cut));
    assert!(crosses_some_partition(&g, &cut));
}

#[test]
fn greedy_triangle_cuts_two_edges() {
    let g = Graph::build(3, &[(0, 1), (1, 2), (2, 0)]).unwrap();
    let cut = max_cut_greedy_impr(&g);
    assert_eq!(cut.len(), 2);
    assert_eq!(cut, vec![Edge(0, 1), Edge(1, 2)]);
}

#[test]
fn greedy_empty_and_single_edge() {
    assert!(max_cut_greedy_impr(&Graph::new_empty(0)).is_empty());
    assert!(max_cut_greedy_impr(&Graph::new_empty(3)).is_empty());
    let g = Graph::build(2, &[(0, 1)]).unwrap();
    assert_eq!(max_cut_greedy_impr(&g), vec![Edge(0, 1)]);
}

#[test]
fn greedy_is_deterministic() {
    let g = Graph::build(6, &[(0, 1), (0, 2), (1, 2), (2, 3), (3, 4), (4, 5), (5, 0), (1, 4)]).unwrap();
    assert_eq!(max_cut_greedy_impr(&g), max_cut_greedy_impr(&g));
}

#[test]
fn greedy_cuts_at_least_half() {
    let mut pairs = vec![];
    for a in 0..9usize {
        for b in 0..9usize {
            if (a * 7 + b * 3) % 4 == 0 && a != b {
                pairs.push((a, b));
            }
        }
    }
    let g = Graph::build(9, &pairs).unwrap();
    let cut = max_cut_greedy_impr(&g);
    assert!(cut.len() >= g.edge_size() / 2);
    assert!(crosses_some_partition(&g, &cut));
    assert!(edges_of_graph_without_repeats(&g, &cut));
}

#[test]
fn greedy_complete_graph_value() {
    let mut pairs = vec![];
    for a in 0..5usize {
        for b in a + 1..5usize {
            pairs.push((a, b));
        }
    }
    let g = Graph::build(5, &pairs).unwrap();
    // Vertex 0 and 2 and 4 on one side, 1 and 3 on the other: 6 of 10 edges.
    assert_eq!(max_cut_greedy_impr(&g).len(), 6);
}

#[test]
fn plain_greedy_returns_a_cut() {
    let g = Graph::build(4, &[(0, 1), (1, 2), (2, 3), (3, 0)]).unwrap();
    let cut = max_cut_greedy(&g);
    assert_eq!(cut, vec![Edge(0, 3), Edge(2, 3)]);
    let t = Graph::build(3, &[(0, 1), (1, 2), (2, 0)]).unwrap();
    let cut = max_cut_greedy(&t);
    assert_eq!(cut.len(), 2);
    assert!(edges_of_graph_without_repeats(&t, &cut));
}
