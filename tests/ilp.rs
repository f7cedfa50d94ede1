use max_cut::graph::{Edge, Graph};
use max_cut::ilp::MaxCutIlp;

#[test]
fn ilp_reads_cut_from_solution() {
    let g = Graph::build(3, &[(0, 1), (1, 2), (2, 0)]).unwrap();
    let ilp = MaxCutIlp::new(&g);
    assert_eq!(ilp.vertex_count(), 3);
    assert_eq!(ilp.edges(), &vec![Edge(0, 1), Edge(0, 2), Edge(1, 2)]);
    assert_eq!(ilp.cut_from_solution(&vec![true, false, true]), vec![Edge(0, 1), Edge(1, 2)]);
}
