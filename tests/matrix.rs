use max_cut::quad_matrix_bool;
use max_cut::quad_matrix_usize;

#[test]
fn quad_matrix_bool_get_set() {
    let mut m = quad_matrix_bool::QuadMatrixBool::new_epmty(3);
    assert_eq!(m.size(), 3);
    assert!(!m.get(&(1, 2)));
    m.set(&(1, 2), true);
    assert!(m.get(&(1, 2)));
    assert!(!m.get(&(2, 1)));
}

#[test]
fn quad_matrix_bool_new_checks_shape() {
    let ok = quad_matrix_bool::QuadMatrixBool::new(vec![vec![true, false], vec![false, true]]).unwrap();
    assert!(ok.get(&(0, 0)));
    assert!(!ok.get(&(0, 1)));
    let bad = quad_matrix_bool::QuadMatrixBool::new(vec![vec![true, false]]);
    assert_eq!(bad, Err(quad_matrix_bool::NotQuadError));
}

#[test]
fn quad_matrix_usize_get_set() {
    let mut m = quad_matrix_usize::QuadMatrixBool::new_epmty(2);
    assert_eq!(m.size(), 2);
    m.set((0, 1), true);
    assert!(m.get((0, 1)));
    assert!(!m.get((1, 0)));
    assert!(quad_matrix_usize::QuadMatrixBool::new(vec![vec![true], vec![false]]).is_err());
    assert_eq!(quad_matrix_usize::QuadMatrixBool::new(vec![vec![true]]).unwrap().size(), 1);
}
