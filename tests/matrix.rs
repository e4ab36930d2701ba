use daemon_thread::matrix::Matrix;

#[test]
fn matrix_shape_is_checked() {
    assert!(Matrix::new(2, 3, vec![false; 6]).is_some());
    assert!(Matrix::new(2, 3, vec![false; 5]).is_none());
    assert!(Matrix::new(usize::MAX, 2, Vec::new()).is_none());
    let m = Matrix::new(0, 0, Vec::new()).unwrap();
    assert!(m.same_as(&Matrix::empty()));
}

#[test]
fn matrix_cells_read_row_major() {
    let m = Matrix::new(2, 2, vec![true, false, false, true]).unwrap();
    assert_eq!(m.rows(), 2);
    assert_eq!(m.cols(), 2);
    assert_eq!(m.get(0, 0), Some(true));
    assert_eq!(m.get(0, 1), Some(false));
    assert_eq!(m.get(1, 0), Some(false));
    assert_eq!(m.get(1, 1), Some(true));
    assert_eq!(m.get(2, 0), None);
    assert_eq!(m.get(0, 2), None);
}

#[test]
fn matrix_equality_and_copy() {
    let a = Matrix::new(1, 3, vec![true, true, false]).unwrap();
    let b = Matrix::new(3, 1, vec![true, true, false]).unwrap();
    let c = Matrix::new(1, 3, vec![true, false, false]).unwrap();
    assert!(!a.same_as(&b));
    assert!(!a.same_as(&c));
    assert!(a.same_as(&a.duplicate()));
}
