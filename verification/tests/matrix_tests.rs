use gannai::matrix::MatrixBuf;

#[test]
fn matrix_test_new_should_succeed() {
    MatrixBuf::new(42, 4.2);
}

#[test]
fn test_column_len_should_succeed() {
    assert_eq!(MatrixBuf::new(42, 4.2).as_matrix().column_len(), 42);
}

#[test]
fn test_row_should_succeed() {
    let matrix = MatrixBuf::new(42, 4.2);
    assert_eq!(matrix.as_matrix().row(13)[7], 4.2);
}

#[test]
fn test_set_should_succeed() {
    let mut matrix = MatrixBuf::new(42, 4.2);
    matrix.as_matrix_mut().set(13, 7, 0.42);
    assert_eq!(matrix.as_matrix().row(13)[7], 0.42);
}

#[test]
fn test_set_by_index_should_succeed() {
    let mut matrix = MatrixBuf::new(42, 4.2);
    matrix.as_matrix_mut().set_by_index(42 * 13 + 7, 0.42);
    assert_eq!(matrix.as_matrix().row(13)[7], 0.42);
}

#[test]
fn test_partial_eq_should_succeed() {
    assert_eq!(
        MatrixBuf::new(42, 4.2).as_matrix(),
        MatrixBuf::new(42, 4.2).as_matrix()
    );
}

#[test]
fn test_partial_eq_detects_differences() {
    let a = MatrixBuf::new(3, 1.5);
    let mut b = MatrixBuf::new(3, 1.5);
    b.as_matrix_mut().set(2, 1, 2.5);
    assert_ne!(a.as_matrix(), b.as_matrix());
    assert_ne!(
        MatrixBuf::new(2, 1.0f64).as_matrix(),
        MatrixBuf::new(3, 1.0f64).as_matrix()
    );
}

#[test]
fn test_matrix_mut_values_write_through() {
    let mut matrix = MatrixBuf::new(2, 0.0);
    {
        let mut view = matrix.as_matrix_mut();
        let values = view.values();
        values[3] = 9.5;
    }
    assert_eq!(matrix.as_matrix().values(), &[0.0, 0.0, 0.0, 9.5]);
}
