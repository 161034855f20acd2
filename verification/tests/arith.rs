use matrix::Matrix;

fn flat<T: Copy + Default>(m: &Matrix<T>) -> Vec<T> {
    let mut out = Vec::new();
    for row in m.rows() {
        out.extend_from_slice(row);
    }
    out
}

#[test]
fn add_adds_to_every_cell() {
    let m = Matrix::from_vec(vec![vec![1, 2], vec![3, 4]]);
    let r = m.add(10);
    assert_eq!(r.shape(), (2, 2));
    assert_eq!(flat(&r), vec![11, 12, 13, 14]);
    assert_eq!(flat(&m), vec![1, 2, 3, 4]);
}

#[test]
fn subtract_subtracts_from_every_cell() {
    let m = Matrix::from_vec(vec![vec![1, 2, 3], vec![4, 5, 6]]);
    let r = m.subtract(1);
    assert_eq!(r.shape(), (2, 3));
    assert_eq!(flat(&r), vec![0, 1, 2, 3, 4, 5]);
}

#[test]
fn multiply_scales_every_cell() {
    let m = Matrix::from_vec(vec![vec![1, 2], vec![3, 4], vec![5, 6]]);
    let r = m.multiply(3);
    assert_eq!(r.shape(), (3, 2));
    assert_eq!(flat(&r), vec![3, 6, 9, 12, 15, 18]);
}

#[test]
fn scalar_operations_on_floats() {
    let m = Matrix::from_vec(vec![vec![1.5, 2.5]]);
    assert_eq!(flat(&m.add(0.5)), vec![2.0, 3.0]);
    assert_eq!(flat(&m.subtract(0.5)), vec![1.0, 2.0]);
    assert_eq!(flat(&m.multiply(2.0)), vec![3.0, 5.0]);
}

#[test]
fn scalar_operations_on_an_unfilled_matrix() {
    let m: Matrix<i32> = Matrix::new(2, 2);
    let r = m.add(1);
    assert_eq!(r.shape(), (2, 2));
    assert_eq!(r.at(0, 0), None);
}

#[test]
fn matrix_add_adds_cell_by_cell() {
    let a = Matrix::from_vec(vec![vec![1, 2], vec![3, 4]]);
    let b = Matrix::from_vec(vec![vec![10, 20], vec![30, 40]]);
    let s = a.matrix_add(&b).unwrap();
    assert_eq!(s.shape(), (2, 2));
    assert_eq!(flat(&s), vec![11, 22, 33, 44]);
    assert_eq!(s.at(1, 0), Some(&33));
    assert_eq!(flat(&a), vec![1, 2, 3, 4]);
    assert_eq!(flat(&b), vec![10, 20, 30, 40]);
}

#[test]
fn matrix_add_of_default_matrices_is_a_default_matrix() {
    let a: Matrix<i64> = Matrix::new_empty(3, 2);
    let b: Matrix<i64> = Matrix::new_empty(3, 2);
    let s = a.matrix_add(&b).unwrap();
    assert_eq!(s.shape(), (3, 2));
    assert_eq!(flat(&s), vec![0; 6]);
    let x: Matrix<f64> = Matrix::new_empty(2, 2);
    let y: Matrix<f64> = Matrix::new_empty(2, 2);
    assert_eq!(flat(&x.matrix_add(&y).unwrap()), vec![0.0; 4]);
}

#[test]
fn matrix_add_rejects_other_shapes() {
    let a: Matrix<i32> = Matrix::new_empty(2, 2);
    let b: Matrix<i32> = Matrix::new_empty(3, 2);
    assert!(a.matrix_add(&b).is_none());
    assert!(b.matrix_add(&a).is_none());
    let c: Matrix<i32> = Matrix::new_empty(2, 3);
    assert!(a.matrix_add(&c).is_none());
    let d: Matrix<i32> = Matrix::new_empty(1, 4);
    assert!(a.matrix_add(&d).is_none());
}

#[test]
fn matrix_add_ends_with_the_shorter_buffer() {
    let a = Matrix::from_vec(vec![vec![1, 2], vec![3, 4]]);
    let b: Matrix<i32> = Matrix::new(2, 2);
    let s = a.matrix_add(&b).unwrap();
    assert_eq!(s.shape(), (2, 2));
    assert_eq!(s.at(0, 0), None);
    let c = Matrix::from_vec(vec![vec![10, 20], vec![30]]);
    let t = a.matrix_add(&c).unwrap();
    assert_eq!(flat(&t), vec![11, 22, 33]);
}

#[test]
fn matrix_multiply_of_square_matrices() {
    let a = Matrix::from_vec(vec![vec![1, 2], vec![3, 4]]);
    let b = Matrix::from_vec(vec![vec![5, 6], vec![7, 8]]);
    let p = a.matrix_multiply(&b).unwrap();
    assert_eq!(p.shape(), (2, 2));
    assert_eq!(flat(&p), vec![19, 22, 43, 50]);
    let q = b.matrix_multiply(&a).unwrap();
    assert_eq!(flat(&q), vec![23, 34, 31, 46]);
}

#[test]
fn matrix_multiply_by_the_identity() {
    let a = Matrix::from_vec(vec![vec![2, 3, 5], vec![7, 11, 13], vec![17, 19, 23]]);
    let id = Matrix::from_vec(vec![vec![1, 0, 0], vec![0, 1, 0], vec![0, 0, 1]]);
    assert_eq!(flat(&a.matrix_multiply(&id).unwrap()), flat(&a));
    assert_eq!(flat(&id.matrix_multiply(&a).unwrap()), flat(&a));
}

#[test]
fn matrix_multiply_of_one_by_one() {
    let a = Matrix::from_vec(vec![vec![6]]);
    let b = Matrix::from_vec(vec![vec![7]]);
    assert_eq!(flat(&a.matrix_multiply(&b).unwrap()), vec![42]);
}

#[test]
fn matrix_multiply_rejects_other_shapes() {
    let a: Matrix<i32> = Matrix::new_empty(2, 2);
    let b: Matrix<i32> = Matrix::new_empty(3, 2);
    assert!(a.matrix_multiply(&b).is_none());
    let wide: Matrix<i32> = Matrix::new_empty(2, 3);
    let tall: Matrix<i32> = Matrix::new_empty(3, 2);
    assert!(wide.matrix_multiply(&tall).is_none());
    assert!(tall.matrix_multiply(&wide).is_none());
}

#[test]
fn matrix_multiply_of_wide_matrices() {
    let a = Matrix::from_vec(vec![vec![1, 2]]);
    let b = Matrix::from_vec(vec![vec![3, 4]]);
    let p = a.matrix_multiply(&b).unwrap();
    assert_eq!(p.shape(), (1, 2));
    assert_eq!(flat(&p), vec![3, 4]);
}

#[test]
fn matrix_multiply_of_tall_matrices() {
    let a = Matrix::from_vec(vec![vec![1], vec![2]]);
    let b = Matrix::from_vec(vec![vec![3], vec![4]]);
    let p = a.matrix_multiply(&b).unwrap();
    assert_eq!(p.shape(), (2, 1));
    assert_eq!(flat(&p), vec![11, 6]);
}

#[test]
fn matrix_multiply_of_unfilled_matrices_is_filled_with_defaults() {
    let a: Matrix<i32> = Matrix::new(2, 2);
    let b: Matrix<i32> = Matrix::new(2, 2);
    let p = a.matrix_multiply(&b).unwrap();
    assert_eq!(p.shape(), (2, 2));
    assert_eq!(flat(&p), vec![0; 4]);
}

#[test]
fn matrix_multiply_with_no_cells() {
    let a: Matrix<i32> = Matrix::new_empty(0, 3);
    let b: Matrix<i32> = Matrix::new_empty(0, 3);
    let p = a.matrix_multiply(&b).unwrap();
    assert_eq!(p.shape(), (0, 3));
    assert_eq!(p.at(0, 0), None);
}
