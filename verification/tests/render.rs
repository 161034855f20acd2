use matrix::{render_grid, Matrix};

fn labels(texts: &[&str]) -> Vec<String> {
    texts.iter().map(|t| t.to_string()).collect()
}

#[test]
fn render_two_by_two() {
    let m = Matrix::from_vec(vec![vec![1, 2], vec![3, 4]]);
    assert_eq!(m.render(), "\n[ 1 2 ]\n[ 3 4 ]\n");
}

#[test]
fn render_pads_to_the_widest_cell_of_the_matrix() {
    let m = Matrix::from_vec(vec![vec![1, 200], vec![30, 4]]);
    assert_eq!(m.render(), "\n[   1 200 ]\n[  30   4 ]\n");
    let n = Matrix::from_vec(vec![vec![-1, 2], vec![3, 1000]]);
    assert_eq!(n.render(), "\n[   -1    2 ]\n[    3 1000 ]\n");
}

#[test]
fn render_of_one_cell() {
    let m = Matrix::from_vec(vec![vec![7]]);
    assert_eq!(m.render(), "\n[ 7 ]\n");
}

#[test]
fn render_of_one_column() {
    let m = Matrix::from_vec(vec![vec![1], vec![22], vec![333]]);
    assert_eq!(m.render(), "\n[   1 ]\n[  22 ]\n[ 333 ]\n");
}

#[test]
fn render_uses_the_display_text() {
    let m = Matrix::from_vec(vec![vec![1.5, 2.0], vec![-0.25, 10.0]]);
    assert_eq!(m.render(), "\n[   1.5     2 ]\n[ -0.25    10 ]\n");
    let t = Matrix::from_vec(vec![vec![true, false]]);
    assert_eq!(t.render(), "\n[  true false ]\n");
}

#[test]
fn render_follows_the_buffer() {
    let ragged = Matrix::from_vec(vec![vec![1, 2], vec![3]]);
    assert_eq!(ragged.render(), "\n[ 1 2 ]\n[ 3 ]\n");
}

#[test]
fn render_grid_lays_out_lines() {
    assert_eq!(render_grid(&labels(&["1", "2", "3", "4"]), 2), "\n[ 1 2 ]\n[ 3 4 ]\n");
    assert_eq!(render_grid(&labels(&["1", "2", "3", "4"]), 4), "\n[ 1 2 3 4 ]\n");
    assert_eq!(render_grid(&labels(&["1", "2", "3", "4"]), 1), "\n[ 1 ]\n[ 2 ]\n[ 3 ]\n[ 4 ]\n");
    assert_eq!(render_grid(&labels(&["1", "2", "3", "4"]), 3), "\n[ 1 2 3 ]\n[ 4 ]\n");
    assert_eq!(render_grid(&labels(&["1", "2", "3", "4"]), 9), "\n[ 1 2 3 4 ]\n");
}

#[test]
fn render_grid_right_aligns() {
    assert_eq!(render_grid(&labels(&["a", "bbb", "cc", ""]), 2), "\n[   a bbb ]\n[  cc     ]\n");
}

#[test]
fn render_grid_without_labels_is_a_line_break() {
    assert_eq!(render_grid(&Vec::new(), 3), "\n");
}

#[test]
fn render_grid_measures_bytes_and_pads_characters() {
    // "é" is two bytes and one character: the width is 2, and "é" gets one space.
    assert_eq!(render_grid(&labels(&["é", "x"]), 2), "\n[  é  x ]\n");
    assert_eq!(render_grid(&labels(&["日本", "abc"]), 1), "\n[     日本 ]\n[    abc ]\n");
}
