use wave_coherence::matrix::Mat;

fn m(rows: usize, cols: usize) -> Mat<i32> {
    Mat::from_vec((0..(rows * cols) as i32).collect(), rows, cols)
}

#[test]
fn transpose_entries() {
    let a = m(2, 3);
    let t = a.transpose();
    assert_eq!((t.rows, t.cols), (3, 2));
    assert_eq!(t.data, vec![0, 3, 1, 4, 2, 5]);
    let u = t.transpose();
    assert_eq!(u.data, a.data);
    assert_eq!((u.rows, u.cols), (2, 3));
}

#[test]
fn at_and_row() {
    let a = m(3, 4);
    assert_eq!(a.at(2, 1), 9);
    assert_eq!(a.row(1), &[4, 5, 6, 7]);
}

#[test]
fn slices() {
    let a = m(4, 3);
    let r = a.slice_rows(1, 3);
    assert_eq!((r.rows, r.cols), (2, 3));
    assert_eq!(r.data, vec![3, 4, 5, 6, 7, 8]);
    let c = a.slice_cols(1, 3);
    assert_eq!((c.rows, c.cols), (4, 2));
    assert_eq!(c.data, vec![1, 2, 4, 5, 7, 8, 10, 11]);
    let e = a.slice_cols(2, 2);
    assert_eq!((e.rows, e.cols), (4, 0));
}

#[test]
fn gather_and_hcat() {
    let a = m(3, 2);
    let g = a.gather_rows(&[2, 0, 2]);
    assert_eq!(g.data, vec![4, 5, 0, 1, 4, 5]);
    let h = a.hcat(&m(3, 1));
    assert_eq!((h.rows, h.cols), (3, 3));
    assert_eq!(h.data, vec![0, 1, 0, 2, 3, 1, 4, 5, 2]);
    let back = h.slice_cols(0, 2);
    assert_eq!(back.data, a.data);
}

#[test]
fn set_cols_and_copy_rows() {
    let mut a = m(2, 4);
    a.set_cols(1, &Mat::from_vec(vec![-1, -2, -3, -4], 2, 2));
    assert_eq!(a.data, vec![0, -1, -2, 3, 4, -3, -4, 7]);
    let mut b = m(3, 2);
    b.copy_rows_from(1, &Mat::from_vec(vec![9, 9], 1, 2));
    assert_eq!(b.data, vec![0, 1, 9, 9, 4, 5]);
}

#[test]
fn filled_matrix() {
    let z: Mat<f64> = Mat::filled(2, 3, 0.0);
    assert_eq!((z.rows, z.cols), (2, 3));
    assert_eq!(z.data, vec![0.0; 6]);
    let o: Mat<i32> = Mat::filled(0, 5, 1);
    assert!(o.data.is_empty());
}

#[test]
fn causal_mask_fills_above_the_diagonal() {
    let mut a = m(3, 3);
    a.fill_above_diagonal(-1);
    assert_eq!(a.data, vec![0, -1, -1, 3, 4, -1, 6, 7, 8]);
    let mut one = m(1, 1);
    one.fill_above_diagonal(9);
    assert_eq!(one.data, vec![0]);
    let mut s: Mat<f64> = Mat::filled(2, 2, 0.5);
    s.fill_above_diagonal(f64::NEG_INFINITY);
    assert_eq!(s.data, vec![0.5, f64::NEG_INFINITY, 0.5, 0.5]);
}
