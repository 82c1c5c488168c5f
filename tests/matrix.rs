use marlin_indexer::codec::DecodeError;
use marlin_indexer::field::{Fp, P};
use marlin_indexer::matrix::{matrix_density, sort_matrix_columns, Matrix};

fn f(v: u64) -> Fp {
    Fp::from_u64(v)
}

fn plain(m: &Matrix) -> Vec<Vec<(u64, usize)>> {
    m.0.iter().map(|r| r.iter().map(|(v, c)| (v.value(), *c)).collect()).collect()
}

#[test]
fn density_of_empty_and_ragged_matrices() {
    assert_eq!(matrix_density(&Matrix(vec![])), 0);
    let m = Matrix(vec![
        vec![(f(1), 0), (f(2), 1)],
        vec![],
        vec![(f(3), 0), (f(4), 2), (f(5), 3)],
    ]);
    assert_eq!(matrix_density(&m), 5);
}

#[test]
fn sort_orders_rows_by_column() {
    let mut m = Matrix(vec![
        vec![(f(1), 3), (f(2), 0), (f(3), 2)],
        vec![(f(4), 1), (f(5), 2)],
        vec![],
    ]);
    sort_matrix_columns(&mut m);
    assert_eq!(
        plain(&m),
        vec![vec![(2, 0), (3, 2), (1, 3)], vec![(4, 1), (5, 2)], vec![]]
    );
}

#[test]
fn sort_is_idempotent_and_keeps_sorted_rows() {
    let mut m = Matrix(vec![vec![(f(9), 5), (f(8), 1), (f(7), 5), (f(6), 0)]]);
    sort_matrix_columns(&mut m);
    let once = plain(&m);
    assert_eq!(once, vec![vec![(6, 0), (8, 1), (9, 5), (7, 5)]]);
    sort_matrix_columns(&mut m);
    assert_eq!(plain(&m), once);

    let mut sorted = Matrix(vec![vec![(f(1), 0), (f(2), 4)], vec![(f(3), 2)]]);
    let before = plain(&sorted);
    sort_matrix_columns(&mut sorted);
    assert_eq!(plain(&sorted), before);
}

#[test]
fn matrix_bytes_round_trip() {
    let m = Matrix(vec![
        vec![(f(1), 0), (f(P - 1), 7)],
        vec![],
        vec![(f(123456), 1 << 40)],
    ]);
    let bytes = m.write();
    assert_eq!(bytes.len(), 4 + 4 + 2 * 12 + 4 + 4 + 12);
    assert_eq!(&bytes[0..4], &[3, 0, 0, 0]);
    assert_eq!(&bytes[4..8], &[2, 0, 0, 0]);
    assert_eq!(&bytes[8..12], &[1, 0, 0, 0]);
    let (back, end) = Matrix::read(&bytes, 0).unwrap();
    assert_eq!(end, bytes.len());
    assert_eq!(plain(&back), plain(&m));
}

#[test]
fn empty_matrix_round_trip_with_offset_and_trailing_bytes() {
    let m = Matrix(vec![]);
    let bytes = m.write();
    assert_eq!(bytes, vec![0, 0, 0, 0]);
    let mut framed = vec![9u8, 9];
    framed.extend_from_slice(&bytes);
    framed.push(1);
    let (back, end) = Matrix::read(&framed, 2).unwrap();
    assert_eq!(end, 6);
    assert!(back.0.is_empty());
}

#[test]
fn truncated_bytes_are_rejected() {
    let m = Matrix(vec![vec![(f(5), 2)]]);
    let bytes = m.write();
    for cut in 0..bytes.len() {
        assert_eq!(
            Matrix::read(&bytes[..cut].to_vec(), 0).unwrap_err(),
            DecodeError::UnexpectedEnd
        );
    }
    assert_eq!(Matrix::read(&vec![255, 255, 255, 255], 0).unwrap_err(), DecodeError::UnexpectedEnd);
}

#[test]
fn non_canonical_value_is_rejected() {
    let m = Matrix(vec![vec![(f(5), 2)]]);
    let mut bytes = m.write();
    let p = (P as u32).to_le_bytes();
    bytes[8..12].copy_from_slice(&p);
    assert_eq!(Matrix::read(&bytes, 0).unwrap_err(), DecodeError::InvalidValue);
}
