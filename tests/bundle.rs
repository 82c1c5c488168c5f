use marlin_indexer::codec::DecodeError;
use marlin_indexer::compose::{compose_matrix_polynomials, MatrixPolynomials};
use marlin_indexer::domain::EvaluationDomain;
use marlin_indexer::field::Fp;
use marlin_indexer::matrix::Matrix;

fn f(v: u64) -> Fp {
    Fp::from_u64(v)
}

fn sample(name: &str) -> MatrixPolynomials {
    let m = Matrix(vec![vec![(f(3), 1)], vec![(f(5), 0), (f(7), 1)]]);
    let dom = |n| EvaluationDomain::new(n).unwrap();
    compose_matrix_polynomials(name, &m, &dom(1), &dom(2), &dom(4), &dom(8)).unwrap()
}

fn vals(v: &[Fp]) -> Vec<u64> {
    v.iter().map(|x| x.value()).collect()
}

fn same(a: &MatrixPolynomials, b: &MatrixPolynomials) {
    for (x, y) in [(&a.row, &b.row), (&a.col, &b.col), (&a.val, &b.val), (&a.row_col, &b.row_col)] {
        assert_eq!(x.label, y.label);
        assert_eq!(vals(&x.polynomial), vals(&y.polynomial));
    }
    assert_eq!(vals(&a.row_evals_on_k), vals(&b.row_evals_on_k));
    assert_eq!(vals(&a.col_evals_on_k), vals(&b.col_evals_on_k));
    assert_eq!(vals(&a.val_evals_on_k), vals(&b.val_evals_on_k));
    assert_eq!(vals(&a.row_evals_on_b), vals(&b.row_evals_on_b));
    assert_eq!(vals(&a.col_evals_on_b), vals(&b.col_evals_on_b));
    assert_eq!(vals(&a.val_evals_on_b), vals(&b.val_evals_on_b));
    assert_eq!(vals(&a.row_col_evals_on_b), vals(&b.row_col_evals_on_b));
}

#[test]
fn bundle_round_trip() {
    let p = sample("a");
    let bytes = p.write();
    // four labeled polynomials of 4 coefficients, three vectors on K, four on B
    let expected = (4 + 5) + (4 + 5) + (4 + 5) + (4 + 9) + 4 * (4 + 16) + 3 * (4 + 16) + 4 * (4 + 32);
    assert_eq!(bytes.len(), expected);
    assert_eq!(&bytes[0..9], &[5, 0, 0, 0, b'a', b'_', b'r', b'o', b'w']);
    let (back, end) = MatrixPolynomials::read(&bytes, 0).unwrap();
    assert_eq!(end, bytes.len());
    same(&p, &back);
}

#[test]
fn bundle_round_trip_keeps_non_ascii_labels() {
    let p = sample("mätrix");
    let bytes = p.write();
    let (back, _) = MatrixPolynomials::read(&bytes, 0).unwrap();
    assert_eq!(back.row.label, "mätrix_row");
    assert_eq!(back.row_col.label, "mätrix_row_col");
    same(&p, &back);
}

#[test]
fn bundle_rejects_invalid_utf8_label() {
    let p = sample("a");
    let mut bytes = p.write();
    bytes[4] = 0xff;
    assert_eq!(MatrixPolynomials::read(&bytes, 0).unwrap_err(), DecodeError::InvalidValue);
}

#[test]
fn bundle_rejects_truncation() {
    let p = sample("a");
    let bytes = p.write();
    for cut in [0, 3, 8, 20, bytes.len() - 1] {
        assert_eq!(
            MatrixPolynomials::read(&bytes[..cut].to_vec(), 0).unwrap_err(),
            DecodeError::UnexpectedEnd
        );
    }
}
