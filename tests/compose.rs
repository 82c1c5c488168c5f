use marlin_indexer::compose::{compose_matrix_polynomials, ComposeError};
use marlin_indexer::domain::{evaluate_polynomial, EvaluationDomain};
use marlin_indexer::field::{Fp, P};
use marlin_indexer::matrix::Matrix;

fn f(v: u64) -> Fp {
    Fp::from_u64(v)
}

fn dom(n: u64) -> EvaluationDomain {
    EvaluationDomain::new(n).unwrap()
}

fn values(v: &[Fp]) -> Vec<u64> {
    v.iter().map(|x| x.value()).collect()
}

#[test]
fn composer_rejects_a_too_small_index_domain() {
    let m = Matrix(vec![
        vec![(f(1), 0), (f(2), 1)],
        vec![(f(3), 2)],
        vec![(f(4), 0), (f(5), 3)],
    ]);
    let r = compose_matrix_polynomials("a", &m, &dom(1), &dom(4), &dom(4), &dom(16));
    assert_eq!(r.unwrap_err(), ComposeError::IndexDomainTooSmall);
}

#[test]
fn composer_row_col_is_product_on_k_including_padding() {
    let m = Matrix(vec![
        vec![(f(1), 0), (f(2), 1)],
        vec![(f(3), 2)],
        vec![(f(4), 0), (f(5), 3)],
    ]);
    let (x, h, k, b) = (dom(2), dom(4), dom(8), dom(32));
    let p = compose_matrix_polynomials("a", &m, &x, &h, &k, &b).unwrap();
    let ke = k.elements();
    assert_eq!(p.row_evals_on_k.len(), 8);
    for t in 0..8 {
        let rc = evaluate_polynomial(&p.row_col.polynomial, &ke[t]);
        let prod = p.row_evals_on_k[t].mul(&p.col_evals_on_k[t]);
        assert_eq!(rc.value(), prod.value());
        assert_eq!(evaluate_polynomial(&p.row.polynomial, &ke[t]).value(), p.row_evals_on_k[t].value());
        assert_eq!(evaluate_polynomial(&p.val.polynomial, &ke[t]).value(), p.val_evals_on_k[t].value());
    }
    let he = h.elements();
    for t in 5..8 {
        assert_eq!(p.row_evals_on_k[t].value(), he[0].value());
        assert_eq!(p.col_evals_on_k[t].value(), he[0].value());
        assert!(p.val_evals_on_k[t].is_zero());
    }
    let be = b.elements();
    for t in 0..32 {
        assert_eq!(p.row_col_evals_on_b[t].value(), evaluate_polynomial(&p.row_col.polynomial, &be[t]).value());
        assert_eq!(p.val_evals_on_b[t].value(), evaluate_polynomial(&p.val.polynomial, &be[t]).value());
    }
    assert_eq!(p.row.label, "a_row");
    assert_eq!(p.col.label, "a_col");
    assert_eq!(p.val.label, "a_val");
    assert_eq!(p.row_col.label, "a_row_col");
}

#[test]
fn composer_exact_fit_has_no_padding() {
    let m = Matrix(vec![vec![(f(1), 0), (f(1), 1)], vec![(f(1), 0), (f(1), 1)]]);
    let (x, h) = (dom(1), dom(2));
    let p = compose_matrix_polynomials("m", &m, &x, &h, &dom(4), &dom(8)).unwrap();
    assert!(p.val_evals_on_k.iter().all(|v| !v.is_zero()));
}

#[test]
fn composer_identity_matrix_on_toy_domain() {
    let m = Matrix(vec![vec![(f(1), 0)], vec![(f(1), 1)]]);
    let (x, h, k, b) = (dom(1), dom(2), dom(2), dom(8));
    let p = compose_matrix_polynomials("id", &m, &x, &h, &k, &b).unwrap();
    let he = h.elements();
    let ke = k.elements();
    assert_eq!(values(&he), vec![1, P - 1]);
    let rows: Vec<u64> = ke.iter().map(|z| evaluate_polynomial(&p.row.polynomial, z).value()).collect();
    let cols: Vec<u64> = ke.iter().map(|z| evaluate_polynomial(&p.col.polynomial, z).value()).collect();
    let vals: Vec<Fp> = ke.iter().map(|z| evaluate_polynomial(&p.val.polynomial, z)).collect();
    assert_eq!(rows, vec![1, P - 1]);
    assert_eq!(cols, vec![1, P - 1]);
    let diag = h.diagonal_evals();
    // undo the normalisation by the diagonal kernel: the matrix values come back
    assert_eq!(vals[0].mul(&diag[0]).value(), 1);
    assert_eq!(vals[1].mul(&diag[1]).value(), 1);
    assert_eq!(values(&p.val_evals_on_k), vec![f(2).inverse().value(), f(P - 2).inverse().value()]);
    assert_eq!(p.row_evals_on_b.len(), 8);
}

#[test]
fn composer_on_empty_matrix_is_all_padding() {
    let m = Matrix(vec![]);
    let p = compose_matrix_polynomials("e", &m, &dom(1), &dom(2), &dom(4), &dom(4)).unwrap();
    assert!(p.val.polynomial.iter().all(|c| c.is_zero()));
    assert_eq!(values(&p.row_evals_on_k), vec![1, 1, 1, 1]);
    assert_eq!(values(&p.row.polynomial), vec![1, 0, 0, 0]);
}

#[test]
fn fits_domain_checks_rows_and_columns() {
    let h = dom(4);
    assert!(Matrix(vec![]).fits_domain(&h));
    assert!(Matrix(vec![vec![(f(1), 3)], vec![], vec![(f(2), 0)]]).fits_domain(&h));
    assert!(!Matrix(vec![vec![(f(1), 4)]]).fits_domain(&h));
    assert!(!Matrix(vec![vec![], vec![], vec![], vec![], vec![]]).fits_domain(&h));
}
