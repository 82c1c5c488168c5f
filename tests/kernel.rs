use marlin_indexer::domain::EvaluationDomain;
use marlin_indexer::field::{Fp, P};

fn f(v: u64) -> Fp {
    Fp::from_u64(v)
}

#[test]
fn bivariate_eval_is_symmetric_and_matches_quotient() {
    let d = EvaluationDomain::new(4).unwrap();
    let (x, y) = (f(3), f(10));
    let a = d.bivariate_eval(&x, &y);
    let b = d.bivariate_eval(&y, &x);
    assert_eq!(a.value(), b.value());
    // (3^4 - 10^4) / (3 - 10) = (81 - 10000) / -7 = 1417
    assert_eq!(a.value(), 1417);
    // on the diagonal: 4 * x^3
    assert_eq!(d.bivariate_eval(&x, &x).value(), 108);
}

#[test]
fn batch_evals_match_bivariate_eval_off_the_domain() {
    let d = EvaluationDomain::new(8).unwrap();
    let x = f(123456);
    let got = d.batch_evals(&x);
    let e = d.elements();
    assert_eq!(got.len(), 8);
    for i in 0..8 {
        assert_eq!(got[i].value(), d.bivariate_eval(&x, &e[i]).value());
    }
}

#[test]
fn batch_evals_at_a_domain_point() {
    let d = EvaluationDomain::new(4).unwrap();
    let e = d.elements();
    let got = d.batch_evals(&e[1]);
    assert!(got.iter().all(|v| v.is_zero()));
}

#[test]
fn diagonal_evals_match_kernel_on_the_diagonal() {
    let d = EvaluationDomain::new(8).unwrap();
    let diag = d.diagonal_evals();
    let e = d.elements();
    assert_eq!(diag.len(), 8);
    assert_eq!(diag[0].value(), 8);
    for i in 0..8 {
        assert_eq!(diag[i].value(), d.bivariate_eval(&e[i], &e[i]).value());
    }
    for i in 1..8 {
        assert_eq!(diag[i].value(), f(8).mul(&e[8 - i]).value());
    }
    assert_eq!(EvaluationDomain::new(1).unwrap().diagonal_evals()[0].value(), 1);
    assert_eq!(EvaluationDomain::new(2).unwrap().diagonal_evals()[1].value(), P - 2);
}
