use marlin_indexer::domain::{evaluate_polynomial, EvaluationDomain};
use marlin_indexer::field::{batch_inversion, Fp, P};

fn f(v: u64) -> Fp {
    Fp::from_u64(v)
}

#[test]
fn field_reduces_and_multiplies() {
    assert_eq!(f(P + 5).value(), 5);
    assert_eq!(f(P - 1).add(&f(3)).value(), 2);
    assert_eq!(f(2).sub(&f(5)).value(), P - 3);
    assert_eq!(f(1 << 20).mul(&f(1 << 20)).value(), (1u64 << 40) % P);
    assert_eq!(f(3).pow(5).value(), 243);
    assert_eq!(f(7).pow(0).value(), 1);
}

#[test]
fn inverse_is_multiplicative_inverse() {
    for v in [1u64, 2, 3, 12345, P - 1, P - 2] {
        let x = f(v);
        assert_eq!(x.mul(&x.inverse()).value(), 1);
    }
    assert_eq!(f(0).inverse().value(), 0);
    assert_eq!(f(2).inverse().value(), (P + 1) / 2);
}

#[test]
fn batch_inversion_matches_single_inversions_and_skips_zero() {
    let mut v = vec![f(3), f(0), f(10), f(P - 1), f(0), f(77)];
    let expected: Vec<u64> = v.iter().map(|x| x.inverse().value()).collect();
    batch_inversion(&mut v);
    let got: Vec<u64> = v.iter().map(|x| x.value()).collect();
    assert_eq!(got, expected);
    assert_eq!(got[1], 0);
    assert_eq!(got[4], 0);
    let mut empty: Vec<Fp> = Vec::new();
    batch_inversion(&mut empty);
    assert!(empty.is_empty());
}

#[test]
fn domain_rounds_up_to_power_of_two() {
    let d = EvaluationDomain::new(3).unwrap();
    assert_eq!(d.size(), 4);
    assert_eq!(EvaluationDomain::new(0).unwrap().size(), 1);
    assert_eq!(EvaluationDomain::new(8).unwrap().size(), 8);
    assert_eq!(EvaluationDomain::new(9).unwrap().size(), 16);
    assert!(EvaluationDomain::new((1 << 27) + 1).is_none());
    assert_eq!(EvaluationDomain::new(1 << 27).unwrap().size(), 1 << 27);
}

#[test]
fn domain_elements_form_a_cyclic_group() {
    let d = EvaluationDomain::new(8).unwrap();
    let e = d.elements();
    assert_eq!(e.len(), 8);
    assert_eq!(e[0].value(), 1);
    assert_eq!(d.generator.pow(8).value(), 1);
    assert_eq!(d.generator.pow(4).value(), P - 1);
    for h in &e {
        assert!(d.evaluate_vanishing_polynomial(h).is_zero());
    }
    assert_eq!(d.evaluate_vanishing_polynomial(&f(2)).value(), 255);
    assert_eq!(d.generator.mul(&d.generator_inv).value(), 1);
}

#[test]
fn reindex_by_subdomain_places_subgroup_first() {
    let big = EvaluationDomain::new(8).unwrap();
    let small = EvaluationDomain::new(2).unwrap();
    let got: Vec<usize> = (0..8).map(|i| big.reindex_by_subdomain(&small, i)).collect();
    assert_eq!(got, vec![0, 4, 1, 2, 3, 5, 6, 7]);
    let same: Vec<usize> = (0..4)
        .map(|i| {
            let d = EvaluationDomain::new(4).unwrap();
            d.reindex_by_subdomain(&d, i)
        })
        .collect();
    assert_eq!(same, vec![0, 1, 2, 3]);
    let e_big = big.elements();
    let e_small = small.elements();
    for i in 0..2 {
        assert!(e_big[big.reindex_by_subdomain(&small, i)].equals(&e_small[i]));
    }
}

#[test]
fn fft_evaluates_and_interpolate_inverts_it() {
    let d = EvaluationDomain::new(4).unwrap();
    let coeffs = vec![f(5), f(0), f(2), f(9)];
    let evals = d.fft(&coeffs);
    let e = d.elements();
    for i in 0..4 {
        assert_eq!(evals[i].value(), evaluate_polynomial(&coeffs, &e[i]).value());
    }
    assert_eq!(evals[0].value(), 16);
    let back = d.interpolate(&evals);
    let got: Vec<u64> = back.iter().map(|x| x.value()).collect();
    assert_eq!(got, vec![5, 0, 2, 9]);
    let short = d.fft(&vec![f(3)]);
    assert!(short.iter().all(|x| x.value() == 3));
}
