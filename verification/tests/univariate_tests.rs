use gkr::field::Fe;
use gkr::univariate::{Monomial, UnivariatePolynomial};

fn fe(v: u64) -> Fe {
    Fe::from_u64(v)
}

#[test]
fn lib_test_evaluate() {
    let default = UnivariatePolynomial::default();
    let m1 = Monomial::new(2, fe(3));
    let m2 = Monomial::new(1, fe(2));
    let m3 = Monomial::new(0, fe(5));

    let p = UnivariatePolynomial { monomials: vec![m1, m2, m3], ..default };
    let result = p.evaluate(fe(4));
    assert_eq!(result, fe(61));
}

#[test]
fn lib_test_degree() {
    let default = UnivariatePolynomial::default();
    let m1 = Monomial::new(2, fe(3));
    let m2 = Monomial::new(1, fe(2));

    let mut p = UnivariatePolynomial { monomials: vec![m1, m2], ..default };
    let result = p.degree();
    assert_eq!(result, Some(2));
}

#[test]
fn lib_test_multiplication() {
    let default = UnivariatePolynomial::default();
    let m1 = Monomial::new(3, fe(4));
    let m2 = Monomial::new(2, fe(3));
    let m5 = Monomial::new(1, fe(3));
    let m3 = Monomial::new(2, fe(5));
    let m4 = Monomial::new(1, fe(7));

    let p1 = UnivariatePolynomial { monomials: vec![m1, m2, m5], ..default };
    let default2 = UnivariatePolynomial::default();
    let p2 = UnivariatePolynomial { monomials: vec![m3, m4], ..default2 };
    let result = p1.multiply(&p2);
    assert_eq!(result.monomials[0].coefficients, fe(20));
    assert_eq!(result.monomials[1].coefficients, fe(43));
    assert_eq!(result.monomials[2].coefficients, fe(36));
    assert_eq!(result.monomials[3].coefficients, fe(21));
    assert_eq!(result.monomials[0].exponent, 5);
    assert_eq!(result.monomials[1].exponent, 4);
    assert_eq!(result.monomials[2].exponent, 3);
    assert_eq!(result.monomials[3].exponent, 2);
}

#[test]
fn lib_test_interpolate() {
    let x = vec![fe(1), fe(2), fe(3)];
    let y = vec![fe(1), fe(4), fe(9)];
    let result = UnivariatePolynomial::interpolate(x, y);
    assert_eq!(result.monomials[0].coefficients, fe(1));
    assert_eq!(result.monomials[0].exponent, 2);
}

#[test]
fn main_test_interpolate() {}

#[test]
fn test_interpolate_passes_through_points() {
    let x = vec![fe(0), fe(1), fe(2)];
    let y = vec![fe(7), fe(11), fe(23)];
    let result = UnivariatePolynomial::interpolate(x.clone(), y.clone());
    for i in 0..x.len() {
        assert_eq!(result.evaluate(x[i]), y[i]);
    }
}
