use gkr::evaluation_form::EvaluationFormPolynomial;
use gkr::field::Fe;
use gkr::product_poly::{ProductPolynomial, SumPolynomial};

fn fe(v: u64) -> Fe {
    Fe::from_u64(v)
}

fn eval_poly(values: Vec<Fe>) -> EvaluationFormPolynomial {
    EvaluationFormPolynomial::new(&values).unwrap()
}

#[test]
fn test_sumpolynomial_reduce() {
    let poly = eval_poly(vec![fe(0), fe(3), fe(2), fe(5)]);
    let poly1 = eval_poly(vec![fe(0), fe(0), fe(0), fe(4)]);
    let product = ProductPolynomial::new(vec![poly, poly1]);

    let poly2 = eval_poly(vec![fe(0), fe(3), fe(2), fe(5)]);
    let poly3 = eval_poly(vec![fe(0), fe(0), fe(0), fe(4)]);
    let product1 = ProductPolynomial::new(vec![poly2, poly3]);

    let sum = SumPolynomial::new(vec![product, product1]);

    let result = sum.reduce().unwrap();
    assert_eq!(
        result.polyomials[0].polyomials[0].representation,
        vec![fe(0), fe(0), fe(0), fe(40)]
    );
}

#[test]
fn test_sumpolynomial_partial_evaluate() {
    let poly = eval_poly(vec![fe(0), fe(3), fe(2), fe(5)]);
    let poly1 = eval_poly(vec![fe(0), fe(0), fe(0), fe(4)]);
    let poly2 = eval_poly(vec![fe(0), fe(3), fe(2), fe(5)]);
    let poly3 = eval_poly(vec![fe(0), fe(0), fe(0), fe(4)]);

    let sum = SumPolynomial::new(vec![
        ProductPolynomial::new(vec![poly, poly1]),
        ProductPolynomial::new(vec![poly2, poly3]),
    ]);

    let result = sum.partial_evaluate(fe(5), 0).unwrap();

    assert_eq!(
        result.polyomials[0].polyomials[0].representation,
        vec![fe(10), fe(13)]
    );
    assert_eq!(
        result.polyomials[0].polyomials[1].representation,
        vec![fe(0), fe(20)]
    );
    assert_eq!(
        result.polyomials[1].polyomials[0].representation,
        vec![fe(10), fe(13)]
    );
    assert_eq!(
        result.polyomials[1].polyomials[1].representation,
        vec![fe(0), fe(20)]
    );
}

#[test]
fn test_product_poly_partial_eval() {
    let poly = eval_poly(vec![fe(0), fe(3), fe(2), fe(5)]);
    let poly1 = eval_poly(vec![fe(0), fe(0), fe(0), fe(4)]);
    let product = ProductPolynomial::new(vec![poly, poly1]);

    let result = product.partial_evaluate(fe(5), 0).unwrap();
    assert_eq!(result.polyomials[0].representation, vec![fe(10), fe(13)]);
    assert_eq!(result.polyomials[1].representation, vec![fe(0), fe(20)]);
}

#[test]
fn test_product_poly_evaluate() {
    let poly = eval_poly(vec![fe(0), fe(3), fe(2), fe(5)]);
    let poly1 = eval_poly(vec![fe(0), fe(0), fe(0), fe(4)]);
    let product = ProductPolynomial::new(vec![poly, poly1]);
    let result = product.evaluate(&vec![fe(5), fe(2)]).unwrap();
    // the factors evaluate to 16 and 40 at (5, 2); the product multiplies
    // the two scalars
    assert_eq!(result, fe(640));
}

#[test]
fn test_product_poly_degree() {
    let poly = eval_poly(vec![fe(0), fe(3), fe(2), fe(5)]);
    let poly1 = eval_poly(vec![fe(0), fe(0), fe(0), fe(4)]);
    let product = ProductPolynomial::new(vec![poly, poly1]);
    let result = product.degree();
    assert_eq!(result, 2);
}

#[test]
fn test_sum_poly() {
    let poly = eval_poly(vec![fe(3), fe(3), fe(3), fe(5)]);
    let poly1 = eval_poly(vec![fe(6), fe(8)]);
    let product = ProductPolynomial::new(vec![poly, poly1]);
    let result = product.sum_poly().unwrap();
    assert_eq!(
        result.representation,
        vec![fe(9), fe(11), fe(9), fe(11), fe(9), fe(11), fe(11), fe(13)]
    );
}

#[test]
fn test_mul_poly() {
    let poly = eval_poly(vec![fe(3), fe(3), fe(3), fe(5)]);
    let poly1 = eval_poly(vec![fe(6), fe(8)]);
    let product = ProductPolynomial::new(vec![poly, poly1]);
    let result = product.mul_poly().unwrap();
    assert_eq!(
        result.representation,
        vec![fe(18), fe(24), fe(18), fe(24), fe(18), fe(24), fe(30), fe(40)]
    );
}

#[test]
fn test_reduce_rejects_arity() {
    let poly = eval_poly(vec![fe(1), fe(2)]);
    let product = ProductPolynomial::new(vec![poly]);
    let sum = SumPolynomial::new(vec![product]);
    assert_eq!(sum.reduce().unwrap_err(), gkr::PolyError::ArityMismatch);
}
