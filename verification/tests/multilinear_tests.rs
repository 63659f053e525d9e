use gkr::evaluation_form::EvaluationFormPolynomial;
use gkr::field::Fe;
use gkr::PolyError;

fn fe(v: u64) -> Fe {
    Fe::from_u64(v)
}

#[test]
fn test_add_polynomials() {
    let values: Vec<Fe> = vec![fe(0), fe(2), fe(0), fe(5)];
    let values1: Vec<Fe> = vec![fe(0), fe(2), fe(0), fe(5)];
    let poly = EvaluationFormPolynomial::new(&values).unwrap();
    let poly1 = EvaluationFormPolynomial::new(&values1).unwrap();

    let addition = poly.add(&poly1).unwrap();
    assert_eq!(
        addition.representation,
        vec![fe(0), fe(4), fe(0), fe(10)]
    );
}

#[test]
fn test_evaluation_form_partial_evaluation() {
    let values: Vec<Fe> = vec![fe(0), fe(2), fe(0), fe(5)];
    let poly = EvaluationFormPolynomial::new(&values).unwrap();
    assert_eq!(poly.representation, vec![fe(0), fe(2), fe(0), fe(5)]);
    assert_eq!(poly.hypercube, vec!["00", "01", "10", "11"]);
    let pol = poly.partial_evaluate(fe(5), 0).unwrap();
    assert_eq!(pol.representation, vec![fe(0), fe(17)]);

    let result = pol.partial_evaluate(fe(2), 0).unwrap();
    assert_eq!(result.representation, vec![fe(34)]);
}

#[test]
fn test_new_rejects_bad_length() {
    let values: Vec<Fe> = vec![fe(1), fe(2), fe(3)];
    assert_eq!(
        EvaluationFormPolynomial::new(&values).unwrap_err(),
        PolyError::InvalidLength
    );
    let empty: Vec<Fe> = vec![];
    assert_eq!(
        EvaluationFormPolynomial::new(&empty).unwrap_err(),
        PolyError::InvalidLength
    );
}

#[test]
fn test_partial_evaluate_rejects_bad_position() {
    let values: Vec<Fe> = vec![fe(1), fe(2), fe(3), fe(4)];
    let poly = EvaluationFormPolynomial::new(&values).unwrap();
    assert_eq!(
        poly.partial_evaluate(fe(5), 2).unwrap_err(),
        PolyError::IndexOutOfRange
    );
}

#[test]
fn test_add_rejects_length_mismatch() {
    let poly = EvaluationFormPolynomial::new(&vec![fe(1), fe(2)]).unwrap();
    let poly1 = EvaluationFormPolynomial::new(&vec![fe(1), fe(2), fe(3), fe(4)]).unwrap();
    assert_eq!(poly.add(&poly1).unwrap_err(), PolyError::LengthMismatch);
}

#[test]
fn test_partial_evaluate_last_position_even_odd() {
    // fixing the last variable pairs adjacent slots:
    // slot k becomes (1 - r) * v[2k] + r * v[2k + 1]
    let values: Vec<Fe> = vec![fe(1), fe(3), fe(5), fe(11)];
    let poly = EvaluationFormPolynomial::new(&values).unwrap();
    let r = fe(2);
    let result = poly.partial_evaluate(r, 1).unwrap();
    // (1 - 2) * 1 + 2 * 3 = 5 and (1 - 2) * 5 + 2 * 11 = 17
    assert_eq!(result.representation, vec![fe(5), fe(17)]);
}
