use gkr::evaluation_form::EvaluationFormPolynomial;
use gkr::field::Fe;
use gkr::gkr_sumcheck::{prove, verify};
use gkr::product_poly::{ProductPolynomial, SumPolynomial};

fn fe(v: u64) -> Fe {
    Fe::from_u64(v)
}

fn eval_poly(values: Vec<Fe>) -> EvaluationFormPolynomial {
    EvaluationFormPolynomial::new(&values).unwrap()
}

fn sample_sum() -> SumPolynomial {
    let poly = eval_poly(vec![fe(0), fe(3), fe(2), fe(5)]);
    let poly1 = eval_poly(vec![fe(0), fe(0), fe(0), fe(4)]);
    let poly2 = eval_poly(vec![fe(1), fe(2), fe(3), fe(4)]);
    let poly3 = eval_poly(vec![fe(5), fe(6), fe(7), fe(8)]);
    SumPolynomial::new(vec![
        ProductPolynomial::new(vec![poly, poly1]),
        ProductPolynomial::new(vec![poly2, poly3]),
    ])
}

// the true sum: 5 * 4 + (1*5 + 2*6 + 3*7 + 4*8)
fn sample_true_sum() -> Fe {
    fe(90)
}

#[test]
fn test_quadratic_sumcheck_accepts_true_sum() {
    let sum = sample_sum();
    let (claim, msgs, chals) = prove(&sum, sample_true_sum());
    assert_eq!(claim, sample_true_sum());
    assert_eq!(msgs.len(), 2);
    assert_eq!(chals.len(), 2);
    let outcome = verify(&sum, claim, &msgs);
    assert!(outcome.is_some());
    let (_, vchals) = outcome.unwrap();
    assert_eq!(vchals, chals);
}

#[test]
fn test_quadratic_sumcheck_rejects_wrong_sum() {
    let sum = sample_sum();
    let (_, msgs, _) = prove(&sum, fe(91));
    assert!(verify(&sum, fe(91), &msgs).is_none());
}

#[test]
fn test_quadratic_sumcheck_rejects_tampering() {
    let sum = sample_sum();
    let (claim, msgs, _) = prove(&sum, sample_true_sum());
    for i in 0..msgs.len() {
        for j in 0..3 {
            let mut tampered = msgs.clone();
            tampered[i][j] = gkr::field::fe_add(tampered[i][j], Fe::one());
            assert!(verify(&sum, claim, &tampered).is_none());
        }
    }
}
