use gkr::field::Fe;
use gkr::sumcheck::{prove, verify};

fn fe(v: u64) -> Fe {
    Fe::from_u64(v)
}

#[test]
fn test_sumcheck() {
    let values: Vec<Fe> = vec![fe(2); 1 << 20];
    let transcript = prove(&values, fe(65536));
    // the claimed sum is wrong (the table sums to 2 * 2^20), so the first
    // round check fails exactly
    assert!(verify(&values, transcript.0, &transcript.1).is_none());
}

#[test]
fn test_sumcheck_large_true_sum_accepted() {
    let values: Vec<Fe> = vec![fe(2); 1 << 14];
    let true_sum = fe(2 << 14);
    let transcript = prove(&values, true_sum);
    assert!(verify(&values, transcript.0, &transcript.1).is_some());
}

#[test]
fn test_sumcheck_minimal_accepts_true_sum() {
    // g(x0, x1) = x0 + x1 in evaluation form
    let values: Vec<Fe> = vec![fe(0), fe(1), fe(1), fe(2)];
    let (claim, msgs) = prove(&values, fe(4));
    assert_eq!(claim, fe(4));
    assert!(verify(&values, claim, &msgs).is_some());
}

#[test]
fn test_sumcheck_minimal_rejects_wrong_sum() {
    let values: Vec<Fe> = vec![fe(0), fe(1), fe(1), fe(2)];
    let (_, msgs) = prove(&values, fe(5));
    // 5 is not the sum over the hypercube: round zero's check
    // h(0) + h(1) == claim fails, so this is REJECTed
    assert!(verify(&values, fe(5), &msgs).is_none());
}

#[test]
fn test_prover_deterministic() {
    let values: Vec<Fe> = vec![fe(3), fe(9), fe(0), fe(7), fe(1), fe(1), fe(2), fe(5)];
    let claim = fe(28);
    let (c1, m1) = prove(&values, claim);
    let (c2, m2) = prove(&values, claim);
    assert_eq!(c1, c2);
    assert_eq!(m1, m2);
}

#[test]
fn test_tampered_round_message_rejected() {
    let values: Vec<Fe> = vec![fe(3), fe(9), fe(0), fe(7), fe(1), fe(1), fe(2), fe(5)];
    let claim = fe(28);
    let (_, msgs) = prove(&values, claim);
    assert!(verify(&values, claim, &msgs).is_some());
    for i in 0..msgs.len() {
        for j in 0..2 {
            let mut tampered = msgs.clone();
            let old = tampered[i][j];
            let bumped = gkr::field::fe_add(old, Fe::one());
            tampered[i][j] = bumped;
            assert!(verify(&values, claim, &tampered).is_none());
        }
    }
}

#[test]
fn test_single_value_polynomial() {
    let values: Vec<Fe> = vec![fe(42)];
    let (claim, msgs) = prove(&values, fe(42));
    assert_eq!(msgs.len(), 0);
    assert!(verify(&values, claim, &msgs).is_some());
    assert!(verify(&values, fe(41), &msgs).is_none());
}
