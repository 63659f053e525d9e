use gkr::transcript::FiatShamir;

#[test]
fn test_fiat_shamir() {
    let mut first = FiatShamir::new();
    let mut second = FiatShamir::new();
    let input = b"biliqis";
    let input2: &[u8; 10] = b"onikashoyi";
    first.absorb(input);
    second.absorb(input2);
    let a = first.squeeze();
    let b = second.squeeze();
    assert_ne!(a, b);
}

#[test]
fn test_squeeze_deterministic() {
    let mut first = FiatShamir::new();
    let mut second = FiatShamir::new();
    first.absorb(b"same bytes");
    second.absorb(b"same bytes");
    assert_eq!(first.squeeze(), second.squeeze());
    assert_eq!(first.squeeze(), second.squeeze());
}

#[test]
fn test_squeeze_chains() {
    let mut t = FiatShamir::new();
    t.absorb(b"seed");
    let a = t.squeeze();
    let b = t.squeeze();
    assert_ne!(a, b);
}
