use substring_search::hashers::RollingPolynomial;

#[test]
// Removing the first element and adding another element should produce the same hash as if you
// hashed those same elements (in the same order) to begin with.
fn test_rolling_polynomial() {
    let s = "This is a test string. - Normal Person";
    // Testing with window size of 5
    let mut hash = RollingPolynomial::from_buffer(s[0..5].as_bytes());
    hash.remove(5, s[0..1].as_bytes()[0]);
    hash.update(s[5..6].as_bytes()[0]);
    assert_eq!(
        hash.hash(),
        RollingPolynomial::from_buffer_with_salt(s[1..6].as_bytes(), hash.salt()).hash()
    );
}

#[test]
fn polynomial_hash_exact_value() {
    // 1 * 2^2 + 2 * 2 + 3
    let h = RollingPolynomial::from_buffer_with_salt(&[1, 2, 3], 2);
    assert_eq!(h.hash(), 11);
    assert_eq!(h.salt(), 2);
}

#[test]
fn polynomial_hash_wraps_modulo_word() {
    let mut h = RollingPolynomial::with_salt(1 << 32);
    h.update(1);
    h.update(0);
    h.update(0);
    // 2^64 wraps to 0
    assert_eq!(h.hash(), 0);
    h.update(7);
    assert_eq!(h.hash(), 7);
}

#[test]
fn polynomial_remove_uses_power_of_salt() {
    // [5, 6, 7] with salt 3: 5 * 9 + 6 * 3 + 7 = 70; removing 5 at size 3 leaves 25.
    let mut h = RollingPolynomial::from_buffer_with_salt(&[5, 6, 7], 3);
    assert_eq!(h.hash(), 70);
    h.remove(3, 5);
    assert_eq!(h.hash(), 25);
    assert_eq!(h.hash(), RollingPolynomial::from_buffer_with_salt(&[6, 7], 3).hash());
}

#[test]
fn polynomial_rolling_law_on_multibyte_text() {
    let s = "›It costs €10 for this item…".as_bytes();
    let salt = 131;
    let k = 7;
    let mut h = RollingPolynomial::from_buffer_with_salt(&s[0..k], salt);
    for i in 0..s.len() - k {
        h.remove(k as u32, s[i]);
        h.update(s[i + k]);
        let fresh = RollingPolynomial::from_buffer_with_salt(&s[i + 1..i + 1 + k], salt);
        assert_eq!(h.hash(), fresh.hash());
    }
}

#[test]
fn random_salt_is_in_range() {
    for _ in 0..50 {
        let h = RollingPolynomial::new();
        assert!(h.salt() >= 2 && h.salt() < 256);
        assert_eq!(h.hash(), 0);
    }
}

#[test]
fn update_buffer_matches_single_updates() {
    let mut a = RollingPolynomial::with_salt(17);
    a.update_buffer(b"abcdef");
    let mut b = RollingPolynomial::with_salt(17);
    for x in b"abcdef" {
        b.update(*x);
    }
    assert_eq!(a.hash(), b.hash());
    assert_eq!(a.hash(), RollingPolynomial::from_buffer_with_salt(b"abcdef", 17).hash());
}
