use robin_hood::hash_key;

#[test]
fn hash_of_zero_is_zero() {
    assert_eq!(hash_key(0), 0);
}

#[test]
fn hash_exact_values() {
    assert_eq!(hash_key(1), 5364745905576871);
    assert_eq!(hash_key(2), 10729491759075992);
    assert_eq!(hash_key(42), 225323439557888757);
    assert_eq!(hash_key(65536), 1106824748219205828);
}

#[test]
fn hash_is_deterministic() {
    for k in [0u32, 7, 1000, u32::MAX] {
        assert_eq!(hash_key(k), hash_key(k));
    }
}

#[test]
fn hash_spreads_close_keys() {
    assert_ne!(hash_key(1), hash_key(2));
    assert_ne!(hash_key(2) % 8, hash_key(3) % 8);
}
