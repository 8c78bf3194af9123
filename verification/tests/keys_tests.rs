use envelope_buffer::keys::{ProjectKey, ProjectKeyPair};

#[test]
fn test_parse_valid_key() {
    let key = ProjectKey::parse("a94ae32be2584e0bbd7a4cbb95971fed").unwrap();
    let again = ProjectKey::parse("a94ae32be2584e0bbd7a4cbb95971fed").unwrap();
    assert_eq!(key, again);
}

#[test]
fn test_parse_exact_value() {
    let key = ProjectKey::parse("00000000000000000000000000000010").unwrap();
    assert_eq!(key.value, 16);
    let key = ProjectKey::parse("000000000000000000000000000000ff").unwrap();
    assert_eq!(key.value, 255);
    let key = ProjectKey::parse("ffffffffffffffffffffffffffffffff").unwrap();
    assert_eq!(key.value, u128::MAX);
}

#[test]
fn test_parse_rejects_bad_input() {
    assert!(ProjectKey::parse("").is_none());
    assert!(ProjectKey::parse("a94ae32be2584e0bbd7a4cbb95971fe").is_none());
    assert!(ProjectKey::parse("a94ae32be2584e0bbd7a4cbb95971fedd").is_none());
    assert!(ProjectKey::parse("A94AE32BE2584E0BBD7A4CBB95971FED").is_none());
    assert!(ProjectKey::parse("g94ae32be2584e0bbd7a4cbb95971fed").is_none());
}

#[test]
fn test_pair_iter_distinct_keys() {
    let k1 = ProjectKey::parse("a94ae32be2584e0bbd7a4cbb95971fed").unwrap();
    let k2 = ProjectKey::parse("a94ae32be2584e0bbd7a4cbb95971fef").unwrap();

    let self_pair = ProjectKeyPair::new(k1, k1);
    assert_eq!(self_pair.iter(), vec![k1]);

    let pair = ProjectKeyPair::new(k1, k2);
    assert_eq!(pair.iter(), vec![k1, k2]);
}
