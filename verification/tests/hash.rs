use bigbed_jaccard::hash::hash;

#[test]
fn hash_test_hash() {
    let result = hash(100);
    assert_eq!(result, 48_913_034);
}

#[test]
fn lib_test_hash() {
    let result = hash(100);
    assert_eq!(result, 48_913_034);
}

#[test]
fn hash_of_zero_is_high_half_of_increment() {
    assert_eq!(hash(0), 1_516_313_153);
}

#[test]
fn hash_of_small_values() {
    assert_eq!(hash(1), 4_293_367_895);
    assert_eq!(hash(2), 2_775_455_340);
    assert_eq!(hash(3), 1_257_542_785);
}

#[test]
fn hash_of_largest_value_wraps() {
    assert_eq!(hash(u32::MAX), 3_938_399_632);
}

#[test]
fn hash_is_reproducible() {
    for value in [0u32, 7, 100, 65_536, u32::MAX] {
        assert_eq!(hash(value), hash(value));
    }
}
