use course_index::key::{compare_keys, key_of, KeyOrder};

#[test]
fn the_key_is_the_lower_case_identifier_in_bytes() {
    assert_eq!(key_of("CS101"), b"cs101".to_vec());
    assert_eq!(key_of("cs101"), b"cs101".to_vec());
    assert_eq!(key_of(""), Vec::<u8>::new());
    assert_eq!(key_of("ÄB"), "äb".as_bytes().to_vec());
}

#[test]
fn keys_are_ordered_byte_by_byte() {
    let a = b"cs101".to_vec();
    let b = b"cs201".to_vec();
    assert_eq!(compare_keys(&a, &b), KeyOrder::Before);
    assert_eq!(compare_keys(&b, &a), KeyOrder::After);
    assert_eq!(compare_keys(&a, &a), KeyOrder::Same);
}

#[test]
fn a_key_comes_after_each_of_its_prefixes() {
    let short = b"cs".to_vec();
    let long = b"cs1".to_vec();
    let empty: Vec<u8> = Vec::new();
    assert_eq!(compare_keys(&short, &long), KeyOrder::Before);
    assert_eq!(compare_keys(&long, &short), KeyOrder::After);
    assert_eq!(compare_keys(&empty, &short), KeyOrder::Before);
    assert_eq!(compare_keys(&empty, &empty), KeyOrder::Same);
}

#[test]
fn bytes_are_compared_without_sign() {
    let low = vec![0x7fu8];
    let high = vec![0x80u8];
    assert_eq!(compare_keys(&low, &high), KeyOrder::Before);
}
