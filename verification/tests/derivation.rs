use predictive_shuffle::{byte_array, hash, truncate_to_u64, ShuffleError};

#[test]
fn hash_is_sixty_four_hex_digits() {
    let h = hash(&b"seed phrase".to_vec());
    assert_eq!(h.len(), 64);
    assert!(h.iter().all(|b| b.is_ascii_hexdigit()));
}

#[test]
fn hash_of_empty_input_is_the_known_digest() {
    // SHA-256 of the empty string, in lowercase hex.
    let h = hash(&Vec::new());
    assert_eq!(
        h,
        b"e3b0c44298fc1c149afbf4c8996fb92427ae41e4649b934ca495991b7852b855".to_vec()
    );
    assert_eq!(byte_array(&Vec::new()), *b"e3b0c442");
}

#[test]
fn hash_is_deterministic_and_input_sensitive() {
    let a = hash(&b"seed phrase".to_vec());
    let b = hash(&b"seed phrase".to_vec());
    let c = hash(&b"seed phrasf".to_vec());
    assert_eq!(a, b);
    assert_ne!(a, c);
}

#[test]
fn byte_array_is_the_digest_prefix() {
    let seed = b"seed phrase".to_vec();
    let h = hash(&seed);
    assert_eq!(byte_array(&seed).to_vec(), h[..8].to_vec());
}

#[test]
fn truncation_reads_big_endian() {
    let digest: Vec<u8> = vec![1, 2, 3, 4, 5, 6, 7, 8, 9, 10];
    assert_eq!(truncate_to_u64(&digest), Ok(0x0102030405060708));
}

#[test]
fn short_digest_is_a_length_error() {
    let digest: Vec<u8> = vec![1, 2, 3, 4, 5, 6, 7];
    assert_eq!(truncate_to_u64(&digest), Err(ShuffleError::KeyLengthError));
    assert_eq!(truncate_to_u64(&Vec::new()), Err(ShuffleError::KeyLengthError));
}

#[test]
fn error_messages_name_the_fault() {
    assert!(ShuffleError::RangeError.message().contains("range"));
    assert!(ShuffleError::KeyLengthError.message().contains("digest"));
    assert!(ShuffleError::ParameterError.message().contains("batch"));
}
