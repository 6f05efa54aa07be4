use merkle_accumulator::hash_value::{accumulator_placeholder_hash, hash_internal, HashValue};
use sha3::{Digest, Sha3_256};

#[test]
fn test_placeholder_is_all_zero() {
    assert_eq!(accumulator_placeholder_hash().to_bytes(), [0u8; 32]);
}

#[test]
fn test_internal_hash_is_domain_separated_digest() {
    // the internal-node rule is the SHA3-256 digest of a one-byte domain tag
    // followed by the two child hashes
    let left = HashValue::new([0xabu8; 32]);
    let right = HashValue::new([0xcdu8; 32]);
    let mut preimage = vec![1u8];
    preimage.extend_from_slice(&left.to_bytes());
    preimage.extend_from_slice(&right.to_bytes());
    let digest = Sha3_256::digest(&preimage);
    let mut expected = [0u8; 32];
    expected.copy_from_slice(&digest);

    let computed = hash_internal(&left, &right);
    assert_eq!(computed.to_bytes(), expected);
    // in particular the hash is neither child handed back
    assert_ne!(computed, left);
    assert_ne!(computed, right);
    // and it is ordered: swapping the children changes the parent
    assert_ne!(hash_internal(&right, &left), computed);
}

#[test]
fn test_hash_value_equality() {
    let a = HashValue::new([5u8; 32]);
    let b = HashValue::new([5u8; 32]);
    let mut bytes = [5u8; 32];
    bytes[31] = 6;
    let c = HashValue::new(bytes);
    assert_eq!(a, b);
    assert_ne!(a, c);
}
