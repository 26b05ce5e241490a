use lsh_service::fingerprint::{fingerprint, hex_encode, vector_le_bytes};
use sha2::Digest;

#[test]
fn le_bytes_are_little_endian() {
    let bytes = vector_le_bytes(&vec![0x3f800000u32, 0, 0]);
    assert_eq!(
        bytes,
        vec![0x00u8, 0x00, 0x80, 0x3f, 0, 0, 0, 0, 0, 0, 0, 0]
    );
}

#[test]
fn hex_encoding_is_lowercase_and_exact() {
    let hex = hex_encode(&vec![0x00u8, 0x9a, 0xff]);
    assert_eq!(hex, b"009aff".to_vec());
}

#[test]
fn fingerprint_of_empty_vector() {
    // SHA-256 of the empty byte string.
    let hex = fingerprint(&Vec::new());
    assert_eq!(
        hex,
        b"e3b0c44298fc1c149afbf4c8996fb92427ae41e4649b934ca495991b7852b855".to_vec()
    );
}

#[test]
fn fingerprint_of_unit_vector() {
    // The bit patterns of [1.0f32, 0.0, 0.0]; the digest of their
    // little-endian bytes.
    let hex = fingerprint(&vec![0x3f800000u32, 0, 0]);
    assert_eq!(
        hex,
        b"480376c6bf738a0227f2bbf2b3506b7cde209152c0ba9a9077e5527169eb292e".to_vec()
    );
    assert_eq!(hex.len(), 64);
}

#[test]
fn identical_vectors_fingerprint_identically() {
    let a = fingerprint(&vec![9u32, 8, 7]);
    let b = fingerprint(&vec![9u32, 8, 7]);
    assert_eq!(a, b);
    let c = fingerprint(&vec![9u32, 8, 6]);
    assert_ne!(a, c);
}

#[test]
fn fingerprint_matches_direct_digest() {
    let v = vec![0x3dcccccdu32, 0x3f666666, 0];
    let bytes = vector_le_bytes(&v);
    let digest = sha2::Sha256::digest(&bytes);
    let expected = hex_encode(&digest.to_vec());
    assert_eq!(fingerprint(&v), expected);
}
