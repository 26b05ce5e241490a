//! The vector fingerprint: the lowercase hex SHA-256 digest of the
//! little-endian byte concatenation of the vector's 32-bit words.
//!
//! The byte expansion and the hex encoding are defined and verified here;
//! only the digest itself is an outside call. The byte order is pinned to
//! little endian so that fingerprints match a producer that writes its
//! floats the same way.

use vstd::prelude::*;

verus! {

/// The four little-endian bytes of one word.
pub open spec fn le_bytes_of_word(w: u32) -> Seq<u8> {
    seq![
        (w & 0xff) as u8,
        ((w >> 8) & 0xff) as u8,
        ((w >> 16) & 0xff) as u8,
        ((w >> 24) & 0xff) as u8,
    ]
}

/// The little-endian byte concatenation of a word sequence.
pub open spec fn le_bytes_of(v: Seq<u32>) -> Seq<u8>
    decreases v.len(),
{
    if v.len() == 0 {
        Seq::empty()
    } else {
        le_bytes_of(v.drop_last()) + le_bytes_of_word(v.last())
    }
}

/// What SHA-256 maps a byte sequence to. The digest depends on the input
/// bytes alone, so the same bytes fingerprint identically in every process
/// and on every machine.
pub uninterp spec fn sha256_of(bytes: Seq<u8>) -> Seq<u8>;

/// The lowercase ASCII hex digit of a nibble.
pub open spec fn hex_digit(n: u8) -> u8
    recommends
        n < 16,
{
    if n < 10 {
        (48 + n) as u8  // '0' is ASCII 48
    } else {
        (87 + n) as u8  // 'a' is ASCII 97, so 10 maps to 97
    }
}

/// The lowercase hex encoding of a byte sequence, high nibble first.
pub open spec fn hex_of(bytes: Seq<u8>) -> Seq<u8>
    decreases bytes.len(),
{
    if bytes.len() == 0 {
        Seq::empty()
    } else {
        hex_of(bytes.drop_last()) + seq![
            hex_digit(bytes.last() >> 4),
            hex_digit(bytes.last() & 0xf),
        ]
    }
}

/// The fingerprint of a vector of words: hex over SHA-256 over the
/// little-endian bytes.
pub open spec fn spec_fingerprint(v: Seq<u32>) -> Seq<u8> {
    hex_of(sha256_of(le_bytes_of(v)))
}

/// A hex encoding is twice as long as its input.
pub proof fn lemma_hex_of_len(bytes: Seq<u8>)
    ensures
        hex_of(bytes).len() == 2 * bytes.len(),
    decreases bytes.len(),
{
    if bytes.len() == 0 {
    } else {
        lemma_hex_of_len(bytes.drop_last());
    }
}

/// The fingerprint reads nothing of a vector but its byte expansion: two
/// vectors with the same little-endian bytes fingerprint identically.
pub proof fn lemma_fingerprint_of_bytes(a: Seq<u32>, b: Seq<u32>)
    requires
        le_bytes_of(a) == le_bytes_of(b),
    ensures
        spec_fingerprint(a) == spec_fingerprint(b),
{
}

/// Relies on sha2::Sha256 through Digest::digest: the digest is a pure
/// function of the input bytes and is 32 bytes long.
#[verifier::external_body]
fn sha256(bytes: &Vec<u8>) -> (digest: Vec<u8>)
    ensures
        digest@ == sha256_of(bytes@),
        digest@.len() == 32,
{
    <sha2::Sha256 as sha2::Digest>::digest(bytes.as_slice()).to_vec()
}

/// Expands a vector of words into its little-endian byte concatenation.
pub fn vector_le_bytes(v: &Vec<u32>) -> (bytes: Vec<u8>)
    ensures
        bytes@ == le_bytes_of(v@),
{
    let mut bytes: Vec<u8> = Vec::new();
    let mut i: usize = 0;
    while i < v.len()
        invariant
            i <= v@.len(),
            bytes@ == le_bytes_of(v@.take(i as int)),
        decreases v@.len() - i,
    {
        let w = v[i];
        bytes.push((w & 0xff) as u8);
        bytes.push(((w >> 8) & 0xff) as u8);
        bytes.push(((w >> 16) & 0xff) as u8);
        bytes.push(((w >> 24) & 0xff) as u8);
        proof {
            assert(v@.take(i + 1).drop_last() =~= v@.take(i as int));
            assert(v@.take(i + 1).last() == v@[i as int]);
            assert(bytes@ =~= le_bytes_of(v@.take(i as int)) + le_bytes_of_word(v@[i as int]));
        }
        i += 1;
    }
    proof {
        assert(v@.take(v@.len() as int) =~= v@);
    }
    bytes
}

/// Encodes bytes as lowercase hex, high nibble first.
pub fn hex_encode(bytes: &Vec<u8>) -> (hex: Vec<u8>)
    ensures
        hex@ == hex_of(bytes@),
        hex@.len() == 2 * bytes@.len(),
{
    let mut hex: Vec<u8> = Vec::new();
    let mut i: usize = 0;
    while i < bytes.len()
        invariant
            i <= bytes@.len(),
            hex@ == hex_of(bytes@.take(i as int)),
            hex@.len() == 2 * i,
        decreases bytes@.len() - i,
    {
        let b = bytes[i];
        let hi = b >> 4;
        let lo = b & 0xf;
        proof {
            assert(b >> 4 < 16 && b & 0xf < 16) by (bit_vector);
        }
        hex.push(if hi < 10 { 48 + hi } else { 87 + hi });
        hex.push(if lo < 10 { 48 + lo } else { 87 + lo });
        proof {
            assert(bytes@.take(i + 1).drop_last() =~= bytes@.take(i as int));
            assert(bytes@.take(i + 1).last() == bytes@[i as int]);
            assert(hex@ =~= hex_of(bytes@.take(i as int)) + seq![
                hex_digit(bytes@[i as int] >> 4),
                hex_digit(bytes@[i as int] & 0xf),
            ]);
        }
        i += 1;
    }
    proof {
        assert(bytes@.take(bytes@.len() as int) =~= bytes@);
    }
    hex
}

/// The fingerprint of a vector: the 64 lowercase hex characters of the
/// SHA-256 digest of its little-endian bytes, as ASCII.
pub fn fingerprint(v: &Vec<u32>) -> (hex: Vec<u8>)
    ensures
        hex@ == spec_fingerprint(v@),
        hex@.len() == 64,
{
    let bytes = vector_le_bytes(v);
    let digest = sha256(&bytes);
    hex_encode(&digest)
}

} // verus!
