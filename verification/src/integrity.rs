//! Artifact integrity: digests, hex encoding, compression-stream checks,
//! and the verified comparisons built on them.

use vstd::prelude::*;
use crate::strutil::str_eq;
use crate::types::PackageChecksum;

verus! {

/// The SHA-256 digest of a byte string; named result of `sha2::Sha256`.
pub uninterp spec fn sha256_of(data: Seq<u8>) -> Seq<u8>;

/// The BLAKE3 digest of a byte string; named result of `blake3::hash`.
pub uninterp spec fn blake3_of(data: Seq<u8>) -> Seq<u8>;

/// Whether a byte string decodes as a zstd stream; named result of
/// `zstd::stream::decode_all`.
pub uninterp spec fn zstd_frame_ok(data: Seq<u8>) -> bool;

/// The lowercase hex digit for a value below sixteen.
pub open spec fn hex_digit(d: int) -> char {
    if d == 0 { '0' }
    else if d == 1 { '1' }
    else if d == 2 { '2' }
    else if d == 3 { '3' }
    else if d == 4 { '4' }
    else if d == 5 { '5' }
    else if d == 6 { '6' }
    else if d == 7 { '7' }
    else if d == 8 { '8' }
    else if d == 9 { '9' }
    else if d == 10 { 'a' }
    else if d == 11 { 'b' }
    else if d == 12 { 'c' }
    else if d == 13 { 'd' }
    else if d == 14 { 'e' }
    else { 'f' }
}

/// Lowercase hex encoding: two digits for each byte, in order.
pub open spec fn hex_of(data: Seq<u8>) -> Seq<char>
    decreases data.len(),
{
    if data.len() == 0 {
        Seq::empty()
    } else {
        hex_of(data.drop_last()) + seq![
            hex_digit(data.last() as int / 16),
            hex_digit(data.last() as int % 16),
        ]
    }
}

/// Relies on sha2's `Sha256::digest`: the digest is a function of the bytes
/// alone and is 32 bytes long.
#[verifier::external_body]
pub fn sha256_digest(data: &[u8]) -> (r: Vec<u8>)
    ensures
        r@ == sha256_of(data@),
        r@.len() == 32,
{
    <sha2::Sha256 as sha2::Digest>::digest(data).to_vec()
}

/// Relies on blake3's `hash`: the digest is a function of the bytes alone
/// and is 32 bytes long.
#[verifier::external_body]
pub fn blake3_digest(data: &[u8]) -> (r: Vec<u8>)
    ensures
        r@ == blake3_of(data@),
        r@.len() == 32,
{
    blake3::hash(data).as_bytes().to_vec()
}

/// Relies on hex's `encode`: lowercase hex, two digits per input byte.
#[verifier::external_body]
pub fn hex_encode(data: &[u8]) -> (r: String)
    ensures
        r@ == hex_of(data@),
{
    hex::encode(data)
}

/// Relies on zstd's `decode_all`: whether the bytes decode as a zstd
/// stream depends on the bytes alone.
#[verifier::external_body]
pub fn zstd_stream_valid(data: &[u8]) -> (r: bool)
    ensures
        r == zstd_frame_ok(data@),
{
    zstd::stream::decode_all(data).is_ok()
}

/// Do the two hex digest strings equal the expected checksum pair?
pub fn checksum_strings_match(sha_hex: &str, blake_hex: &str, expected: &PackageChecksum) -> (r:
    bool)
    ensures
        r == (sha_hex@ == expected.sha256@ && blake_hex@ == expected.blake3@),
{
    let sha_ok = str_eq(sha_hex, expected.sha256.as_str());
    if !sha_ok {
        return false;
    }
    str_eq(blake_hex, expected.blake3.as_str())
}

/// Computes both digests of the artifact bytes and compares them with the
/// expected checksum pair.
pub fn artifact_checksums_ok(data: &[u8], expected: &PackageChecksum) -> (r: bool)
    ensures
        r == (hex_of(sha256_of(data@)) == expected.sha256@ && hex_of(blake3_of(data@))
            == expected.blake3@),
{
    let sha = sha256_digest(data);
    let sha_hex = hex_encode(sha.as_slice());
    let blake = blake3_digest(data);
    let blake_hex = hex_encode(blake.as_slice());
    checksum_strings_match(sha_hex.as_str(), blake_hex.as_str(), expected)
}

} // verus!
