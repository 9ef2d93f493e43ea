//! Integrity digests used by the container formats, provided by outside
//! crates behind trusted wrappers.

use vstd::prelude::*;
use sha2::Digest;

verus! {

pub uninterp spec fn sha256_hex_of(data: Seq<u8>) -> Seq<char>;

pub uninterp spec fn crc32_of(data: Seq<u8>) -> u32;

/// Relies on sha2's `Sha256`: the digest of a byte string depends on the
/// bytes alone, and its lowercase hexadecimal form is 64 ASCII characters.
#[verifier::external_body]
pub fn sha256_hex(data: &[u8]) -> (r: String)
    ensures
        r@ == sha256_hex_of(data@),
        r@.len() == 64,
        vstd::utf8::encode_utf8(r@).len() == 64,
{
    let digest = sha2::Sha256::digest(data);
    let mut out = String::with_capacity(64);
    for byte in digest {
        out.push_str(&format!("{:02x}", byte));
    }
    out
}

/// Relies on crc32fast::hash: the CRC-32 checksum of a byte string depends on
/// the bytes alone.
#[verifier::external_body]
pub fn crc32(data: &[u8]) -> (r: u32)
    ensures
        r == crc32_of(data@),
{
    crc32fast::hash(data)
}

/// Relies on String::from_utf8: succeeds exactly on valid UTF-8 and decodes
/// the bytes to the characters they encode.
#[verifier::external_body]
pub fn string_from_utf8(bytes: Vec<u8>) -> (r: Option<String>)
    ensures
        match r {
            Some(s) => vstd::utf8::valid_utf8(bytes@) && s@ == vstd::utf8::decode_utf8(bytes@),
            None => !vstd::utf8::valid_utf8(bytes@),
        },
{
    String::from_utf8(bytes).ok()
}

} // verus!
