//! The digest function the tree is built with, and byte helpers around it.

use vstd::prelude::*;
use crypto::digest::Digest;

verus! {

/// Number of bytes in a digest.
pub const DIGEST_LEN: usize = 32;

/// Largest input, in bytes, that SHA-256 accepts: its bit count must fit in a `u64`.
pub const SHA256_MAX_INPUT: u64 = 0x1fff_ffff_ffff_ffff;

/// The SHA-256 digest of a byte sequence.
pub uninterp spec fn sha256_of(data: Seq<u8>) -> Seq<u8>;

/// Relies on `crypto::sha2::Sha256` (`new`, `input`, `result`): it writes the
/// 32-byte digest of the bytes given, which depends on those bytes alone. Its
/// `input` panics when the bit count of the data overflows a `u64`.
#[verifier::external_body]
pub fn sha256(data: &[u8]) -> (r: [u8; 32])
    requires
        data@.len() <= SHA256_MAX_INPUT,
    ensures
        r@ == sha256_of(data@),
{
    let mut out = [0u8; 32];
    let mut hasher = crypto::sha2::Sha256::new();
    hasher.input(data);
    hasher.result(&mut out);
    out
}

/// The digest of the digest of `data`.
pub open spec fn double_sha256_of(data: Seq<u8>) -> Seq<u8> {
    sha256_of(sha256_of(data))
}

/// SHA-256 applied twice.
pub fn double_sha256(data: &[u8]) -> (r: [u8; 32])
    requires
        data@.len() <= SHA256_MAX_INPUT,
    ensures
        r@ == double_sha256_of(data@),
{
    let once = sha256(data);
    sha256(&once)
}

/// Whether two digests hold the same bytes.
pub fn digest_eq(a: &[u8; 32], b: &[u8; 32]) -> (r: bool)
    ensures
        r == (a@ == b@),
{
    let mut i: usize = 0;
    while i < DIGEST_LEN
        invariant
            0 <= i <= DIGEST_LEN,
            forall|j: int| 0 <= j < i ==> a@[j] == b@[j],
        decreases DIGEST_LEN - i,
    {
        if a[i] != b[i] {
            return false;
        }
        i = i + 1;
    }
    assert(a@ =~= b@);
    true
}

} // verus!
