//! Keys: 64-bit numbers written as eight big-endian bytes.

use vstd::prelude::*;
use crate::bytes::{transform_u64_to_array_of_u8, u64_be_bytes};

verus! {

/// Relies on `rand::random::<u64>`, which draws from the thread's generator;
/// nothing is known of the number it returns.
#[verifier::external_body]
fn random_u64() -> (r: u64) {
    rand::random::<u64>()
}

/// A key of the store, ordered by its number.
#[derive(Debug, Clone, Copy, PartialEq, Eq, PartialOrd, Ord, Structural)]
pub struct Key {
    pub key: u64,
}

impl Key {
    /// A key with a number drawn at random.
    pub fn new() -> (r: Key) {
        Key::from(random_u64())
    }

    /// The key numbered `key`.
    pub fn from(key: u64) -> (r: Key)
        ensures
            r.key == key,
    {
        Key { key: key }
    }

    /// The key's number as eight bytes, most significant first.
    pub fn to_bytes(&self) -> (r: [u8; 8])
        ensures
            r@ == u64_be_bytes(self.key),
    {
        transform_u64_to_array_of_u8(self.key)
    }
}

} // verus!
