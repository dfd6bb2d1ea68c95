//! A Merkle tree over 32-byte digests that records, for every node below the
//! root, the pair of sibling digests that were hashed into its parent, so that
//! the inclusion of any leaf can later be checked by walking up those records.

pub mod bytes;
pub mod digest;
pub mod record;
pub mod merkle;
pub mod inclusion;
pub mod key;
