//! The fixed-seed 64-bit fingerprint function used for file contents and
//! for combining child fingerprints into a directory fingerprint.

use std::hash::{BuildHasher, Hasher};
use vstd::prelude::*;

verus! {

/// Domain-separation marker mixed into every directory fingerprint, so that
/// an empty directory cannot fingerprint like an empty file.
pub const DIR_HASH_MARKER: u64 = 0xBEEE38829F9F8197;

/// The digest the fixed-seed hasher produces for a byte sequence.
pub uninterp spec fn hash_of_bytes(data: Seq<u8>) -> u64;

/// The digest the fixed-seed hasher produces for a sequence of 64-bit
/// values together with a marker word.
pub uninterp spec fn hash_of_u64s(values: Seq<u64>, marker: u64) -> u64;

/// Relies on `ahash::RandomState::with_seeds` together with
/// `std::hash::Hasher::write` and `finish`: with all four seeds fixed the
/// digest is a deterministic function of the bytes written, for a given
/// build of the crate.
#[verifier::external_body]
pub(crate) fn hash_bytes(data: &[u8]) -> (r: u64)
    ensures
        r == hash_of_bytes(data@),
{
    let mut hasher = ahash::RandomState::with_seeds(0, 0, 0, 0).build_hasher();
    hasher.write(data);
    hasher.finish()
}

/// Relies on `ahash::RandomState::hash_one`: with all four seeds fixed the
/// digest is a deterministic function of the hashed value, here a pair of a
/// vector of 64-bit words and a marker word, for a given build of the crate.
#[verifier::external_body]
pub(crate) fn hash_u64s(values: &Vec<u64>, marker: u64) -> (r: u64)
    ensures
        r == hash_of_u64s(values@, marker),
{
    ahash::RandomState::with_seeds(0, 0, 0, 0).hash_one((values.clone(), marker))
}

} // verus!
