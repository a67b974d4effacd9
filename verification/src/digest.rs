//! Seeded 64-bit digests of text, computed by `twox_hash`.

use std::hash::Hash;
use std::hash::Hasher;
use twox_hash::XxHash64;
use vstd::prelude::*;

verus! {

/// The XXH64 digest of `item` under `seed`, as `XxHash64` computes it when
/// the text is fed to it through `Hash`.
pub uninterp spec fn digest(seed: u64, item: Seq<char>) -> u64;

/// `XxHash64::with_seed`, then `Hash::hash` of the text into that hasher,
/// then `Hasher::finish`. The hasher starts from the seed alone and reads
/// nothing but the bytes it is given, so the digest depends on the seed and
/// the text and on nothing else; what it is, bit for bit, is not stated.
#[verifier::external_body]
pub(crate) fn seeded_digest(seed: u64, item: &str) -> (d: u64)
    ensures
        d == digest(seed, item@),
{
    let mut hasher = XxHash64::with_seed(seed);
    item.hash(&mut hasher);
    hasher.finish()
}

} // verus!
