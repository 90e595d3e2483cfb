//! The 32-bit xxHash, as the crate `twox_hash` computes it.

use core::hash::Hasher;
use twox_hash::XxHash32;
use vstd::prelude::*;

verus! {

/// The streaming hasher of `twox_hash`.
#[verifier::external_type_specification]
#[verifier::external_body]
pub struct ExXxHash32(XxHash32);

/// The bytes that have been written to a hasher, in order.
pub uninterp spec fn hashed_bytes(hasher: XxHash32) -> Seq<u8>;

/// The seed that a hasher was made with.
pub uninterp spec fn hash_seed(hasher: XxHash32) -> u32;

/// The 32-bit xxHash of `data` under `seed`.
pub uninterp spec fn xxh32(seed: u32, data: Seq<u8>) -> u32;

/// `XxHash32::with_seed`: a hasher under that seed to which nothing was written.
pub assume_specification[ XxHash32::with_seed ](seed: u32) -> (hasher: XxHash32)
    ensures
        hash_seed(hasher) == seed,
        hashed_bytes(hasher) == Seq::<u8>::empty(),
;

/// `Hasher::write` of `XxHash32`: appends `data` to what was written. How the
/// bytes were cut into writes leaves no trace. The hasher counts the bytes in a
/// `u64`, which must not overflow.
#[verifier::external_body]
pub(crate) fn hash_write(hasher: &mut XxHash32, data: &[u8])
    requires
        hashed_bytes(*old(hasher)).len() + data@.len() <= u64::MAX,
    ensures
        hash_seed(*final(hasher)) == hash_seed(*old(hasher)),
        hashed_bytes(*final(hasher)) == hashed_bytes(*old(hasher)) + data@,
{
    hasher.write(data)
}

/// `Hasher::finish` of `XxHash32`: the hash of all that was written, with the
/// upper half of the result zero.
#[verifier::external_body]
pub(crate) fn hash_finish(hasher: &XxHash32) -> (hash: u64)
    ensures
        hash == xxh32(hash_seed(*hasher), hashed_bytes(*hasher)),
{
    hasher.finish()
}

/// The hash of `data` under seed 0.
pub fn checksum(data: &[u8]) -> (hash: u32)
    ensures
        hash == xxh32(0, data@),
{
    let mut hasher = XxHash32::with_seed(0);
    assert(data.len() <= u64::MAX);
    hash_write(&mut hasher, data);
    proof {
        assert(Seq::<u8>::empty() + data@ =~= data@);
    }
    hash_finish(&hasher) as u32
}

} // verus!
