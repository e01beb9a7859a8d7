//! The hash of a content group id, as a label carries it.

use std::hash::Hasher;
use twox_hash::XxHash64;
use vstd::prelude::*;
use vstd::string::StringSliceAdditionalSpecFns;

verus! {

/// The 64-bit xxHash, with seed 0, of a sequence of bytes.
pub uninterp spec fn xxh64(bytes: Seq<u8>) -> u64;

/// Hashes `bytes` with `twox_hash::XxHash64`: a hasher made by
/// `XxHash64::default()`, which has seed 0, is given all the bytes in one
/// `write` and asked to `finish`. The result is a function of the bytes
/// alone, and is written `xxh64` of them.
#[verifier::external_body]
fn xxh64_of(bytes: &[u8]) -> (hash: u64)
    ensures
        hash == xxh64(bytes@),
{
    let mut hasher = XxHash64::default();
    hasher.write(bytes);
    hasher.finish()
}

/// The hash that stands for a content group id in a label: 0 for the empty
/// id, else the xxHash of the id's bytes.
pub open spec fn cgid_hash(cgid: &str) -> u64 {
    if cgid@.len() == 0 {
        0
    } else {
        xxh64(cgid.spec_bytes())
    }
}

/// Returns the hash that stands for `cgid` in a label: 0 where `cgid` is
/// empty, else the 64-bit xxHash of its bytes.
pub fn hash_cgid(cgid: &str) -> (hash: u64)
    ensures
        hash == cgid_hash(cgid),
{
    if cgid.is_empty() {
        return 0;
    }
    xxh64_of(cgid.as_bytes())
}

} // verus!
