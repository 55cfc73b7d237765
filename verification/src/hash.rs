//! Key hashes: salted xxHash64 and its reduction to 48 bits.

use vstd::prelude::*;

verus! {

/// What `xxhash_rust::xxh64::xxh64` returns for these bytes and this seed.
pub uninterp spec fn xxh64_value(data: Seq<u8>, seed: u64) -> u64;

/// Calls `xxhash_rust::xxh64::xxh64`. The contract claims that the hash is a
/// function of the bytes and the seed, and nothing else of it.
#[verifier::external_body]
pub(crate) fn xxh64(data: &[u8], seed: u64) -> (hash: u64)
    ensures
        hash == xxh64_value(data@, seed),
{
    xxhash_rust::xxh64::xxh64(data, seed)
}

/// The upper 48 bits of a hash, which is what a bucket entry holds of it.
pub open spec fn upper48(hash: u64) -> u64 {
    (hash / 0x1_0000) as u64
}

/// The upper 48 bits of a hash.
pub fn hash48(hash: u64) -> (reduced: u64)
    ensures
        reduced == upper48(hash),
        reduced < 0x1_0000_0000_0000,
{
    hash / 0x1_0000
}

/// The fingerprint of a salt: the hash, unseeded, of the salt's eight bytes,
/// least significant first.
pub open spec fn pepper_value(salt: u64) -> u64 {
    xxh64_value(crate::codec::le_bytes(salt as nat, 8), 0)
}

/// The fingerprint of a salt.
pub fn pepper(salt: u64) -> (value: u64)
    ensures
        value == pepper_value(salt),
{
    let mut bytes: Vec<u8> = Vec::new();
    crate::codec::put_le(&mut bytes, salt, 8);
    assert(bytes@ =~= crate::codec::le_bytes(salt as nat, 8));
    xxh64(bytes.as_slice(), 0)
}

} // verus!
