//! Linear hashing: which bucket a hash falls in, and how that changes when the
//! table grows by one bucket.
//!
//! A table of `bucket_count` buckets is at `level` with `next` buckets split,
//! where `bucket_count == 2^level + next` and `next < 2^level`.

use vstd::arithmetic::div_mod::*;
use vstd::arithmetic::power2::*;
use vstd::bits::*;
use vstd::prelude::*;

verus! {

/// `level` and `next` describe a table of `bucket_count` buckets.
pub open spec fn describes(level: u32, next: u64, bucket_count: u64) -> bool {
    &&& next < pow2(level as nat)
    &&& bucket_count == pow2(level as nat) + next
}

/// The level and split position of a table of `bucket_count` buckets.
pub open spec fn state_of(bucket_count: u64) -> (u32, u64) {
    if bucket_count == 0 {
        (0, 0)
    } else {
        choose|state: (u32, u64)| describes(state.0, state.1, bucket_count)
    }
}

/// The bucket that a hash falls in.
pub open spec fn index_of(level: u32, next: u64, hash: u64) -> int {
    let modulus = pow2(level as nat) as int;
    if hash as int % modulus < next {
        hash as int % (2 * modulus)
    } else {
        hash as int % modulus
    }
}

/// The level and split position after the bucket at `next` has been split.
pub open spec fn advanced(level: u32, next: u64) -> (u32, u64) {
    if next + 1 >= pow2(level as nat) {
        ((level + 1) as u32, 0)
    } else {
        (level, (next + 1) as u64)
    }
}

pub proof fn lemma_power_bound(level: u32)
    requires
        level < 64,
    ensures
        1 <= pow2(level as nat) <= 0x8000_0000_0000_0000,
        pow2((level + 1) as nat) == 2 * pow2(level as nat),
{
    lemma_pow2_pos(level as nat);
    lemma2_to64();
    lemma2_to64_rest();
    if level < 63 {
        lemma_pow2_strictly_increases(level as nat, 63);
    }
    lemma_pow2_unfold((level + 1) as nat);
}

/// Two to the power `level`.
pub fn power(level: u32) -> (value: u64)
    requires
        level < 64,
    ensures
        value == pow2(level as nat),
{
    proof {
        lemma_power_bound(level);
        lemma_u64_shl_is_mul(1, level as u64);
    }
    1u64 << (level as u64)
}

pub proof fn lemma_state_of(level: u32, next: u64, bucket_count: u64)
    requires
        describes(level, next, bucket_count),
    ensures
        state_of(bucket_count) == (level, next),
{
    lemma_pow2_pos(level as nat);
    let state = (level, next);
    assert(describes(state.0, state.1, bucket_count));
    let (other_level, other_next) = state_of(bucket_count);
    law_state_unique(level, next, other_level, other_next, bucket_count);
}

/// The level and split position of a table of `bucket_count` buckets.
pub fn compute_level_next(bucket_count: u64) -> (state: (u32, u64))
    requires
        bucket_count <= 0x8000_0000_0000_0000,
    ensures
        state == state_of(bucket_count),
        bucket_count == 0 ==> state == (0u32, 0u64),
        bucket_count > 0 ==> describes(state.0, state.1, bucket_count),
        state.0 < 64,
{
    proof {
        lemma2_to64();
        lemma2_to64_rest();
    }
    if bucket_count <= 1 {
        proof {
            if bucket_count == 1 {
                lemma_state_of(0, 0, bucket_count);
            }
        }
        return (0, 0);
    }
    let mut level: u32 = 0;
    while power(level + 1) < bucket_count
        invariant
            level < 63,
            pow2(63) == 0x8000_0000_0000_0000,
            pow2(level as nat) < bucket_count <= 0x8000_0000_0000_0000,
        decreases 63 - level,
    {
        level = level + 1;
        proof {
            if level >= 63 {
                lemma_power_bound(level);
            }
        }
    }
    proof {
        lemma_power_bound(level);
    }
    let base: u64 = power(level);
    let next: u64 = bucket_count - base;
    let state: (u32, u64) = if next >= base {
        (level + 1, 0)
    } else {
        (level, next)
    };
    proof {
        lemma_state_of(state.0, state.1, bucket_count);
    }
    state
}

/// The bucket that a hash falls in.
pub fn bucket_index(level: u32, next: u64, hash: u64) -> (index: u64)
    requires
        level < 63 || level == 63 && next == 0,
    ensures
        index == index_of(level, next, hash),
{
    proof {
        lemma_power_bound(level);
        lemma2_to64_rest();
        if level < 63 {
            lemma_pow2_strictly_increases(level as nat, 63);
        }
    }
    let modulus: u64 = power(level);
    let index: u64 = hash % modulus;
    if index < next {
        hash % (modulus * 2)
    } else {
        index
    }
}

/// A hash falls in one of the buckets of a level and split position.
pub proof fn lemma_index_bound(level: u32, next: u64, hash: u64)
    requires
        level < 64,
        next < pow2(level as nat),
    ensures
        0 <= index_of(level, next, hash) < pow2(level as nat) + next,
{
    lemma_power_bound(level);
    let m = pow2(level as nat) as int;
    lemma_mod_bound(hash as int, m);
    lemma_doubled_modulus(hash as int, m);
}

/// A hash falls in one of the table's buckets.
pub proof fn law_index_in_range(level: u32, next: u64, bucket_count: u64, hash: u64)
    requires
        level < 63,
        describes(level, next, bucket_count),
    ensures
        0 <= index_of(level, next, hash) < bucket_count,
{
    lemma_index_bound(level, next, hash);
}

/// Doubling the modulus keeps a remainder or moves it up by the old modulus.
pub proof fn lemma_doubled_modulus(x: int, m: int)
    requires
        m > 0,
    ensures
        x % (2 * m) == x % m || x % (2 * m) == x % m + m,
        0 <= x % m < m,
{
    let r = x % (2 * m);
    let q = x / (2 * m);
    lemma_fundamental_div_mod(x, 2 * m);
    lemma_mod_bound(x, 2 * m);
    lemma_mod_bound(x, m);
    if r < m {
        assert(x == m * (2 * q) + r) by (nonlinear_arith)
            requires
                x == 2 * m * q + r,
        ;
        lemma_fundamental_div_mod_converse(x, m, 2 * q, r);
    } else {
        assert(x == m * (2 * q + 1) + (r - m)) by (nonlinear_arith)
            requires
                x == 2 * m * q + r,
        ;
        lemma_fundamental_div_mod_converse(x, m, 2 * q + 1, r - m);
    }
}

/// Splitting adds one bucket, and the state after it is the one that the new
/// bucket count describes.
pub proof fn law_split_state(level: u32, next: u64, bucket_count: u64)
    requires
        level < 63,
        describes(level, next, bucket_count),
        bucket_count < u64::MAX,
    ensures
        describes(advanced(level, next).0, advanced(level, next).1, (bucket_count + 1) as u64),
{
    lemma_power_bound(level);
    lemma_pow2_pos((level + 1) as nat);
}

/// A bucket count fixes the level and the split position.
pub proof fn law_state_unique(level: u32, next: u64, other_level: u32, other_next: u64, bucket_count: u64)
    requires
        describes(level, next, bucket_count),
        describes(other_level, other_next, bucket_count),
    ensures
        level == other_level,
        next == other_next,
{
    if level < other_level {
        lemma_pow2_unfold((level + 1) as nat);
        if level + 1 < other_level {
            lemma_pow2_strictly_increases((level + 1) as nat, other_level as nat);
        }
    } else if other_level < level {
        lemma_pow2_unfold((other_level + 1) as nat);
        if other_level + 1 < level {
            lemma_pow2_strictly_increases((other_level + 1) as nat, level as nat);
        }
    }
}

/// A split moves hashes only out of the bucket at `next`, and only into the
/// new bucket, whose index is the old bucket count: a hash moves when it does
/// not fall at `next` under the doubled modulus.
pub proof fn law_split_moves(level: u32, next: u64, bucket_count: u64, hash: u64)
    requires
        level < 62,
        describes(level, next, bucket_count),
    ensures
        ({
            let before = index_of(level, next, hash);
            let after = index_of(advanced(level, next).0, advanced(level, next).1, hash);
            let doubled = hash as int % (2 * pow2(level as nat) as int);
            &&& before != next ==> after == before
            &&& before == next && doubled == next ==> after == next
            &&& before == next && doubled != next ==> after == bucket_count
        }),
{
    lemma_power_bound(level);
    let m = pow2(level as nat) as int;
    lemma_doubled_modulus(hash as int, m);
    lemma_doubled_modulus(hash as int, 2 * m);
}

} // verus!
