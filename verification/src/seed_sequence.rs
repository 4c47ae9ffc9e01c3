//! Spreading a seed over many bits, as numpy's `SeedSequence` does.
//!
//! The two halves of the seed are hashed into a pool of four words, each word
//! of the pool is mixed into the others, and words are hashed out of the pool.
//! Every hash has two multipliers of its own, which follow one another.

use vstd::prelude::*;

verus! {

/// A product of 32 bits, by remainder.
pub open spec fn times32(x: u32, y: u32) -> u32 {
    ((x as nat * y as nat) % 0x1_0000_0000) as u32
}

/// A difference of 32 bits, by remainder.
pub open spec fn minus32(x: u32, y: u32) -> u32 {
    if x >= y {
        (x - y) as u32
    } else {
        (x - y + 0x1_0000_0000) as u32
    }
}

/// The multiplier of hashing in, after `k` hashes.
pub open spec fn inner_multiplier(k: nat) -> u32
    decreases k,
{
    if k == 0 {
        0x43b0_d7e5
    } else {
        times32(inner_multiplier((k - 1) as nat), 0x931e_8875)
    }
}

/// The multiplier of hashing out, after `k` hashes.
pub open spec fn outer_multiplier(k: nat) -> u32
    decreases k,
{
    if k == 0 {
        0x8b51_f9dd
    } else {
        times32(outer_multiplier((k - 1) as nat), 0x58f3_8ded)
    }
}

/// A word hashed with two multipliers.
pub open spec fn hashed(value: u32, first: u32, second: u32) -> u32 {
    let v = times32(value ^ first, second);
    v ^ (v >> 16)
}

/// A word of the pool with another one mixed in.
pub open spec fn mixed_in(x: u32, y: u32) -> u32 {
    let v = minus32(times32(0xca01_f9dd, x), times32(0x4973_f715, y));
    v ^ (v >> 16)
}

/// A word hashed in as number `k`.
pub open spec fn hashed_in(value: u32, k: nat) -> u32 {
    hashed(value, inner_multiplier(k), inner_multiplier(k + 1))
}

/// The pool before mixing: the low and the high half of the seed, and two zeros.
pub open spec fn filled_pool(seed: u64) -> Seq<u32> {
    seq![
        hashed_in((seed % 0x1_0000_0000) as u32, 0),
        hashed_in((seed / 0x1_0000_0000) as u32, 1),
        hashed_in(0, 2),
        hashed_in(0, 3),
    ]
}

/// The word that mixing step `n` goes out from.
pub open spec fn mix_source(n: nat) -> nat {
    n / 3
}

/// The word that mixing step `n` changes: each but the source in turn.
pub open spec fn mix_target(n: nat) -> nat {
    if n % 3 < n / 3 {
        n % 3
    } else {
        n % 3 + 1
    }
}

/// The pool after `n` of the 12 mixing steps.
pub open spec fn mixed_pool(seed: u64, n: nat) -> Seq<u32>
    decreases n,
{
    if n == 0 {
        filled_pool(seed)
    } else {
        let k = (n - 1) as nat;
        let pool = mixed_pool(seed, k);
        let source = mix_source(k) as int;
        let target = mix_target(k) as int;
        pool.update(target, mixed_in(pool[target], hashed_in(pool[source], k + 4)))
    }
}

/// The `i`-th word of 32 bits that a seed gives.
pub open spec fn seed_word32(seed: u64, i: nat) -> u32 {
    hashed(
        mixed_pool(seed, 12)[(i % 4) as int],
        outer_multiplier(i),
        outer_multiplier(i + 1),
    )
}

/// The `i`-th word of 64 bits that a seed gives: two of 32, the lower one first.
pub open spec fn seed_word64(seed: u64, i: nat) -> u64 {
    (seed_word32(seed, 2 * i) + 0x1_0000_0000 * seed_word32(seed, 2 * i + 1)) as u64
}

fn hash(value: u32, first: u32, second: u32) -> (r: u32)
    ensures
        r == hashed(value, first, second),
{
    let v: u32 = (value ^ first).wrapping_mul(second);
    v ^ (v >> 16)
}

fn mix_in(x: u32, y: u32) -> (r: u32)
    ensures
        r == mixed_in(x, y),
{
    let a: u32 = 0xca01_f9ddu32.wrapping_mul(x);
    let b: u32 = 0x4973_f715u32.wrapping_mul(y);
    let v: u32 = a.wrapping_sub(b);
    v ^ (v >> 16)
}

proof fn lemma_pool_length(seed: u64, n: nat)
    ensures
        mixed_pool(seed, n).len() == 4,
    decreases n,
{
    if n > 0 {
        lemma_pool_length(seed, (n - 1) as nat);
    }
}

/// The pool of a seed.
fn pool_of(seed: u64) -> (pool: Vec<u32>)
    ensures
        pool@ == mixed_pool(seed, 12),
{
    let mut multiplier: u32 = 0x43b0_d7e5;
    let mut pool: Vec<u32> = Vec::new();
    let mut i: usize = 0;
    while i < 4
        invariant
            i <= 4,
            multiplier == inner_multiplier(i as nat),
            pool@ == filled_pool(seed).take(i as int),
        decreases 4 - i,
    {
        let value: u32 = if i == 0 {
            (seed % 0x1_0000_0000) as u32
        } else if i == 1 {
            (seed / 0x1_0000_0000) as u32
        } else {
            0
        };
        let next: u32 = multiplier.wrapping_mul(0x931e_8875);
        pool.push(hash(value, multiplier, next));
        multiplier = next;
        proof {
            assert(pool@ == filled_pool(seed).take(i + 1));
        }
        i = i + 1;
    }
    proof {
        assert(filled_pool(seed).take(4) == filled_pool(seed));
    }
    let mut n: usize = 0;
    while n < 12
        invariant
            n <= 12,
            multiplier == inner_multiplier((n + 4) as nat),
            pool@ == mixed_pool(seed, n as nat),
        decreases 12 - n,
    {
        proof {
            lemma_pool_length(seed, n as nat);
        }
        let source: usize = n / 3;
        let target: usize = if n % 3 < n / 3 {
            n % 3
        } else {
            n % 3 + 1
        };
        let next: u32 = multiplier.wrapping_mul(0x931e_8875);
        let v = mix_in(pool[target], hash(pool[source], multiplier, next));
        pool.set(target, v);
        multiplier = next;
        n = n + 1;
    }
    pool
}

/// The first four words of 64 bits that a seed gives.
pub fn seed_words(seed: u64) -> (r: [u64; 4])
    ensures
        forall|i: int| 0 <= i < 4 ==> #[trigger] r@[i] == seed_word64(seed, i as nat),
{
    let pool = pool_of(seed);
    proof {
        lemma_pool_length(seed, 12);
    }
    let mut r: [u64; 4] = [0, 0, 0, 0];
    let mut multiplier: u32 = 0x8b51_f9dd;
    let mut i: usize = 0;
    while i < 4
        invariant
            i <= 4,
            pool@.len() == 4,
            pool@ == mixed_pool(seed, 12),
            multiplier == outer_multiplier((2 * i) as nat),
            forall|j: int| 0 <= j < i ==> #[trigger] r@[j] == seed_word64(seed, j as nat),
        decreases 4 - i,
    {
        let second: u32 = multiplier.wrapping_mul(0x58f3_8ded);
        let third: u32 = second.wrapping_mul(0x58f3_8ded);
        let low = hash(pool[(2 * i) % 4], multiplier, second);
        let high = hash(pool[(2 * i + 1) % 4], second, third);
        r[i] = low as u64 + 0x1_0000_0000 * high as u64;
        proof {
            assert(second == outer_multiplier((2 * i + 1) as nat));
            assert(third == outer_multiplier((2 * i + 2) as nat));
            assert(low == seed_word32(seed, (2 * i) as nat));
            assert(high == seed_word32(seed, (2 * i + 1) as nat));
        }
        multiplier = third;
        i = i + 1;
    }
    r
}

} // verus!
