//! Sizes of the hash tables: powers of two.

use vstd::arithmetic::power2::{lemma_pow2_strictly_increases, lemma_pow2_unfold, lemma2_to64, pow2};
use vstd::prelude::*;

verus! {

/// The number of buckets of a table, and of entries of a cache, is counted in a signed 32-bit
/// integer: it is two to the power of at most this.
pub const MAX_SIZE_EXP: usize = 30;

/// The least exponent whose power of two is greater than `cap`, and that power.
pub fn size_for(cap: usize) -> (r: (usize, usize))
    requires
        0 < cap < pow2(MAX_SIZE_EXP as nat),
    ensures
        1 <= r.0 <= MAX_SIZE_EXP,
        r.1 == pow2(r.0 as nat),
        pow2((r.0 - 1) as nat) <= cap < pow2(r.0 as nat),
{
    let mut exp: usize = 0;
    let mut size: usize = 1;
    proof {
        lemma2_to64();
    }
    while size <= cap
        invariant
            0 < cap < pow2(MAX_SIZE_EXP as nat),
            pow2(MAX_SIZE_EXP as nat) == 0x4000_0000,
            exp <= MAX_SIZE_EXP,
            size == pow2(exp as nat),
            size <= 0x4000_0000,
            exp > 0 ==> pow2((exp - 1) as nat) <= cap,
            exp == 0 ==> size == 1,
        decreases MAX_SIZE_EXP - exp,
    {
        proof {
            if exp == MAX_SIZE_EXP {
                assert(size == pow2(MAX_SIZE_EXP as nat));
            }
            lemma_pow2_unfold((exp + 1) as nat);
            if exp + 1 < MAX_SIZE_EXP {
                lemma_pow2_strictly_increases((exp + 1) as nat, MAX_SIZE_EXP as nat);
            }
        }
        size = size * 2;
        exp = exp + 1;
    }
    (exp, size)
}

/// There is one table size for a capacity.
pub proof fn lemma_size_unique(a: nat, b: nat, cap: usize)
    requires
        1 <= a,
        1 <= b,
        pow2((a - 1) as nat) <= cap < pow2(a),
        pow2((b - 1) as nat) <= cap < pow2(b),
    ensures
        a == b,
{
    if a < b {
        if a < b - 1 {
            lemma_pow2_strictly_increases(a, (b - 1) as nat);
        }
    } else if b < a {
        if b < a - 1 {
            lemma_pow2_strictly_increases(b, (a - 1) as nat);
        }
    }
}

/// A table size below the largest one can be doubled.
pub proof fn lemma_double(exp: nat)
    requires
        exp < MAX_SIZE_EXP,
    ensures
        pow2(exp + 1) == 2 * pow2(exp),
        0 < pow2(exp),
        pow2(exp + 1) <= 0x4000_0000,
{
    lemma2_to64();
    lemma_pow2_unfold(exp + 1);
    vstd::arithmetic::power2::lemma_pow2_pos(exp);
    if exp + 1 < MAX_SIZE_EXP {
        lemma_pow2_strictly_increases(exp + 1, MAX_SIZE_EXP as nat);
    }
}

/// Every table size is positive and fits in a signed 32-bit integer.
pub proof fn lemma_size_range(exp: nat)
    requires
        exp <= MAX_SIZE_EXP,
    ensures
        0 < pow2(exp) <= 0x4000_0000,
{
    lemma2_to64();
    vstd::arithmetic::power2::lemma_pow2_pos(exp);
    if exp < MAX_SIZE_EXP {
        lemma_pow2_strictly_increases(exp, MAX_SIZE_EXP as nat);
    }
}

} // verus!
