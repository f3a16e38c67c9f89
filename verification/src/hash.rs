//! The SplitMix64 mixers that hash nodes and operation cache keys.

use vstd::arithmetic::div_mod::{
    lemma_mul_mod_noop_left, lemma_mul_mod_noop_right, lemma_small_mod,
};
use vstd::arithmetic::mul::lemma_mul_is_associative;
use vstd::prelude::*;

verus! {

/// The bits of `x` turned left by `k` places.
pub open spec fn rotated_left(x: u64, k: u64) -> u64 {
    (x << k) | (x >> ((64 - k) as u64))
}

/// One step of a SplitMix64 mixer: fold `x` onto itself shifted right, then multiply.
pub open spec fn mix_step(x: u64, shift: u64, factor: u64) -> u64 {
    (x ^ (x >> shift)).wrapping_mul(factor)
}

/// The SplitMix64 output function applied to the state that follows `x`.
pub open spec fn mix1(x: u64) -> u64 {
    let a = x.wrapping_add(0x9e3779b97f4a7c15);
    let b = mix_step(a, 30, 0xbf58476d1ce4e5b9);
    let c = mix_step(b, 27, 0x94d049bb133111eb);
    c ^ (c >> 31)
}

/// The hash of an ordered pair of words.
#[verifier::opaque]
pub open spec fn mix2(x: u64, y: u64) -> u64 {
    mix1(x) ^ rotated_left(mix1(y), 1)
}

/// The hash of an ordered triple of words.
#[verifier::opaque]
pub open spec fn mix3(a: u64, b: u64, c: u64) -> u64 {
    mix1(mix1(a) ^ rotated_left(mix1(b), 1) ^ rotated_left(mix1(c), 7))
}

fn rotate_left(x: u64, k: u64) -> (r: u64)
    requires
        0 < k < 64,
    ensures
        r == rotated_left(x, k),
{
    (x << k) | (x >> (64 - k))
}

pub fn splitmix64(x: u64) -> (r: u64)
    ensures
        r == mix1(x),
{
    let a: u64 = x.wrapping_add(0x9e3779b97f4a7c15);
    let b: u64 = (a ^ (a >> 30)).wrapping_mul(0xbf58476d1ce4e5b9);
    let c: u64 = (b ^ (b >> 27)).wrapping_mul(0x94d049bb133111eb);
    c ^ (c >> 31)
}

pub fn splitmix64_2(x: u64, y: u64) -> (r: u64)
    ensures
        r == mix2(x, y),
{
    proof {
        reveal(mix2);
    }
    let hx: u64 = splitmix64(x);
    let hy: u64 = splitmix64(y);
    hx ^ rotate_left(hy, 1)
}

pub fn splitmix64_3(a: u64, b: u64, c: u64) -> (r: u64)
    ensures
        r == mix3(a, b, c),
{
    proof {
        reveal(mix3);
    }
    let ha: u64 = splitmix64(a);
    let hb: u64 = splitmix64(b);
    let hc: u64 = splitmix64(c);
    let h: u64 = ha ^ rotate_left(hb, 1) ^ rotate_left(hc, 7);
    splitmix64(h)
}

/// Takes a multiplication back: the product with a factor's inverse.
proof fn lemma_undone(x: u64, factor: u64, inverse: u64)
    requires
        (factor * inverse) % 0x1_0000_0000_0000_0000 == 1,
    ensures
        x.wrapping_mul(factor).wrapping_mul(inverse) == x,
{
    let m = 0x1_0000_0000_0000_0000int;
    let (a, b, c) = (x as int, factor as int, inverse as int);
    lemma_mul_mod_noop_left(a * b, c, m);
    lemma_mul_is_associative(a, b, c);
    lemma_mul_mod_noop_right(a, b * c, m);
    lemma_small_mod(x as nat, m as nat);
    assert(((a * b) % m * c) % m == a);
}

/// The bits of `x` turned right by `k` places.
pub open spec fn rotated_right(x: u64, k: u64) -> u64 {
    (x >> k) | (x << ((64 - k) as u64))
}

/// What SplitMix64 hashes to `h`: its steps in reverse.
pub open spec fn unmixed(h: u64) -> u64 {
    let c = h ^ (h >> 31) ^ (h >> 62);
    let p = c.wrapping_mul(0x319642b2d24d8ec3);
    let b = p ^ (p >> 27) ^ (p >> 54);
    let q = b.wrapping_mul(0x96de1b173f119089);
    let a = q ^ (q >> 30) ^ (q >> 60);
    a.wrapping_sub(0x9e3779b97f4a7c15)
}

/// A hash can be taken back, so no two words have the same one.
pub proof fn law_mix1(x: u64, y: u64)
    ensures
        unmixed(mix1(x)) == x,
        mix1(x) == mix1(y) <==> x == y,
{
    lemma_unmixed(x);
    lemma_unmixed(y);
}

proof fn lemma_unmixed(x: u64)
    ensures
        unmixed(mix1(x)) == x,
{
    let a = x.wrapping_add(0x9e3779b97f4a7c15);
    let q = a ^ (a >> 30);
    let b = q.wrapping_mul(0xbf58476d1ce4e5b9);
    let p = b ^ (b >> 27);
    let c = p.wrapping_mul(0x94d049bb133111eb);
    let h = c ^ (c >> 31);
    assert(h == mix1(x));
    assert(h ^ (h >> 31) ^ (h >> 62) == c) by (bit_vector)
        requires
            h == c ^ (c >> 31),
    ;
    lemma_undone(p, 0x94d049bb133111eb, 0x319642b2d24d8ec3);
    assert(p ^ (p >> 27) ^ (p >> 54) == b) by (bit_vector)
        requires
            p == b ^ (b >> 27),
    ;
    lemma_undone(q, 0xbf58476d1ce4e5b9, 0x96de1b173f119089);
    assert(q ^ (q >> 30) ^ (q >> 60) == a) by (bit_vector)
        requires
            q == a ^ (a >> 30),
    ;
}

/// The hash of a pair without that of its first word is that of its second one, turned by one
/// place.
pub proof fn law_mix2(x: u64, y: u64)
    ensures
        rotated_right(mix2(x, y) ^ mix1(x), 1) == mix1(y),
{
    reveal(mix2);
    let (a, b) = (mix1(x), mix1(y));
    let r = (b << 1) | (b >> 63);
    assert(mix2(x, y) == a ^ r);
    assert((((a ^ r) ^ a) >> 1) | (((a ^ r) ^ a) << 63) == b) by (bit_vector)
        requires
            r == (b << 1) | (b >> 63),
    ;
}

/// The hash of a triple is that of its words' hashes taken together: with that of the first word
/// and that of the second, turned by one place, taken out, what is left is that of the third,
/// turned by seven.
pub proof fn law_mix3(x: u64, y: u64, z: u64)
    ensures
        rotated_right(unmixed(mix3(x, y, z)) ^ mix1(x) ^ rotated_left(mix1(y), 1), 7) == mix1(z),
{
    reveal(mix3);
    let (a, b, c) = (mix1(x), rotated_left(mix1(y), 1), mix1(z));
    let r = (c << 7) | (c >> 57);
    lemma_unmixed(a ^ b ^ r);
    assert(mix3(x, y, z) == mix1(a ^ b ^ r));
    assert((((a ^ b ^ r) ^ a ^ b) >> 7) | (((a ^ b ^ r) ^ a ^ b) << 57) == c) by (bit_vector)
        requires
            r == (c << 7) | (c >> 57),
    ;
}

} // verus!
