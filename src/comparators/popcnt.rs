use vstd::prelude::*;

use vstd::arithmetic::div_mod::lemma_fundamental_div_mod_converse;
use vstd::arithmetic::power2::{lemma_pow2_unfold, pow2};

use super::Comparator;

verus! {

/// Number of set bits of `x`.
pub open spec fn popcount(x: nat) -> nat
    decreases x,
{
    if x == 0 {
        0
    } else {
        x % 2 + popcount(x / 2)
    }
}

/// The low bit, then the rest.
pub proof fn lemma_popcount_step(x: nat)
    ensures
        popcount(x) == x % 2 + popcount(x / 2),
{
}

/// Only zero has no set bit.
pub proof fn lemma_popcount_zero(x: nat)
    ensures
        (popcount(x) == 0) == (x == 0),
    decreases x,
{
    if x > 0 {
        lemma_popcount_zero(x / 2);
    }
}

/// Clearing the lowest set bit (`x & (x - 1)`) takes one set bit away.
pub proof fn lemma_popcount_clear_lowest(x: u64)
    requires
        0 < x,
    ensures
        popcount((x & sub1(x)) as nat) + 1 == popcount(x as nat),
    decreases x,
{
    let y = x & sub1(x);
    lemma_popcount_step(y as nat);
    lemma_popcount_step(x as nat);
    if x % 2 == 1 {
        assert(x % 2 == 1 ==> x & sub1(x) == x - 1) by (bit_vector);
        lemma_popcount_step((x - 1) as nat);
        assert((x - 1) as nat / 2 == x as nat / 2);
    } else {
        let h: u64 = x / 2;
        assert(x % 2 == 0 && x > 0 ==> (x & sub1(x)) / 2 == (x / 2) & sub1(x / 2) && (x & sub1(x))
            % 2 == 0 && x / 2 > 0) by (bit_vector);
        lemma_popcount_clear_lowest(h);
    }
}

/// `x - 1` on a positive word.
pub open spec fn sub1(x: u64) -> u64 {
    (x - 1) as u64
}

/// Shifting left without losing a bit keeps the set bits.
pub proof fn lemma_popcount_shl(x: u64, k: u64)
    requires
        x >> 32u64 == 0,
        k < 32,
    ensures
        popcount((x << k) as nat) == popcount(x as nat),
    decreases k,
{
    if k == 0 {
        assert(x << 0u64 == x) by (bit_vector);
    } else {
        let km = (k - 1) as u64;
        lemma_popcount_shl(x, km);
        let y: u64 = x << km;
        assert(x >> 32u64 == 0 && km < 31 ==> (x << km) << 1u64 == x << (km + 1) && (x << km) << 1u64
            == 2 * (x << km)) by (bit_vector);
        lemma_popcount_step((2 * y) as nat);
    }
}

/// A bit above all set bits of `u` adds one set bit.
pub proof fn lemma_popcount_top(u: nat, k: nat)
    requires
        u < pow2(k),
    ensures
        popcount(pow2(k) + u) == 1 + popcount(u),
    decreases k,
{
    if k == 0 {
        assert(pow2(0) == 1) by {
            vstd::arithmetic::power2::lemma2_to64();
        }
        assert(popcount(1) == 1 + popcount(0));
    } else {
        lemma_pow2_unfold(k);
        let h = pow2((k - 1) as nat);
        lemma_fundamental_div_mod_converse((pow2(k) + u) as int, 2, (h + u / 2) as int, u as int % 2);
        lemma_popcount_top(u / 2, (k - 1) as nat);
        lemma_popcount_step(pow2(k) + u);
        lemma_popcount_step(u);
    }
}

/// Relies on `u16::count_ones`: the number of ones in the binary representation.
pub assume_specification[ u16::count_ones ](x: u16) -> (r: u32)
    ensures
        r == popcount(x as nat),
;

/// Relies on `u32::count_ones`: the number of ones in the binary representation.
pub assume_specification[ u32::count_ones ](x: u32) -> (r: u32)
    ensures
        r == popcount(x as nat),
;

/// Hamming comparison: `value` matches when it differs from `syncword` in at
/// most `tolerance` bits.
pub fn popcount_match16(syncword: u16, tolerance: u32, value: u16) -> (r: bool)
    ensures
        r == (popcount((value ^ syncword) as nat) <= tolerance),
{
    (value ^ syncword).count_ones() <= tolerance
}

/// Hamming comparison of 32-bit words.
pub fn popcount_match32(syncword: u32, tolerance: u32, value: u32) -> (r: bool)
    ensures
        r == (popcount((value ^ syncword) as nat) <= tolerance),
{
    (value ^ syncword).count_ones() <= tolerance
}

pub struct PopCount16Comparator<const SW: u16, const THR: u32>;

pub struct PopCount32Comparator<const SW: u32, const THR: u32>;

impl<const SW: u16, const THR: u32> Comparator<u16> for PopCount16Comparator<SW, THR> {
    open spec fn spec_is_match(value: u16) -> bool {
        popcount((value ^ SW) as nat) <= THR
    }

    const SYNCWORD: u16 = SW;

    fn is_match(value: u16) -> (r: bool) {
        popcount_match16(SW, THR, value)
    }
}

impl<const SW: u32, const THR: u32> Comparator<u32> for PopCount32Comparator<SW, THR> {
    open spec fn spec_is_match(value: u32) -> bool {
        popcount((value ^ SW) as nat) <= THR
    }

    const SYNCWORD: u32 = SW;

    fn is_match(value: u32) -> (r: bool) {
        popcount_match32(SW, THR, value)
    }
}

} // verus!
