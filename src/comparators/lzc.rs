use vstd::prelude::*;
use vstd::std_specs::bits::{
    axiom_u16_leading_zeros, axiom_u32_leading_zeros, u16_leading_zeros, u32_leading_zeros,
};

use super::popcnt::{lemma_popcount_shl, lemma_popcount_top, lemma_popcount_zero, popcount};
use super::Comparator;

verus! {

/// One reduction round: shift left by the leading-zero count, then clear the MSB.
pub open spec fn lzc_round16(r: u16) -> u16 {
    if r == 0 {
        0
    } else {
        (r << u16_leading_zeros(r)) & 0x7fff
    }
}

/// One reduction round on a 32-bit word.
pub open spec fn lzc_round32(r: u32) -> u32 {
    if r == 0 {
        0
    } else {
        (r << u32_leading_zeros(r)) & 0x7fff_ffff
    }
}

/// `rounds` reduction rounds applied to `r`.
pub open spec fn lzc_reduce16(r: u16, rounds: nat) -> u16
    decreases rounds,
{
    if rounds == 0 {
        r
    } else {
        lzc_reduce16(lzc_round16(r), (rounds - 1) as nat)
    }
}

/// `rounds` reduction rounds applied to a 32-bit `r`.
pub open spec fn lzc_reduce32(r: u32, rounds: nat) -> u32
    decreases rounds,
{
    if rounds == 0 {
        r
    } else {
        lzc_reduce32(lzc_round32(r), (rounds - 1) as nat)
    }
}

/// A round takes the most significant set bit away: one set bit fewer, and
/// zero stays zero.
proof fn lemma_lzc_round16(r: u16)
    ensures
        r == 0 ==> lzc_round16(r) == 0,
        r != 0 ==> popcount(lzc_round16(r) as nat) + 1 == popcount(r as nat),
{
    if r != 0 {
        axiom_u16_leading_zeros(r);
        let k = u16_leading_zeros(r);
        let kk = k as u16;
        assert(r >> ((16 - kk) as u16) == 0);
        assert((r >> ((15 - kk) as u16)) & 1 != 0);
        let v: u16 = r << k;
        let x = r as u64;
        let k64 = k as u64;
        assert(x >> 32u64 == 0 && v as u64 == x << k64 && v >= 0x8000 && (v & 0x7fff) as int == v - 0x8000)
            by (bit_vector)
            requires
                v == r << k,
                x == r as u64,
                k64 == k as u64,
                kk == k as u16,
                k < 16,
                r >> ((16 - kk) as u16) == 0,
                (r >> ((15 - kk) as u16)) & 1 != 0,
        ;
        lemma_popcount_shl(x, k64);
        assert(vstd::arithmetic::power2::pow2(15) == 0x8000) by {
            vstd::arithmetic::power2::lemma2_to64();
        }
        lemma_popcount_top((v & 0x7fff) as nat, 15);
    }
}

/// A round on a 32-bit word takes its most significant set bit away.
proof fn lemma_lzc_round32(r: u32)
    ensures
        r == 0 ==> lzc_round32(r) == 0,
        r != 0 ==> popcount(lzc_round32(r) as nat) + 1 == popcount(r as nat),
{
    if r != 0 {
        axiom_u32_leading_zeros(r);
        let k = u32_leading_zeros(r);
        assert(r >> ((32 - k) as u32) == 0);
        assert((r >> ((31 - k) as u32)) & 1 != 0);
        let v: u32 = r << k;
        let x = r as u64;
        let k64 = k as u64;
        assert(x >> 32u64 == 0 && v as u64 == x << k64 && v >= 0x8000_0000 && (v & 0x7fff_ffff) as int == v
            - 0x8000_0000) by (bit_vector)
            requires
                v == r << k,
                x == r as u64,
                k64 == k as u64,
                k < 32,
                r >> ((32 - k) as u32) == 0,
                (r >> ((31 - k) as u32)) & 1 != 0,
        ;
        lemma_popcount_shl(x, k64);
        assert(vstd::arithmetic::power2::pow2(31) == 0x8000_0000) by {
            vstd::arithmetic::power2::lemma2_to64();
        }
        lemma_popcount_top((v & 0x7fff_ffff) as nat, 31);
    }
}

/// `rounds` rounds of the leading-zero-count reduction leave zero exactly
/// when at most `rounds` bits are set: the comparator accepts the words
/// within `rounds` bit errors of the syncword.
pub proof fn lemma_lzc_reduce16_is_popcount(r: u16, rounds: nat)
    ensures
        (lzc_reduce16(r, rounds) == 0) == (popcount(r as nat) <= rounds),
    decreases rounds,
{
    lemma_popcount_zero(r as nat);
    if rounds > 0 {
        lemma_lzc_round16(r);
        lemma_lzc_reduce16_is_popcount(lzc_round16(r), (rounds - 1) as nat);
        lemma_popcount_zero(0);
    }
}

/// The same for 32-bit words.
pub proof fn lemma_lzc_reduce32_is_popcount(r: u32, rounds: nat)
    ensures
        (lzc_reduce32(r, rounds) == 0) == (popcount(r as nat) <= rounds),
    decreases rounds,
{
    lemma_popcount_zero(r as nat);
    if rounds > 0 {
        lemma_lzc_round32(r);
        lemma_lzc_reduce32_is_popcount(lzc_round32(r), (rounds - 1) as nat);
        lemma_popcount_zero(0);
    }
}

/// Leading-zero-count comparison: `value` matches when `tolerance` reduction
/// rounds clear every bit in which it differs from `syncword`.
pub fn lzc_match16(syncword: u16, tolerance: usize, value: u16) -> (r: bool)
    ensures
        r == (lzc_reduce16(value ^ syncword, tolerance as nat) == 0),
{
    let mut r: u16 = value ^ syncword;
    let mut i: usize = 0;
    while i < tolerance
        invariant
            i <= tolerance,
            lzc_reduce16(value ^ syncword, tolerance as nat) == lzc_reduce16(
                r,
                (tolerance - i) as nat,
            ),
        decreases tolerance - i,
    {
        proof {
            axiom_u16_leading_zeros(r);
        }
        let shifted = r.wrapping_shl(r.leading_zeros());
        assert(r == 0 ==> (r << 0u32) & 0x7fff == 0) by (bit_vector);
        r = shifted & 0x7fff;
        i += 1;
    }
    r == 0
}

/// Leading-zero-count comparison of 32-bit words.
pub fn lzc_match32(syncword: u32, tolerance: usize, value: u32) -> (r: bool)
    ensures
        r == (lzc_reduce32(value ^ syncword, tolerance as nat) == 0),
{
    let mut r: u32 = value ^ syncword;
    let mut i: usize = 0;
    while i < tolerance
        invariant
            i <= tolerance,
            lzc_reduce32(value ^ syncword, tolerance as nat) == lzc_reduce32(
                r,
                (tolerance - i) as nat,
            ),
        decreases tolerance - i,
    {
        proof {
            axiom_u32_leading_zeros(r);
        }
        let shifted = r.wrapping_shl(r.leading_zeros());
        assert(r == 0 ==> (r << 0u32) & 0x7fff_ffff == 0) by (bit_vector);
        r = shifted & 0x7fff_ffff;
        i += 1;
    }
    r == 0
}

pub struct LeadingZeroCount16Comparator<const SW: u16, const THR: usize>;

pub struct LeadingZeroCount32Comparator<const SW: u32, const THR: usize>;

impl<const SW: u16, const THR: usize> Comparator<u16> for LeadingZeroCount16Comparator<SW, THR> {
    open spec fn spec_is_match(value: u16) -> bool {
        lzc_reduce16(value ^ SW, THR as nat) == 0
    }

    const SYNCWORD: u16 = SW;

    fn is_match(value: u16) -> (r: bool) {
        lzc_match16(SW, THR, value)
    }
}

impl<const SW: u32, const THR: usize> Comparator<u32> for LeadingZeroCount32Comparator<SW, THR> {
    open spec fn spec_is_match(value: u32) -> bool {
        lzc_reduce32(value ^ SW, THR as nat) == 0
    }

    const SYNCWORD: u32 = SW;

    fn is_match(value: u32) -> (r: bool) {
        lzc_match32(SW, THR, value)
    }
}

} // verus!
