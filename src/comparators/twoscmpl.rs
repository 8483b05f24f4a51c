use vstd::prelude::*;

use super::popcnt::{lemma_popcount_clear_lowest, lemma_popcount_zero, popcount, sub1};
use super::Comparator;

verus! {

/// One reduction round: `r XOR (r AND -r)`, which clears the lowest set bit
/// (`-r` is the two's-complement negation).
pub open spec fn tc_round16(r: u16) -> u16 {
    r ^ (r & 0u16.wrapping_sub(r))
}

/// One reduction round on a 32-bit word.
pub open spec fn tc_round32(r: u32) -> u32 {
    r ^ (r & 0u32.wrapping_sub(r))
}

/// `rounds` reduction rounds applied to `r`.
pub open spec fn tc_reduce16(r: u16, rounds: nat) -> u16
    decreases rounds,
{
    if rounds == 0 {
        r
    } else {
        tc_reduce16(tc_round16(r), (rounds - 1) as nat)
    }
}

/// `rounds` reduction rounds applied to a 32-bit `r`.
pub open spec fn tc_reduce32(r: u32, rounds: nat) -> u32
    decreases rounds,
{
    if rounds == 0 {
        r
    } else {
        tc_reduce32(tc_round32(r), (rounds - 1) as nat)
    }
}

/// A round clears the lowest set bit: one set bit fewer, and zero stays zero.
proof fn lemma_tc_round16(r: u16)
    ensures
        r == 0 ==> tc_round16(r) == 0,
        r != 0 ==> popcount(tc_round16(r) as nat) + 1 == popcount(r as nat),
{
    let neg = 0u16.wrapping_sub(r);
    let x = r as u64;
    if r == 0 {
        assert(r == 0 ==> r ^ (r & neg) == 0) by (bit_vector);
    } else {
        assert(neg as int == 0x1_0000 - r);
        assert(r != 0 && neg as u32 + r as u32 == 0x1_0000 ==> (r ^ (r & neg)) as u64 == x & sub1(x))
            by (bit_vector)
            requires
                x == r as u64,
        ;
        lemma_popcount_clear_lowest(x);
    }
}

/// A round on a 32-bit word clears its lowest set bit.
proof fn lemma_tc_round32(r: u32)
    ensures
        r == 0 ==> tc_round32(r) == 0,
        r != 0 ==> popcount(tc_round32(r) as nat) + 1 == popcount(r as nat),
{
    let neg = 0u32.wrapping_sub(r);
    let x = r as u64;
    if r == 0 {
        assert(r == 0 ==> r ^ (r & neg) == 0) by (bit_vector);
    } else {
        assert(neg as int == 0x1_0000_0000 - r);
        assert(r != 0 && neg as u64 + r as u64 == 0x1_0000_0000 ==> (r ^ (r & neg)) as u64 == x
            & sub1(x)) by (bit_vector)
            requires
                x == r as u64,
        ;
        lemma_popcount_clear_lowest(x);
    }
}

/// `rounds` rounds of the two's-complement reduction leave zero exactly when
/// at most `rounds` bits are set: the comparator accepts the words within
/// `rounds` bit errors of the syncword.
pub proof fn lemma_tc_reduce16_is_popcount(r: u16, rounds: nat)
    ensures
        (tc_reduce16(r, rounds) == 0) == (popcount(r as nat) <= rounds),
    decreases rounds,
{
    lemma_popcount_zero(r as nat);
    if rounds > 0 {
        lemma_tc_round16(r);
        lemma_tc_reduce16_is_popcount(tc_round16(r), (rounds - 1) as nat);
        lemma_popcount_zero(0);
    }
}

/// The same for 32-bit words.
pub proof fn lemma_tc_reduce32_is_popcount(r: u32, rounds: nat)
    ensures
        (tc_reduce32(r, rounds) == 0) == (popcount(r as nat) <= rounds),
    decreases rounds,
{
    lemma_popcount_zero(r as nat);
    if rounds > 0 {
        lemma_tc_round32(r);
        lemma_tc_reduce32_is_popcount(tc_round32(r), (rounds - 1) as nat);
        lemma_popcount_zero(0);
    }
}

/// Two's-complement comparison: `value` matches when `tolerance` rounds of
/// lowest-set-bit clearing remove every bit in which it differs from `syncword`.
pub fn twos_complement_match16(syncword: u16, tolerance: usize, value: u16) -> (r: bool)
    ensures
        r == (tc_reduce16(value ^ syncword, tolerance as nat) == 0),
{
    let mut r: u16 = value ^ syncword;
    let mut i: usize = 0;
    while i < tolerance
        invariant
            i <= tolerance,
            tc_reduce16(value ^ syncword, tolerance as nat) == tc_reduce16(
                r,
                (tolerance - i) as nat,
            ),
        decreases tolerance - i,
    {
        let neg = 0u16.wrapping_sub(r);
        r = r ^ (r & neg);
        i += 1;
    }
    r == 0
}

/// Two's-complement comparison of 32-bit words.
pub fn twos_complement_match32(syncword: u32, tolerance: usize, value: u32) -> (r: bool)
    ensures
        r == (tc_reduce32(value ^ syncword, tolerance as nat) == 0),
{
    let mut r: u32 = value ^ syncword;
    let mut i: usize = 0;
    while i < tolerance
        invariant
            i <= tolerance,
            tc_reduce32(value ^ syncword, tolerance as nat) == tc_reduce32(
                r,
                (tolerance - i) as nat,
            ),
        decreases tolerance - i,
    {
        let neg = 0u32.wrapping_sub(r);
        r = r ^ (r & neg);
        i += 1;
    }
    r == 0
}

pub struct TwosComplement16Comparator<const SW: u16, const THR: usize>;

pub struct TwosComplement32Comparator<const SW: u32, const THR: usize>;

impl<const SW: u16, const THR: usize> Comparator<u16> for TwosComplement16Comparator<SW, THR> {
    open spec fn spec_is_match(value: u16) -> bool {
        tc_reduce16(value ^ SW, THR as nat) == 0
    }

    const SYNCWORD: u16 = SW;

    fn is_match(value: u16) -> (r: bool) {
        twos_complement_match16(SW, THR, value)
    }
}

impl<const SW: u32, const THR: usize> Comparator<u32> for TwosComplement32Comparator<SW, THR> {
    open spec fn spec_is_match(value: u32) -> bool {
        tc_reduce32(value ^ SW, THR as nat) == 0
    }

    const SYNCWORD: u32 = SW;

    fn is_match(value: u32) -> (r: bool) {
        twos_complement_match32(SW, THR, value)
    }
}

} // verus!
