use vstd::arithmetic::power2::pow2;
use vstd::prelude::*;

use crate::stream::{
    blocks_bytes, first_match, lemma_first_match_is, lemma_first_match_none, lemma_inserted_word,
    lemma_word_bound, stream_bit, word_at,
};

pub mod cortexm4;
mod double16;
mod double32;
mod single16;
mod single32;

pub use self::double16::Double16Detector;
pub use self::double32::Double32Detector;
pub use self::single16::Single16Detector;
pub use self::single32::Single32Detector;

verus! {

/// Scans a sequence of aligned blocks for the syncword at every bit position
/// they span.
///
/// A detector only reports positions whose whole word lies inside the blocks
/// handed to it, and it leaves out the last position that has one: for `n`
/// blocks of `8 * L` bits it tests the positions `0 .. 8 * L * n - W`. The
/// haystack is a slice, so that a caller can run it over any contiguous part
/// of its blocks.
pub trait Detector<T>: Sized {
    type Block: Copy;

    const SYNCWORD: T;

    /// Bytes in a block (`L`).
    spec fn spec_block_len() -> nat;

    /// Bits in the syncword (`W`).
    spec fn spec_width() -> nat;

    /// The value of a block: its bytes read big-endian.
    spec fn spec_block_value(block: Self::Block) -> u64;

    /// Whether the comparator accepts the `W`-bit word `word`.
    spec fn spec_is_match(word: nat) -> bool;

    /// The shape every detector has.
    proof fn lemma_shape()
        ensures
            1 <= Self::spec_block_len() <= 8,
            1 <= Self::spec_width() <= 8 * Self::spec_block_len(),
    ;

    /// Bytes in a block.
    fn block_len() -> (r: usize)
        ensures
            r == Self::spec_block_len(),
    ;

    /// Reads a block from its bytes in network order.
    fn from_slice(slice: &[u8]) -> (block: Self::Block)
        requires
            slice@.len() == Self::spec_block_len(),
        ensures
            blocks_bytes(seq![Self::spec_block_value(block)], Self::spec_block_len()) == slice@,
    ;

    /// Writes the bytes of a block, in network order, at the end of `out`.
    fn append_bytes(block: Self::Block, out: &mut Vec<u8>)
        ensures
            final(out)@ == old(out)@ + blocks_bytes(
                seq![Self::spec_block_value(block)],
                Self::spec_block_len(),
            ),
    ;

    /// Searches a haystack for the syncword and returns the bit position of the
    /// first position where the comparator accepts the word found there.
    fn position_in_blocks(&self, haystack: &[Self::Block]) -> (r: Option<usize>)
        requires
            haystack@.len() * 8 * Self::spec_block_len() <= usize::MAX,
        ensures
            option_nat(r) == first_match(
                blocks_bytes(
                    haystack@.map_values(|b: Self::Block| Self::spec_block_value(b)),
                    Self::spec_block_len(),
                ),
                Self::spec_width(),
                |w: nat| Self::spec_is_match(w),
                8 * Self::spec_block_len() * haystack@.len() - Self::spec_width(),
            ),
    ;
}

/// Reads four bytes in network order.
pub(crate) fn read_u32(slice: &[u8]) -> (r: u32)
    requires
        slice@.len() == 4,
    ensures
        blocks_bytes(seq![r as u64], 4) == slice@,
{
    let (b0, b1, b2, b3) = (slice[0], slice[1], slice[2], slice[3]);
    let r = ((b0 as u32) << 24u32) | ((b1 as u32) << 16u32) | ((b2 as u32) << 8u32) | (b3 as u32);
    let ghost v = r as u64;
    assert(((v >> 24u64) & 0xff) as u8 == b0 && ((v >> 16u64) & 0xff) as u8 == b1 && ((v >> 8u64)
        & 0xff) as u8 == b2 && ((v >> 0u64) & 0xff) as u8 == b3) by (bit_vector)
        requires
            v == (((b0 as u32) << 24u32) | ((b1 as u32) << 16u32) | ((b2 as u32) << 8u32) | (
            b3 as u32)) as u64,
    ;
    assert(blocks_bytes(seq![v], 4) =~= slice@);
    r
}

/// Appends the four bytes of `v` in network order.
pub(crate) fn write_u32(v: u32, out: &mut Vec<u8>)
    ensures
        final(out)@ == old(out)@ + blocks_bytes(seq![v as u64], 4),
{
    let ghost x = v as u64;
    assert(((x >> 24u64) & 0xff) as u8 == (v >> 24u32) as u8 && ((x >> 16u64) & 0xff) as u8 == (v
        >> 16u32) as u8 && ((x >> 8u64) & 0xff) as u8 == (v >> 8u32) as u8 && ((x >> 0u64) & 0xff)
        as u8 == v as u8) by (bit_vector)
        requires
            x == v as u64,
    ;
    out.push((v >> 24u32) as u8);
    out.push((v >> 16u32) as u8);
    out.push((v >> 8u32) as u8);
    out.push(v as u8);
    assert(final(out)@ =~= old(out)@ + blocks_bytes(seq![x], 4));
}

/// Reads eight bytes in network order.
pub(crate) fn read_u64(slice: &[u8]) -> (r: u64)
    requires
        slice@.len() == 8,
    ensures
        blocks_bytes(seq![r], 8) == slice@,
{
    let hi = read_u32(&slice[0..4]);
    let lo = read_u32(&slice[4..8]);
    let r = ((hi as u64) << 32u64) | (lo as u64);
    assert(blocks_bytes(seq![r], 8) =~= slice@) by {
        let h = hi as u64;
        let l = lo as u64;
        assert(h >> 32u64 == 0 && l >> 32u64 == 0) by (bit_vector)
            requires
                h == hi as u64,
                l == lo as u64,
        ;
        assert(slice@.subrange(0, 4) == blocks_bytes(seq![h], 4));
        assert(slice@.subrange(4, 8) == blocks_bytes(seq![l], 4));
        assert forall|i: int| 0 <= i < 8 implies #[trigger] blocks_bytes(seq![r], 8)[i] == slice@[i] by {
            let ii = (i % 4) as u64;
            assert(ii < 4 ==> ((r >> ((8 * (7 - ii)) as u64)) & 0xff) as u8 == ((h >> ((8 * (3 - ii)) as u64)) & 0xff)
                as u8 && ((r >> ((8 * (3 - ii)) as u64)) & 0xff) as u8 == ((l >> ((8 * (3 - ii)) as u64)) & 0xff) as u8)
                by (bit_vector)
                requires
                    r == (h << 32u64) | l,
                    h >> 32u64 == 0,
                    l >> 32u64 == 0,
            ;
            if i < 4 {
                assert(slice@[i] == slice@.subrange(0, 4)[i]);
            } else {
                assert(slice@[i] == slice@.subrange(4, 8)[i - 4]);
            }
        }
    }
    r
}

/// Appends the eight bytes of `v` in network order.
pub(crate) fn write_u64(v: u64, out: &mut Vec<u8>)
    ensures
        final(out)@ == old(out)@ + blocks_bytes(seq![v], 8),
{
    #[verifier::truncate]
    let hi = (v >> 32u64) as u32;
    #[verifier::truncate]
    let lo = v as u32;
    write_u32(hi, out);
    write_u32(lo, out);
    proof {
        let h = hi as u64;
        let l = lo as u64;
        let both = blocks_bytes(seq![h], 4) + blocks_bytes(seq![l], 4);
        assert forall|i: int| 0 <= i < 8 implies both[i] == #[trigger] blocks_bytes(seq![v], 8)[i] by {
            let ii = (i % 4) as u64;
            assert(ii < 4 ==> ((v >> ((8 * (7 - ii)) as u64)) & 0xff) as u8 == ((h >> ((8 * (3 - ii)) as u64)) & 0xff)
                as u8 && ((v >> ((8 * (3 - ii)) as u64)) & 0xff) as u8 == ((l >> ((8 * (3 - ii)) as u64)) & 0xff) as u8)
                by (bit_vector)
                requires
                    h == (v >> 32u64) as u32 as u64,
                    l == v as u32 as u64,
            ;
        }
        assert(both =~= blocks_bytes(seq![v], 8));
        assert(out@ =~= old(out)@ + both);
    }
}

/// An optional position, as a `nat`.
pub open spec fn option_nat(r: Option<usize>) -> Option<nat> {
    match r {
        Some(p) => Some(p as nat),
        None => None,
    }
}

/// The values of a sequence of blocks.
pub open spec fn block_values<T, D: Detector<T>>(blocks: Seq<D::Block>) -> Seq<u64> {
    blocks.map_values(|b: D::Block| D::spec_block_value(b))
}

/// The bytes of a sequence of blocks.
pub open spec fn detector_bytes<T, D: Detector<T>>(blocks: Seq<D::Block>) -> Seq<u8> {
    blocks_bytes(block_values::<T, D>(blocks), D::spec_block_len())
}

/// The comparator of a detector, as a predicate on words.
pub open spec fn detector_matcher<T, D: Detector<T>>() -> spec_fn(nat) -> bool {
    |w: nat| D::spec_is_match(w)
}

/// The positions a detector tests in `n` blocks end here.
pub open spec fn detector_limit<T, D: Detector<T>>(n: nat) -> int {
    8 * D::spec_block_len() * n - D::spec_width()
}

/// What a detector reports for `blocks`: the smallest tested position whose
/// word the comparator accepts.
pub open spec fn detector_position<T, D: Detector<T>>(blocks: Seq<D::Block>) -> Option<nat> {
    first_match(
        detector_bytes::<T, D>(blocks),
        D::spec_width(),
        detector_matcher::<T, D>(),
        detector_limit::<T, D>(blocks.len()),
    )
}

/// A detector whose comparator accepts, among `W`-bit words, exactly the
/// nonzero syncword `sw` finds `sw` inserted at bit `p` of a haystack that is
/// zero before it: at `p` when `p` is a tested position, and nowhere when `p`
/// is the first position left untested (`8 * L * n - W`).
pub proof fn lemma_detects_inserted_syncword<T, D: Detector<T>>(
    blocks: Seq<D::Block>,
    sw: nat,
    p: nat,
)
    requires
        0 < sw,
        forall|w: nat| w < pow2(D::spec_width()) ==> (D::spec_is_match(w) <==> w == sw),
        word_at(detector_bytes::<T, D>(blocks), p as int, D::spec_width()) == sw,
        forall|i: int| 0 <= i < p ==> !#[trigger] stream_bit(detector_bytes::<T, D>(blocks), i),
    ensures
        p < detector_limit::<T, D>(blocks.len()) ==> detector_position::<T, D>(blocks) == Some(p),
        p == detector_limit::<T, D>(blocks.len()) ==> detector_position::<T, D>(blocks) is None,
{
    let s = detector_bytes::<T, D>(blocks);
    let w = D::spec_width();
    let m = detector_matcher::<T, D>();
    let limit = detector_limit::<T, D>(blocks.len());
    assert forall|q: int| 0 <= q < p implies !m(#[trigger] word_at(s, q, w)) by {
        lemma_inserted_word(s, w, sw, p as int, q);
        lemma_word_bound(s, q, w);
    }
    lemma_word_bound(s, p as int, w);
    if p < limit {
        lemma_first_match_is(s, w, m, 0, limit, p as int);
    }
    if p == limit {
        lemma_first_match_none(s, w, m, 0, limit);
    }
}

} // verus!
