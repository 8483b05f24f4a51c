use vstd::prelude::*;

use crate::comparators::Comparator;
use crate::stream::{
    lemma_shl_u32,
    blocks_bytes, first_match_from, lemma_block_bit, lemma_word_from_bits,
    stream_bit, word_at,
};

use super::Detector;

verus! {

/// Detector of a 16-bit syncword in 16-bit blocks.
///
/// It slides a 32-bit window over each pair of neighbouring blocks and tests
/// the high half at each of 16 shifts.
pub struct Single16Detector<C: Comparator<u16>> {
    comparator: core::marker::PhantomData<C>,
}

impl<C: Comparator<u16>> Single16Detector<C> {
    pub fn new() -> Self {
        Self { comparator: core::marker::PhantomData }
    }
}

/// The word tested at `offset` in the window over blocks `first`, `second` is
/// the word of the stream `offset` bits into `first`.
proof fn lemma_window(values: Seq<u64>, k: int, first: u16, second: u16, offset: u32)
    requires
        0 <= k,
        k + 1 < values.len(),
        values[k] == first as u64,
        values[k + 1] == second as u64,
        offset < 16,
    ensures
        word_at(blocks_bytes(values, 2), 16 * k + offset, 16) == ((((((first as u32) << 16u32) | (
        second as u32)) << offset) >> 16u32) as u16),
{
    let s = blocks_bytes(values, 2);
    let x: u64 = ((((((first as u32) << 16u32) | (second as u32)) << offset) >> 16u32) as u16) as u64;
    assert(x >> 16u64 == 0) by (bit_vector)
        requires
            x == ((((((first as u32) << 16u32) | (second as u32)) << offset) >> 16u32) as u16) as u64,
    ;
    assert forall|j: int| 0 <= j < 16 implies #[trigger] stream_bit(s, 16 * k + offset + j) == ((x
        >> ((16 - 1 - j) as u64)) & 1 == 1) by {
        let i = offset + j;
        let jj = j as u32;
        assert(((x >> ((15 - jj) as u64)) & 1 == 1) == if offset + jj < 16 {
            ((first as u64) >> ((15 - offset - jj) as u64)) & 1 == 1
        } else {
            ((second as u64) >> ((31 - offset - jj) as u64)) & 1 == 1
        }) by (bit_vector)
            requires
                x == ((((((first as u32) << 16u32) | (second as u32)) << offset) >> 16u32) as u16)
                    as u64,
                offset < 16,
                jj < 16,
        ;
        if i < 16 {
            lemma_block_bit(values, 2, k, i);
        } else {
            lemma_block_bit(values, 2, k + 1, i - 16);
        }
    }
    lemma_word_from_bits(s, 16 * k + offset, 16, x);
}

impl<C: Comparator<u16>> Detector<u16> for Single16Detector<C> {
    type Block = u16;

    const SYNCWORD: u16 = C::SYNCWORD;

    open spec fn spec_block_len() -> nat {
        2
    }

    open spec fn spec_width() -> nat {
        16
    }

    open spec fn spec_block_value(block: u16) -> u64 {
        block as u64
    }

    open spec fn spec_is_match(word: nat) -> bool {
        C::spec_is_match(word as u16)
    }

    proof fn lemma_shape() {
    }

    fn block_len() -> (r: usize) {
        2
    }

    fn from_slice(slice: &[u8]) -> (block: u16) {
        let block = ((slice[0] as u16) << 8u16) | (slice[1] as u16);
        let ghost v = block as u64;
        assert(blocks_bytes(seq![v], 2) =~= slice@) by {
            let (hi, lo) = (slice[0], slice[1]);
            assert(((v >> 8u64) & 0xff) as u8 == hi && ((v >> 0u64) & 0xff) as u8 == lo)
                by (bit_vector)
                requires
                    v == (((hi as u16) << 8u16) | (lo as u16)) as u64,
            ;
        }
        block
    }

    fn append_bytes(block: u16, out: &mut Vec<u8>) {
        let ghost v = block as u64;
        assert(((v >> 8u64) & 0xff) as u8 == (block >> 8u16) as u8 && ((v >> 0u64) & 0xff) as u8
            == block as u8) by (bit_vector)
            requires
                v == block as u64,
        ;
        out.push((block >> 8u16) as u8);
        out.push(block as u8);
        assert(final(out)@ =~= old(out)@ + blocks_bytes(seq![v], 2));
    }

    #[verifier::loop_isolation(false)]
    fn position_in_blocks(&self, haystack: &[u16]) -> (r: Option<usize>) {
        let n = haystack.len();
        if n == 0 {
            return None;
        }
        let ghost values = haystack@.map_values(|b: u16| Self::spec_block_value(b));
        let ghost s = blocks_bytes(values, 2);
        let ghost m = |w: nat| Self::spec_is_match(w);
        let ghost limit = 16 * n - 16;
        let ghost result = first_match_from(s, 16, m, 0, limit);

        let mut current: u16 = haystack[0];
        let mut index: usize = 0;
        while index + 1 < n
            invariant
                index < n,
                current == haystack@[index as int],
                result == first_match_from(s, 16, m, 16 * index, limit),
            decreases n - index,
        {
            let next = haystack[index + 1];
            let mut window: u32 = ((current as u32) << 16u32) | (next as u32);
            let ghost pair = window;
            proof {
            lemma_shl_u32(pair, 0);
        }
            let mut offset: u32 = 0;
            while offset < 16
                invariant
                    offset <= 16,
                    window == pair << offset,
                    result == first_match_from(s, 16, m, 16 * index + offset, limit),
                decreases 16 - offset,
            {
                let word = (window >> 16u32) as u16;
                proof {
                    lemma_window(values, index as int, current, next, offset);
                }
                let position = 16 * index + offset as usize;
                if C::is_match(word) {
                    return Some(position);
                }
                proof {
                lemma_shl_u32(pair, offset);
            }
                window = window << 1u32;
                offset += 1;
            }
            current = next;
            index += 1;
        }
        None
    }
}

} // verus!
