use vstd::prelude::*;

use crate::comparators::Comparator;
use crate::stream::{
    lemma_shl_u64,
    blocks_bytes, first_match_from, lemma_block_bit, lemma_word_from_bits,
    stream_bit, word_at,
};

use super::{read_u32, write_u32, Detector};

verus! {

/// Detector of a 32-bit syncword in 32-bit blocks.
///
/// It slides a 64-bit window over each pair of neighbouring blocks and tests
/// the high half at each of 32 shifts.
pub struct Single32Detector<C: Comparator<u32>> {
    comparator: core::marker::PhantomData<C>,
}

impl<C: Comparator<u32>> Single32Detector<C> {
    pub fn new() -> Self {
        Self { comparator: core::marker::PhantomData }
    }
}

/// The word tested at `offset` in the window over blocks `first`, `second` is
/// the word of the stream `offset` bits into `first`.
proof fn lemma_window(values: Seq<u64>, k: int, first: u32, second: u32, offset: u64)
    requires
        0 <= k,
        k + 1 < values.len(),
        values[k] == first as u64,
        values[k + 1] == second as u64,
        offset < 32,
    ensures
        word_at(blocks_bytes(values, 4), 32 * k + offset, 32) == ((((((first as u64) << 32u64) | (
        second as u64)) << offset) >> 32u64) as u32),
{
    let s = blocks_bytes(values, 4);
    let x: u64 = ((((((first as u64) << 32u64) | (second as u64)) << offset) >> 32u64) as u32) as u64;
    assert(x >> 32u64 == 0) by (bit_vector)
        requires
            x == ((((((first as u64) << 32u64) | (second as u64)) << offset) >> 32u64) as u32) as u64,
    ;
    assert forall|j: int| 0 <= j < 32 implies #[trigger] stream_bit(s, 32 * k + offset + j) == ((x
        >> ((32 - 1 - j) as u64)) & 1 == 1) by {
        let i = offset + j;
        let jj = j as u64;
        assert(((x >> ((31 - jj) as u64)) & 1 == 1) == if offset + jj < 32 {
            ((first as u64) >> ((31 - offset - jj) as u64)) & 1 == 1
        } else {
            ((second as u64) >> ((63 - offset - jj) as u64)) & 1 == 1
        }) by (bit_vector)
            requires
                x == ((((((first as u64) << 32u64) | (second as u64)) << offset) >> 32u64) as u32)
                    as u64,
                offset < 32,
                jj < 32,
        ;
        if i < 32 {
            lemma_block_bit(values, 4, k, i);
        } else {
            lemma_block_bit(values, 4, k + 1, i - 32);
        }
    }
    lemma_word_from_bits(s, 32 * k + offset, 32, x);
}

impl<C: Comparator<u32>> Detector<u32> for Single32Detector<C> {
    type Block = u32;

    const SYNCWORD: u32 = C::SYNCWORD;

    open spec fn spec_block_len() -> nat {
        4
    }

    open spec fn spec_width() -> nat {
        32
    }

    open spec fn spec_block_value(block: u32) -> u64 {
        block as u64
    }

    open spec fn spec_is_match(word: nat) -> bool {
        C::spec_is_match(word as u32)
    }

    proof fn lemma_shape() {
    }

    fn block_len() -> (r: usize) {
        4
    }

    fn from_slice(slice: &[u8]) -> (block: u32) {
        read_u32(slice)
    }

    fn append_bytes(block: u32, out: &mut Vec<u8>) {
        write_u32(block, out)
    }

    #[verifier::loop_isolation(false)]
    fn position_in_blocks(&self, haystack: &[u32]) -> (r: Option<usize>) {
        let n = haystack.len();
        if n == 0 {
            return None;
        }
        let ghost values = haystack@.map_values(|b: u32| Self::spec_block_value(b));
        let ghost s = blocks_bytes(values, 4);
        let ghost m = |w: nat| Self::spec_is_match(w);
        let ghost limit = 32 * n - 32;
        let ghost result = first_match_from(s, 32, m, 0, limit);

        let mut current: u32 = haystack[0];
        let mut index: usize = 0;
        while index + 1 < n
            invariant
                index < n,
                current == haystack@[index as int],
                result == first_match_from(s, 32, m, 32 * index, limit),
            decreases n - index,
        {
            let next = haystack[index + 1];
            let mut window: u64 = ((current as u64) << 32u64) | (next as u64);
            let ghost pair = window;
            proof {
            lemma_shl_u64(pair, 0);
        }
            let mut offset: u64 = 0;
            while offset < 32
                invariant
                    offset <= 32,
                    window == pair << offset,
                    result == first_match_from(s, 32, m, 32 * index + offset, limit),
                decreases 32 - offset,
            {
                let word = (window >> 32u64) as u32;
                proof {
                    lemma_window(values, index as int, current, next, offset);
                }
                let position = 32 * index + offset as usize;
                if C::is_match(word) {
                    return Some(position);
                }
                proof {
                lemma_shl_u64(pair, offset);
            }
                window = window << 1u64;
                offset += 1;
            }
            current = next;
            index += 1;
        }
        None
    }
}

} // verus!
