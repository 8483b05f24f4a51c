use vstd::prelude::*;

use crate::comparators::Comparator;
use crate::stream::{
    lemma_shl_u64,
    blocks_bytes, first_match_from, lemma_block_bit, lemma_first_match_skip, lemma_word_from_bits,
    stream_bit, word_at,
};

use super::{read_u64, write_u64, Detector};

verus! {

/// Detector of a 32-bit syncword in 64-bit blocks.
///
/// At each of 32 shifts it tests two words: one in the first half of the
/// current block and one that starts in its second half and may run into the
/// next block. A match in the first half wins at once; a match in the second
/// half is held until the first half is done, so the smallest position is
/// reported.
pub struct Double32Detector<C: Comparator<u32>> {
    comparator: core::marker::PhantomData<C>,
}

impl<C: Comparator<u32>> Double32Detector<C> {
    pub fn new() -> Self {
        Self { comparator: core::marker::PhantomData }
    }
}

/// The word tested at `offset` in the first half of block `k`.
proof fn lemma_head(values: Seq<u64>, k: int, block: u64, offset: u64)
    requires
        0 <= k < values.len(),
        values[k] == block as u64,
        offset < 32,
    ensures
        word_at(blocks_bytes(values, 8), 64 * k + offset, 32) == (((block << offset) >> 32u64) as u32),
{
    let s = blocks_bytes(values, 8);
    let x: u64 = (((block << offset) >> 32u64) as u32) as u64;
    assert(x >> 32u64 == 0) by (bit_vector)
        requires
            x == (((block << offset) >> 32u64) as u32) as u64,
    ;
    assert forall|j: int| 0 <= j < 32 implies #[trigger] stream_bit(s, 64 * k + offset + j) == ((x
        >> ((32 - 1 - j) as u64)) & 1 == 1) by {
        let jj = j as u64;
        assert(((x >> ((31 - jj) as u64)) & 1 == 1) == (((block as u64) >> ((63 - offset - jj) as u64))
            & 1 == 1)) by (bit_vector)
            requires
                x == (((block << offset) >> 32u64) as u32) as u64,
                offset < 32,
                jj < 32,
        ;
        lemma_block_bit(values, 8, k, offset + j);
    }
    lemma_word_from_bits(s, 64 * k + offset, 32, x);
}

/// The word tested at `offset` in the second half of block `k`, which runs
/// into block `k + 1`.
proof fn lemma_straddle(values: Seq<u64>, k: int, first: u64, second: u64, offset: u64)
    requires
        0 <= k,
        k + 1 < values.len(),
        values[k] == first as u64,
        values[k + 1] == second as u64,
        offset < 32,
    ensures
        word_at(blocks_bytes(values, 8), 64 * k + 32 + offset, 32) == (((((first << 32u64) | (second
            >> 32u64)) << offset) >> 32u64) as u32),
{
    let s = blocks_bytes(values, 8);
    let x: u64 = (((((first << 32u64) | (second >> 32u64)) << offset) >> 32u64) as u32) as u64;
    assert(x >> 32u64 == 0) by (bit_vector)
        requires
            x == (((((first << 32u64) | (second >> 32u64)) << offset) >> 32u64) as u32) as u64,
    ;
    assert forall|j: int| 0 <= j < 32 implies #[trigger] stream_bit(s, 64 * k + 32 + offset + j)
        == ((x >> ((32 - 1 - j) as u64)) & 1 == 1) by {
        let i = 32 + offset + j;
        let jj = j as u64;
        assert(((x >> ((31 - jj) as u64)) & 1 == 1) == if 32 + offset + jj < 64 {
            ((first as u64) >> ((31 - offset - jj) as u64)) & 1 == 1
        } else {
            ((second as u64) >> ((95 - offset - jj) as u64)) & 1 == 1
        }) by (bit_vector)
            requires
                x == (((((first << 32u64) | (second >> 32u64)) << offset) >> 32u64) as u32) as u64,
                offset < 32,
                jj < 32,
        ;
        if i < 64 {
            lemma_block_bit(values, 8, k, i);
        } else {
            lemma_block_bit(values, 8, k + 1, i - 64);
        }
    }
    lemma_word_from_bits(s, 64 * k + 32 + offset, 32, x);
}

impl<C: Comparator<u32>> Detector<u32> for Double32Detector<C> {
    type Block = u64;

    const SYNCWORD: u32 = C::SYNCWORD;

    open spec fn spec_block_len() -> nat {
        8
    }

    open spec fn spec_width() -> nat {
        32
    }

    open spec fn spec_block_value(block: u64) -> u64 {
        block
    }

    open spec fn spec_is_match(word: nat) -> bool {
        C::spec_is_match(word as u32)
    }

    proof fn lemma_shape() {
    }

    fn block_len() -> (r: usize) {
        8
    }

    fn from_slice(slice: &[u8]) -> (block: u64) {
        read_u64(slice)
    }

    fn append_bytes(block: u64, out: &mut Vec<u8>) {
        write_u64(block, out)
    }

    #[verifier::loop_isolation(false)]
    #[verifier::rlimit(100)]
    fn position_in_blocks(&self, haystack: &[u64]) -> (r: Option<usize>) {
        let n = haystack.len();
        if n == 0 {
            return None;
        }
        let ghost values = haystack@.map_values(|b: u64| Self::spec_block_value(b));
        let ghost s = blocks_bytes(values, 8);
        let ghost m = |w: nat| Self::spec_is_match(w);
        let ghost limit = 64 * n - 32;
        let ghost result = first_match_from(s, 32, m, 0, limit);

        let mut current: u64 = haystack[0];
        let mut index: usize = 0;
        while index + 1 < n
            invariant
                index < n,
                current == haystack@[index as int],
                result == first_match_from(s, 32, m, 64 * index, limit),
            decreases n - index,
        {
            let next = haystack[index + 1];
            let base = 64 * index;
            let mut head: u64 = current;
            let mut straddle: u64 = (current << 32u64) | (next >> 32u64);
            let ghost head0 = head;
            let ghost straddle0 = straddle;
            proof {
                lemma_shl_u64(head0, 0);
                lemma_shl_u64(straddle0, 0);
            }
            let mut later: Option<usize> = None;
            let mut offset: u64 = 0;
            while offset < 32
                invariant
                    offset <= 32,
                    head == head0 << offset,
                    straddle == straddle0 << offset,
                    result == first_match_from(s, 32, m, base + offset, limit),
                    later is None ==> forall|q: int|
                        base + 32 <= q < base + 32 + offset ==> !m(#[trigger] word_at(s, q, 32)),
                    later matches Some(p) ==> {
                        &&& base + 32 <= p < base + 32 + offset
                        &&& m(word_at(s, p as int, 32))
                        &&& forall|q: int| base + 32 <= q < p ==> !m(#[trigger] word_at(s, q, 32))
                    },
                decreases 32 - offset,
            {
                proof {
                    lemma_head(values, index as int, current, offset);
                }
                if C::is_match((head >> 32u64) as u32) {
                    return Some(base + offset as usize);
                }
                if later.is_none() {
                    proof {
                        lemma_straddle(values, index as int, current, next, offset);
                    }
                    if C::is_match((straddle >> 32u64) as u32) {
                        later = Some(base + 32 + offset as usize);
                    }
                }
                proof {
                    lemma_shl_u64(head0, offset);
                    lemma_shl_u64(straddle0, offset);
                }
                head = head << 1u64;
                straddle = straddle << 1u64;
                offset += 1;
            }
            if let Some(p) = later {
                proof {
                    lemma_first_match_skip(s, 32, m, base + 32, p as int, limit);
                }
                return Some(p);
            }
            proof {
                lemma_first_match_skip(s, 32, m, base + 32, base + 64, limit);
            }
            current = next;
            index += 1;
        }
        // The last block has no successor: only its first half is tested.
        let base = 64 * index;
        let mut head: u64 = current;
        let ghost head0 = head;
        proof {
            lemma_shl_u64(head0, 0);
        }
        let mut offset: u64 = 0;
        while offset < 32
            invariant
                offset <= 32,
                head == head0 << offset,
                result == first_match_from(s, 32, m, base + offset, limit),
            decreases 32 - offset,
        {
            proof {
                lemma_head(values, index as int, current, offset);
            }
            if C::is_match((head >> 32u64) as u32) {
                return Some(base + offset as usize);
            }
            proof {
                lemma_shl_u64(head0, offset);
            }
            head = head << 1u64;
            offset += 1;
        }
        None
    }
}

} // verus!
