use vstd::prelude::*;

use crate::comparators::Comparator;
use crate::stream::{
    lemma_shl_u32,
    blocks_bytes, first_match_from, lemma_block_bit, lemma_first_match_skip, lemma_word_from_bits,
    stream_bit, word_at,
};

use super::{read_u32, write_u32, Detector};

verus! {

/// Detector of a 16-bit syncword in 32-bit blocks.
///
/// At each of 16 shifts it tests two words: one in the first half of the
/// current block and one that starts in its second half and may run into the
/// next block. A match in the first half wins at once; a match in the second
/// half is held until the first half is done, so the smallest position is
/// reported.
pub struct Double16Detector<C: Comparator<u16>> {
    comparator: core::marker::PhantomData<C>,
}

impl<C: Comparator<u16>> Double16Detector<C> {
    pub fn new() -> Self {
        Self { comparator: core::marker::PhantomData }
    }
}

/// The word tested at `offset` in the first half of block `k`.
proof fn lemma_head(values: Seq<u64>, k: int, block: u32, offset: u32)
    requires
        0 <= k < values.len(),
        values[k] == block as u64,
        offset < 16,
    ensures
        word_at(blocks_bytes(values, 4), 32 * k + offset, 16) == (((block << offset) >> 16u32) as u16),
{
    let s = blocks_bytes(values, 4);
    let x: u64 = (((block << offset) >> 16u32) as u16) as u64;
    assert(x >> 16u64 == 0) by (bit_vector)
        requires
            x == (((block << offset) >> 16u32) as u16) as u64,
    ;
    assert forall|j: int| 0 <= j < 16 implies #[trigger] stream_bit(s, 32 * k + offset + j) == ((x
        >> ((16 - 1 - j) as u64)) & 1 == 1) by {
        let jj = j as u32;
        assert(((x >> ((15 - jj) as u64)) & 1 == 1) == (((block as u64) >> ((31 - offset - jj) as u64))
            & 1 == 1)) by (bit_vector)
            requires
                x == (((block << offset) >> 16u32) as u16) as u64,
                offset < 16,
                jj < 16,
        ;
        lemma_block_bit(values, 4, k, offset + j);
    }
    lemma_word_from_bits(s, 32 * k + offset, 16, x);
}

/// The word tested at `offset` in the second half of block `k`, which runs
/// into block `k + 1`.
proof fn lemma_straddle(values: Seq<u64>, k: int, first: u32, second: u32, offset: u32)
    requires
        0 <= k,
        k + 1 < values.len(),
        values[k] == first as u64,
        values[k + 1] == second as u64,
        offset < 16,
    ensures
        word_at(blocks_bytes(values, 4), 32 * k + 16 + offset, 16) == (((((first << 16u32) | (second
            >> 16u32)) << offset) >> 16u32) as u16),
{
    let s = blocks_bytes(values, 4);
    let x: u64 = (((((first << 16u32) | (second >> 16u32)) << offset) >> 16u32) as u16) as u64;
    assert(x >> 16u64 == 0) by (bit_vector)
        requires
            x == (((((first << 16u32) | (second >> 16u32)) << offset) >> 16u32) as u16) as u64,
    ;
    assert forall|j: int| 0 <= j < 16 implies #[trigger] stream_bit(s, 32 * k + 16 + offset + j)
        == ((x >> ((16 - 1 - j) as u64)) & 1 == 1) by {
        let i = 16 + offset + j;
        let jj = j as u32;
        assert(((x >> ((15 - jj) as u64)) & 1 == 1) == if 16 + offset + jj < 32 {
            ((first as u64) >> ((15 - offset - jj) as u64)) & 1 == 1
        } else {
            ((second as u64) >> ((47 - offset - jj) as u64)) & 1 == 1
        }) by (bit_vector)
            requires
                x == (((((first << 16u32) | (second >> 16u32)) << offset) >> 16u32) as u16) as u64,
                offset < 16,
                jj < 16,
        ;
        if i < 32 {
            lemma_block_bit(values, 4, k, i);
        } else {
            lemma_block_bit(values, 4, k + 1, i - 32);
        }
    }
    lemma_word_from_bits(s, 32 * k + 16 + offset, 16, x);
}

impl<C: Comparator<u16>> Detector<u16> for Double16Detector<C> {
    type Block = u32;

    const SYNCWORD: u16 = C::SYNCWORD;

    open spec fn spec_block_len() -> nat {
        4
    }

    open spec fn spec_width() -> nat {
        16
    }

    open spec fn spec_block_value(block: u32) -> u64 {
        block as u64
    }

    open spec fn spec_is_match(word: nat) -> bool {
        C::spec_is_match(word as u16)
    }

    proof fn lemma_shape() {
    }

    fn block_len() -> (r: usize) {
        4
    }

    fn from_slice(slice: &[u8]) -> (block: u32) {
        read_u32(slice)
    }

    fn append_bytes(block: u32, out: &mut Vec<u8>) {
        write_u32(block, out)
    }

    #[verifier::loop_isolation(false)]
    #[verifier::rlimit(50)]
    fn position_in_blocks(&self, haystack: &[u32]) -> (r: Option<usize>) {
        let n = haystack.len();
        if n == 0 {
            return None;
        }
        let ghost values = haystack@.map_values(|b: u32| Self::spec_block_value(b));
        let ghost s = blocks_bytes(values, 4);
        let ghost m = |w: nat| Self::spec_is_match(w);
        let ghost limit = 32 * n - 16;
        let ghost result = first_match_from(s, 16, m, 0, limit);

        let mut current: u32 = haystack[0];
        let mut index: usize = 0;
        while index + 1 < n
            invariant
                index < n,
                current == haystack@[index as int],
                result == first_match_from(s, 16, m, 32 * index, limit),
            decreases n - index,
        {
            let next = haystack[index + 1];
            let base = 32 * index;
            let mut head: u32 = current;
            let mut straddle: u32 = (current << 16u32) | (next >> 16u32);
            let ghost head0 = head;
            let ghost straddle0 = straddle;
            proof {
                lemma_shl_u32(head0, 0);
                lemma_shl_u32(straddle0, 0);
            }
            let mut later: Option<usize> = None;
            let mut offset: u32 = 0;
            while offset < 16
                invariant
                    offset <= 16,
                    head == head0 << offset,
                    straddle == straddle0 << offset,
                    result == first_match_from(s, 16, m, base + offset, limit),
                    later is None ==> forall|q: int|
                        base + 16 <= q < base + 16 + offset ==> !m(#[trigger] word_at(s, q, 16)),
                    later matches Some(p) ==> {
                        &&& base + 16 <= p < base + 16 + offset
                        &&& m(word_at(s, p as int, 16))
                        &&& forall|q: int| base + 16 <= q < p ==> !m(#[trigger] word_at(s, q, 16))
                    },
                decreases 16 - offset,
            {
                proof {
                    lemma_head(values, index as int, current, offset);
                }
                if C::is_match((head >> 16u32) as u16) {
                    return Some(base + offset as usize);
                }
                if later.is_none() {
                    proof {
                        lemma_straddle(values, index as int, current, next, offset);
                    }
                    if C::is_match((straddle >> 16u32) as u16) {
                        later = Some(base + 16 + offset as usize);
                    }
                }
                proof {
                    lemma_shl_u32(head0, offset);
                    lemma_shl_u32(straddle0, offset);
                }
                head = head << 1u32;
                straddle = straddle << 1u32;
                offset += 1;
            }
            if let Some(p) = later {
                proof {
                    lemma_first_match_skip(s, 16, m, base + 16, p as int, limit);
                }
                return Some(p);
            }
            proof {
                lemma_first_match_skip(s, 16, m, base + 16, base + 32, limit);
            }
            current = next;
            index += 1;
        }
        // The last block has no successor: only its first half is tested.
        let base = 32 * index;
        let mut head: u32 = current;
        let ghost head0 = head;
        proof {
            lemma_shl_u32(head0, 0);
        }
        let mut offset: u32 = 0;
        while offset < 16
            invariant
                offset <= 16,
                head == head0 << offset,
                result == first_match_from(s, 16, m, base + offset, limit),
            decreases 16 - offset,
        {
            proof {
                lemma_head(values, index as int, current, offset);
            }
            if C::is_match((head >> 16u32) as u16) {
                return Some(base + offset as usize);
            }
            proof {
                lemma_shl_u32(head0, offset);
            }
            head = head << 1u32;
            offset += 1;
        }
        None
    }
}

} // verus!
