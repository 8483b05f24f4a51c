//! The stream model: bytes on the wire, read MSB-first, and the words found
//! at each bit position.
use vstd::arithmetic::div_mod::lemma_fundamental_div_mod_converse;
use vstd::arithmetic::power2::{lemma_pow2_pos, lemma_pow2_unfold, pow2};
use vstd::prelude::*;

verus! {

/// Byte `i` (network order) of a block whose value is `v` and whose size is `len` bytes.
pub open spec fn block_byte(v: u64, len: nat, i: int) -> u8 {
    ((v >> ((8 * (len - 1 - i)) as u64)) & 0xff) as u8
}

/// The bytes of a sequence of blocks, each written big-endian in `len` bytes.
pub open spec fn blocks_bytes(values: Seq<u64>, len: nat) -> Seq<u8> {
    Seq::new(
        values.len() * len,
        |i: int| block_byte(values[i / len as int], len, i % len as int),
    )
}

/// Bit `i` of a byte stream; bit 0 is the most significant bit of byte 0.
pub open spec fn stream_bit(s: Seq<u8>, i: int) -> bool {
    (s[i / 8] >> ((7 - i % 8) as u8)) & 1 == 1
}

/// The `w`-bit number read MSB-first from `s`, starting at bit `p`.
pub open spec fn word_at(s: Seq<u8>, p: int, w: nat) -> nat
    decreases w,
{
    if w == 0 {
        0
    } else {
        2 * word_at(s, p, (w - 1) as nat) + if stream_bit(s, p + w - 1) {
            1nat
        } else {
            0nat
        }
    }
}

/// The first position `p` in `from .. limit` at which the `w`-bit word of `s`
/// satisfies `m`.
pub open spec fn first_match_from(
    s: Seq<u8>,
    w: nat,
    m: spec_fn(nat) -> bool,
    from: int,
    limit: int,
) -> Option<nat>
    decreases limit - from,
{
    if from >= limit || from < 0 {
        None
    } else if m(word_at(s, from, w)) {
        Some(from as nat)
    } else {
        first_match_from(s, w, m, from + 1, limit)
    }
}

/// The smallest position below `limit` at which the `w`-bit word of `s`
/// satisfies `m`, if any.
pub open spec fn first_match(s: Seq<u8>, w: nat, m: spec_fn(nat) -> bool, limit: int) -> Option<
    nat,
> {
    first_match_from(s, w, m, 0, limit)
}

/// What `first_match_from` returns: the least matching position, or none.
pub proof fn lemma_first_match_from(
    s: Seq<u8>,
    w: nat,
    m: spec_fn(nat) -> bool,
    from: int,
    limit: int,
)
    requires
        0 <= from,
    ensures
        match first_match_from(s, w, m, from, limit) {
            Some(p) => from <= p < limit && m(word_at(s, p as int, w)) && forall|q: int|
                from <= q < p ==> !m(#[trigger] word_at(s, q, w)),
            None => forall|q: int| from <= q < limit ==> !m(#[trigger] word_at(s, q, w)),
        },
    decreases limit - from,
{
    if from < limit && !m(word_at(s, from, w)) {
        lemma_first_match_from(s, w, m, from + 1, limit);
    }
}

/// Scanning may start past positions known not to match.
pub proof fn lemma_first_match_skip(
    s: Seq<u8>,
    w: nat,
    m: spec_fn(nat) -> bool,
    from: int,
    to: int,
    limit: int,
)
    requires
        0 <= from <= to,
        forall|q: int| from <= q < to && q < limit ==> !m(#[trigger] word_at(s, q, w)),
    ensures
        first_match_from(s, w, m, from, limit) == first_match_from(s, w, m, to, limit),
    decreases to - from,
{
    if from < to {
        lemma_first_match_skip(s, w, m, from + 1, to, limit);
    }
}

/// A position that matches, with none before it from `from` on, is the first match.
pub proof fn lemma_first_match_is(
    s: Seq<u8>,
    w: nat,
    m: spec_fn(nat) -> bool,
    from: int,
    limit: int,
    p: int,
)
    requires
        0 <= from <= p < limit,
        m(word_at(s, p, w)),
        forall|q: int| from <= q < p ==> !m(#[trigger] word_at(s, q, w)),
    ensures
        first_match_from(s, w, m, from, limit) == Some(p as nat),
{
    lemma_first_match_skip(s, w, m, from, p, limit);
}

/// With no match in `from .. limit` there is no first match.
pub proof fn lemma_first_match_none(
    s: Seq<u8>,
    w: nat,
    m: spec_fn(nat) -> bool,
    from: int,
    limit: int,
)
    requires
        0 <= from,
        forall|q: int| from <= q < limit ==> !m(#[trigger] word_at(s, q, w)),
    ensures
        first_match_from(s, w, m, from, limit) == None::<nat>,
{
    if from < limit {
        lemma_first_match_skip(s, w, m, from, limit, limit);
    }
}

/// A word inside a slice of the stream is the word at the matching position
/// of the whole stream.
pub proof fn lemma_word_at_subrange(s: Seq<u8>, c: int, e: int, q: int, w: nat)
    requires
        0 <= c <= e <= s.len(),
        0 <= q,
        q + w <= 8 * (e - c),
    ensures
        word_at(s.subrange(c, e), q, w) == word_at(s, 8 * c + q, w),
    decreases w,
{
    if w > 0 {
        lemma_word_at_subrange(s, c, e, q, (w - 1) as nat);
        let i = q + w - 1;
        lemma_fundamental_div_mod_converse(8 * c + i, 8, c + i / 8, i % 8);
        assert(s.subrange(c, e)[i / 8] == s[c + i / 8]);
    }
}

/// Shifting a 32-bit word left by `o` and then by one is shifting it by `o + 1`.
pub proof fn lemma_shl_u32(x: u32, o: u32)
    by (bit_vector)
    requires
        o < 32,
    ensures
        x << 0u32 == x,
        (x << o) << 1u32 == x << ((o + 1) as u32),
{
}

/// Shifting a 64-bit word left by `o` and then by one is shifting it by `o + 1`.
pub proof fn lemma_shl_u64(x: u64, o: u64)
    by (bit_vector)
    requires
        o < 64,
    ensures
        x << 0u64 == x,
        (x << o) << 1u64 == x << ((o + 1) as u64),
{
}

/// A word is below `2^w`.
pub proof fn lemma_word_bound(s: Seq<u8>, p: int, w: nat)
    ensures
        word_at(s, p, w) < pow2(w),
    decreases w,
{
    if w == 0 {
        assert(pow2(0) == 1) by {
            vstd::arithmetic::power2::lemma2_to64();
        }
    } else {
        lemma_word_bound(s, p, (w - 1) as nat);
        lemma_pow2_unfold(w);
    }
}

/// Leading zero bits drop out of a word.
proof fn lemma_word_leading_zeros(s: Seq<u8>, q: int, d: nat, w: nat)
    requires
        d <= w,
        forall|i: int| q <= i < q + d ==> !#[trigger] stream_bit(s, i),
    ensures
        word_at(s, q, w) == word_at(s, q + d, (w - d) as nat),
    decreases w,
{
    if d > 0 {
        if w == d {
            lemma_word_leading_zeros(s, q, (d - 1) as nat, (w - 1) as nat);
            assert(!stream_bit(s, q + w - 1));
        } else {
            lemma_word_leading_zeros(s, q, d, (w - 1) as nat);
            assert(q + d + (w - d) - 1 == q + w - 1);
        }
    }
}

/// A word of `a + b` bits is its first `a` bits followed by its last `b` bits.
proof fn lemma_word_split(s: Seq<u8>, p: int, a: nat, b: nat)
    ensures
        word_at(s, p, a + b) == word_at(s, p, a) * pow2(b) + word_at(s, p + a, b),
    decreases b,
{
    if b == 0 {
        assert(pow2(0) == 1) by {
            vstd::arithmetic::power2::lemma2_to64();
        }
    } else {
        lemma_word_split(s, p, a, (b - 1) as nat);
        lemma_pow2_unfold(b);
        let x = word_at(s, p, a);
        let y = word_at(s, p + a, (b - 1) as nat);
        let e = pow2((b - 1) as nat);
        assert(2 * (x * e + y) == x * (2 * e) + 2 * y) by (nonlinear_arith);
        assert(word_at(s, p, (a + b) as nat) == 2 * word_at(s, p, (a + b - 1) as nat) + if stream_bit(
            s,
            p + a + b - 1,
        ) {
            1nat
        } else {
            0nat
        });
    }
}

/// Where a nonzero word `sw` sits alone in an otherwise zero stream, the word
/// at any earlier position differs from it.
pub proof fn lemma_inserted_word(s: Seq<u8>, w: nat, sw: nat, p: int, q: int)
    requires
        0 <= q < p,
        0 < sw,
        word_at(s, p, w) == sw,
        forall|i: int| q <= i < p ==> !#[trigger] stream_bit(s, i),
    ensures
        word_at(s, q, w) != sw,
{
    let d = (p - q) as nat;
    if d >= w {
        lemma_word_leading_zeros(s, q, w, w);
    } else {
        lemma_word_leading_zeros(s, q, d, w);
        lemma_word_split(s, p, (w - d) as nat, d);
        lemma_pow2_unfold(d);
        lemma_pow2_pos((d - 1) as nat);
        let x = word_at(s, p, (w - d) as nat);
        assert(x == sw ==> x * pow2(d) >= 2 * sw) by (nonlinear_arith)
            requires
                pow2(d) == 2 * pow2((d - 1) as nat),
                pow2((d - 1) as nat) > 0,
                sw > 0,
        ;
    }
}

/// A word is determined by the stream bits it covers: if bit `j` of `x`
/// (counted from the most significant of `w` bits) is stream bit `p + j`, the
/// word at `p` is `x`.
pub proof fn lemma_word_from_bits(s: Seq<u8>, p: int, w: nat, x: u64)
    requires
        w <= 64,
        w < 64 ==> x >> (w as u64) == 0,
        forall|j: int|
            0 <= j < w ==> #[trigger] stream_bit(s, p + j) == ((x >> ((w - 1 - j) as u64)) & 1
                == 1),
    ensures
        word_at(s, p, w) == x,
    decreases w,
{
    if w == 0 {
        assert(x >> 0u64 == x) by (bit_vector);
    } else {
        let y: u64 = x >> 1u64;
        let wm: u64 = (w - 1) as u64;
        assert(wm < 64 ==> (x >> (wm + 1)) == 0 ==> (x >> 1u64) >> wm == 0) by (bit_vector);
        assert(wm + 1 == 64 ==> (x >> 1u64) >> 63u64 == 0) by (bit_vector);
        assert forall|j: int| 0 <= j < w - 1 implies #[trigger] stream_bit(s, p + j) == ((y >> ((
        w - 2 - j) as u64)) & 1 == 1) by {
            assert(stream_bit(s, p + j) == ((x >> ((w - 1 - j) as u64)) & 1 == 1));
            let a: u64 = (w - 2 - j) as u64;
            assert(a < 63 ==> (x >> 1u64) >> a == x >> (a + 1)) by (bit_vector);
        }
        lemma_word_from_bits(s, p, (w - 1) as nat, y);
        assert(stream_bit(s, p + (w - 1)) == ((x >> 0u64) & 1 == 1));
        assert(x == 2 * (x >> 1u64) + (x & 1) && x >> 0u64 == x && (x & 1 == 1 || x & 1 == 0))
            by (bit_vector);
    }
}

/// Bit `i` of block `k`, counted from its most significant bit, is stream bit
/// `8 * len * k + i`.
pub proof fn lemma_block_bit(values: Seq<u64>, len: nat, k: int, i: int)
    requires
        1 <= len <= 8,
        0 <= k < values.len(),
        0 <= i < 8 * len,
    ensures
        stream_bit(blocks_bytes(values, len), 8 * len * k + i) == ((values[k] >> ((8 * len - 1
            - i) as u64)) & 1 == 1),
{
    let s = blocks_bytes(values, len);
    let pos = 8 * len * k + i;
    let idx = len * k + i / 8;
    assert(pos == 8 * idx + i % 8) by (nonlinear_arith)
        requires
            pos == 8 * len * k + i,
            idx == len * k + i / 8,
            i == 8 * (i / 8) + i % 8,
    ;
    lemma_fundamental_div_mod_converse(pos, 8, idx, i % 8);
    assert(i / 8 < len) by (nonlinear_arith)
        requires
            i < 8 * len,
            i == 8 * (i / 8) + i % 8,
            0 <= i % 8,
    ;
    assert(len * k == k * len) by (nonlinear_arith);
    lemma_fundamental_div_mod_converse(idx, len as int, k, i / 8);
    assert(0 <= idx < values.len() * len) by (nonlinear_arith)
        requires
            idx == len * k + i / 8,
            0 <= i / 8 < len,
            0 <= k < values.len(),
    ;
    let v = values[k];
    let a: u64 = (8 * (len - 1 - i / 8)) as u64;
    let b: u8 = (7 - i % 8) as u8;
    assert(s[idx] == ((v >> a) & 0xff) as u8);
    assert(pos / 8 == idx && pos % 8 == i % 8);
    assert(a <= 56 && b < 8 ==> ((((v >> a) & 0xff) as u8 >> b) & 1 == 1) == ((v >> (a + b as u64))
        & 1 == 1)) by (bit_vector);
    assert(a + b as u64 == (8 * len - 1 - i) as u64);
}

} // verus!
