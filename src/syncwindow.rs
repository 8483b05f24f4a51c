use vstd::arithmetic::div_mod::{lemma_fundamental_div_mod, lemma_fundamental_div_mod_converse};
use vstd::prelude::*;
use vstd::slice::slice_subrange;

use crate::detectors::{
    block_values, detector_bytes, detector_limit, detector_matcher, detector_position, Detector,
};

use crate::ring::BlockRing;
use crate::stream::{
    blocks_bytes, lemma_first_match_from, lemma_first_match_is, lemma_first_match_none,
    lemma_word_at_subrange, word_at,
};

verus! {

/// Every position of `ps` moved on by `by` bits.
pub open spec fn shift_positions(ps: Seq<nat>, by: nat) -> Seq<nat> {
    ps.map_values(|q: nat| q + by)
}

/// How many blocks a match at bit `p` of `n` blocks retires: the blocks
/// before it and the block it starts in.
pub open spec fn retired_blocks<T, D: Detector<T>>(p: nat, n: nat) -> nat {
    let before = (p / (8 * D::spec_block_len())) as int;
    if 0 <= before < n {
        (before + 1) as nat
    } else {
        n
    }
}

/// What a window holding `blocks` finds when it is scanned: the bit positions
/// of the matches, in order, and how many blocks it retires.
///
/// The first match is the smallest tested position over all the blocks; the
/// blocks before it and the one it starts in are retired, and the scan goes on
/// with the rest. When nothing matches, all blocks but the last are retired:
/// the last is kept as a guard, for a syncword that starts in it and ends in
/// data not yet received.
pub open spec fn scan<T, D: Detector<T>>(blocks: Seq<D::Block>) -> (Seq<nat>, nat)
    decreases blocks.len(),
{
    if blocks.len() == 0 {
        (seq![], 0)
    } else {
        match detector_position::<T, D>(blocks) {
            Some(p) => {
                let k = retired_blocks::<T, D>(p, blocks.len());
                let rest = scan::<T, D>(blocks.skip(k as int));
                (
                    seq![p] + shift_positions(rest.0, 8 * D::spec_block_len() * k),
                    k + rest.1,
                )
            },
            None => (seq![], (blocks.len() - 1) as nat),
        }
    }
}

/// What is reported for a match at bit `p` of the stream `bytes`: the shift
/// of the syncword within its first byte, and the bytes from that one on.
pub open spec fn reported(bytes: Seq<u8>, p: nat) -> (u8, Seq<u8>) {
    ((p % 8) as u8, bytes.skip((p / 8) as int))
}

/// The bytes of a slice of the blocks are the slice of their bytes.
pub proof fn lemma_bytes_subrange<T, D: Detector<T>>(blocks: Seq<D::Block>, a: int, b: int)
    requires
        0 <= a <= b <= blocks.len(),
    ensures
        detector_bytes::<T, D>(blocks.subrange(a, b)) == detector_bytes::<T, D>(blocks).subrange(
            D::spec_block_len() * a,
            D::spec_block_len() * b,
        ),
        detector_bytes::<T, D>(blocks).len() == D::spec_block_len() * blocks.len(),
{
    D::lemma_shape();
    let l = D::spec_block_len() as int;
    let vs = block_values::<T, D>(blocks);
    let sub = blocks.subrange(a, b);
    assert(block_values::<T, D>(sub) =~= vs.subrange(a, b));
    let x = detector_bytes::<T, D>(sub);
    let all = detector_bytes::<T, D>(blocks);
    assert(all.len() == blocks.len() * l);
    assert(x.len() == (b - a) * l);
    assert(blocks.len() * l == l * blocks.len()) by (nonlinear_arith);
    assert((b - a) * l == l * b - l * a) by (nonlinear_arith);
    assert(l * a <= l * b <= l * blocks.len()) by (nonlinear_arith)
        requires
            0 <= a <= b <= blocks.len(),
            l >= 1,
    ;
    let y = all.subrange(l * a, l * b);
    assert forall|i: int| 0 <= i < x.len() implies x[i] == y[i] by {
        lemma_fundamental_div_mod(i, l);
        let q = i / l;
        let r = i % l;
        assert(l * a + i == (a + q) * l + r) by (nonlinear_arith)
            requires
                i == l * q + r,
        ;
        lemma_fundamental_div_mod_converse(l * a + i, l, a + q, r);
        assert(0 <= q < b - a) by (nonlinear_arith)
            requires
                i == l * q + r,
                0 <= r < l,
                0 <= i < (b - a) * l,
        ;
    }
    assert(x =~= y);
}

/// The word at bit `q` of a slice of the blocks is the word at the matching
/// bit of all of them.
pub proof fn lemma_window_word<T, D: Detector<T>>(blocks: Seq<D::Block>, a: int, b: int, q: int)
    requires
        0 <= a <= b <= blocks.len(),
        0 <= q,
        q + D::spec_width() <= 8 * D::spec_block_len() * (b - a),
    ensures
        word_at(detector_bytes::<T, D>(blocks.subrange(a, b)), q, D::spec_width()) == word_at(
            detector_bytes::<T, D>(blocks),
            8 * D::spec_block_len() * a + q,
            D::spec_width(),
        ),
{
    D::lemma_shape();
    let l = D::spec_block_len() as int;
    lemma_bytes_subrange::<T, D>(blocks, a, b);
    assert(8 * l * (b - a) == 8 * (l * b - l * a)) by (nonlinear_arith);
    assert(8 * l * a == 8 * (l * a)) by (nonlinear_arith);
    assert(l * a <= l * b <= l * blocks.len()) by (nonlinear_arith)
        requires
            0 <= a <= b <= blocks.len(),
            l >= 1,
    ;
    lemma_word_at_subrange(detector_bytes::<T, D>(blocks), l * a, l * b, q, D::spec_width());
}

/// A second scan with nothing added in between finds nothing: what is left
/// after a scan is at most the guard block, whose tested positions have all
/// been tested already.
pub proof fn lemma_detect_idempotent<T, D: Detector<T>>(blocks: Seq<D::Block>)
    ensures
        scan::<T, D>(blocks.skip(scan::<T, D>(blocks).1 as int)).0 == Seq::<nat>::empty(),
    decreases blocks.len(),
{
    D::lemma_shape();
    let n = blocks.len() as int;
    if n == 0 {
        assert(blocks.skip(0) =~= blocks);
    } else {
        match detector_position::<T, D>(blocks) {
            Some(p) => {
                let k = retired_blocks::<T, D>(p, n as nat);
                let rest = scan::<T, D>(blocks.skip(k as int));
                lemma_detect_idempotent::<T, D>(blocks.skip(k as int));
                lemma_scan_retires::<T, D>(blocks.skip(k as int));
                assert(blocks.skip(k as int).skip(rest.1 as int) =~= blocks.skip((k + rest.1) as int));
            },
            None => {
                let l = D::spec_block_len() as int;
                let w = D::spec_width();
                let m = detector_matcher::<T, D>();
                let last = blocks.skip(n - 1);
                assert(last =~= blocks.subrange(n - 1, n));
                lemma_first_match_from(detector_bytes::<T, D>(blocks), w, m, 0, 8 * l * n - w);
                assert(8 * l * (n - 1) + 8 * l == 8 * l * n) by (nonlinear_arith);
                assert(8 * l * (n - (n - 1)) == 8 * l) by (nonlinear_arith);
                assert(0 <= 8 * l * (n - 1)) by (nonlinear_arith)
                    requires
                        n >= 1,
                        l >= 1,
                ;
                assert forall|q: int| 0 <= q < 8 * l - w implies !m(
                    #[trigger] word_at(detector_bytes::<T, D>(last), q, w),
                ) by {
                    lemma_window_word::<T, D>(blocks, n - 1, n, q);
                }
                lemma_first_match_none(detector_bytes::<T, D>(last), w, m, 0, 8 * l * 1 - w);
            },
        }
    }
}

/// No match is reported twice: within one scan the positions increase, and
/// every one lies in the blocks the scan retires, so a later scan, over what
/// is left and whatever arrives after it, reports only positions past them.
pub proof fn lemma_no_double_detection<T, D: Detector<T>>(
    blocks: Seq<D::Block>,
    more: Seq<D::Block>,
)
    ensures
        ({
            let (first, retired) = scan::<T, D>(blocks);
            let second = scan::<T, D>(blocks.skip(retired as int) + more).0;
            &&& forall|i: int, j: int| 0 <= i < j < first.len() ==> first[i] < first[j]
            &&& forall|i: int, j: int|
                0 <= i < first.len() && 0 <= j < second.len() ==> first[i] < 8
                    * D::spec_block_len() * retired + second[j]
        }),
{
    lemma_scan_retires::<T, D>(blocks);
}

/// Every position a scan reports lies in the blocks it retires, and the
/// positions increase.
proof fn lemma_scan_retires<T, D: Detector<T>>(blocks: Seq<D::Block>)
    ensures
        scan::<T, D>(blocks).1 <= blocks.len(),
        forall|i: int|
            0 <= i < scan::<T, D>(blocks).0.len() ==> #[trigger] scan::<T, D>(blocks).0[i] < 8
                * D::spec_block_len() * scan::<T, D>(blocks).1,
        forall|i: int, j: int|
            0 <= i < j < scan::<T, D>(blocks).0.len() ==> scan::<T, D>(blocks).0[i] < scan::<
                T,
                D,
            >(blocks).0[j],
    decreases blocks.len(),
{
    D::lemma_shape();
    let n = blocks.len() as int;
    if n > 0 {
        if let Some(p) = detector_position::<T, D>(blocks) {
            let l = D::spec_block_len() as int;
            let k = retired_blocks::<T, D>(p, n as nat);
            let rest = scan::<T, D>(blocks.skip(k as int));
            lemma_scan_retires::<T, D>(blocks.skip(k as int));
            let b8 = 8 * l;
            lemma_fundamental_div_mod(p as int, b8);
            lemma_first_match_from(
                detector_bytes::<T, D>(blocks),
                D::spec_width(),
                detector_matcher::<T, D>(),
                0,
                detector_limit::<T, D>(n as nat),
            );
            assert(0 <= p as int / b8 < n) by (nonlinear_arith)
                requires
                    p == b8 * (p as int / b8) + p as int % b8,
                    0 <= p as int % b8 < b8,
                    p < 8 * l * n,
                    b8 == 8 * l,
                    l >= 1,
            ;
            assert(p < b8 * k) by (nonlinear_arith)
                requires
                    p == b8 * (p as int / b8) + p as int % b8,
                    p as int % b8 < b8,
                    k == p as int / b8 + 1,
            ;
            let total = scan::<T, D>(blocks);
            assert(b8 * k <= b8 * (k + rest.1)) by (nonlinear_arith)
                requires
                    b8 >= 0,
            ;
            assert(8 * l * k + 8 * l * rest.1 == 8 * l * (k + rest.1)) by (nonlinear_arith);
            assert forall|i: int| 0 <= i < total.0.len() implies #[trigger] total.0[i] < 8 * l
                * total.1 by {
                if i > 0 {
                    assert(total.0[i] == rest.0[i - 1] + 8 * l * k);
                }
            }
            assert forall|i: int, j: int| 0 <= i < j < total.0.len() implies total.0[i]
                < total.0[j] by {
                assert(total.0[j] == rest.0[j - 1] + 8 * l * k);
                if i > 0 {
                    assert(total.0[i] == rest.0[i - 1] + 8 * l * k);
                }
            }
        }
    }
}

/// What a scan finds depends on the bytes alone: however they were split
/// into calls that delivered them, and however the ring holding them wraps.
pub proof fn lemma_scan_depends_on_bytes<T, D: Detector<T>>(a: Seq<D::Block>, b: Seq<D::Block>)
    requires
        detector_bytes::<T, D>(a) == detector_bytes::<T, D>(b),
    ensures
        scan::<T, D>(a) == scan::<T, D>(b),
    decreases a.len(),
{
    D::lemma_shape();
    let l = D::spec_block_len() as int;
    lemma_bytes_subrange::<T, D>(a, 0, 0);
    lemma_bytes_subrange::<T, D>(b, 0, 0);
    assert(a.len() == b.len()) by (nonlinear_arith)
        requires
            l * a.len() == l * b.len(),
            l >= 1,
    ;
    let n = a.len() as int;
    if n > 0 {
        if let Some(p) = detector_position::<T, D>(a) {
            let k = retired_blocks::<T, D>(p, n as nat);
            lemma_bytes_subrange::<T, D>(a, k as int, n);
            lemma_bytes_subrange::<T, D>(b, k as int, n);
            assert(a.skip(k as int) =~= a.subrange(k as int, n));
            assert(b.skip(k as int) =~= b.subrange(k as int, n));
            lemma_scan_depends_on_bytes::<T, D>(a.skip(k as int), b.skip(k as int));
        }
    }
}

/// A match in the first `f` blocks is the match in all of them.
proof fn lemma_prefix_found<T, D: Detector<T>>(blocks: Seq<D::Block>, f: int, p: nat)
    requires
        1 <= f <= blocks.len(),
        detector_position::<T, D>(blocks.subrange(0, f)) == Some(p),
    ensures
        detector_position::<T, D>(blocks) == Some(p),
{
    D::lemma_shape();
    let l = D::spec_block_len() as int;
    let w = D::spec_width();
    let m = detector_matcher::<T, D>();
    let prefix = blocks.subrange(0, f);
    let s = detector_bytes::<T, D>(blocks);
    lemma_first_match_from(detector_bytes::<T, D>(prefix), w, m, 0, 8 * l * f - w);
    assert(8 * l * f <= 8 * l * blocks.len()) by (nonlinear_arith)
        requires
            f <= blocks.len(),
            l >= 1,
    ;
    lemma_window_word::<T, D>(blocks, 0, f, p as int);
    assert forall|q: int| 0 <= q < p implies !m(#[trigger] word_at(s, q, w)) by {
        lemma_window_word::<T, D>(blocks, 0, f, q);
        assert(!m(word_at(detector_bytes::<T, D>(prefix), q, w)));
    }
    lemma_first_match_is(s, w, m, 0, 8 * l * blocks.len() - w, p as int);
}

/// With no match in the first `f` blocks, no position they test matches in
/// all of them.
proof fn lemma_prefix_none<T, D: Detector<T>>(blocks: Seq<D::Block>, f: int)
    requires
        1 <= f <= blocks.len(),
        detector_position::<T, D>(blocks.subrange(0, f)) is None,
    ensures
        forall|q: int|
            0 <= q < 8 * D::spec_block_len() * f - D::spec_width() ==> !detector_matcher::<
                T,
                D,
            >()(#[trigger] word_at(detector_bytes::<T, D>(blocks), q, D::spec_width())),
{
    D::lemma_shape();
    let l = D::spec_block_len() as int;
    let w = D::spec_width();
    let m = detector_matcher::<T, D>();
    let prefix = blocks.subrange(0, f);
    lemma_first_match_from(detector_bytes::<T, D>(prefix), w, m, 0, 8 * l * f - w);
    assert forall|q: int| 0 <= q < 8 * l * f - w implies !m(
        #[trigger] word_at(detector_bytes::<T, D>(blocks), q, w),
    ) by {
        lemma_window_word::<T, D>(blocks, 0, f, q);
        assert(!m(word_at(detector_bytes::<T, D>(prefix), q, w)));
    }
}

/// With no match in the first `f` blocks, a match in the two blocks around
/// the boundary after block `f - 1` is the match in all of them.
proof fn lemma_wrap_found<T, D: Detector<T>>(blocks: Seq<D::Block>, f: int, p: nat)
    requires
        1 <= f < blocks.len(),
        detector_position::<T, D>(blocks.subrange(0, f)) is None,
        detector_position::<T, D>(blocks.subrange(f - 1, f + 1)) == Some(p),
    ensures
        detector_position::<T, D>(blocks) == Some((8 * D::spec_block_len() * (f - 1) + p) as nat),
{
    D::lemma_shape();
    let l = D::spec_block_len() as int;
    let w = D::spec_width();
    let m = detector_matcher::<T, D>();
    let s = detector_bytes::<T, D>(blocks);
    let wrap = blocks.subrange(f - 1, f + 1);
    let base = 8 * l * (f - 1);
    lemma_prefix_none::<T, D>(blocks, f);
    lemma_first_match_from(detector_bytes::<T, D>(wrap), w, m, 0, 8 * l * 2 - w);
    assert(8 * l * (f + 1 - (f - 1)) == 8 * l * 2) by (nonlinear_arith);
    assert(8 * l * f == base + 8 * l && 8 * l * (f + 1) <= 8 * l * blocks.len() && base + 16 * l
        == 8 * l * (f + 1) && base >= 0) by (nonlinear_arith)
        requires
            base == 8 * l * (f - 1),
            1 <= f,
            f + 1 <= blocks.len(),
            l >= 1,
    ;
    lemma_window_word::<T, D>(blocks, f - 1, f + 1, p as int);
    assert forall|q: int| 0 <= q < base + p implies !m(#[trigger] word_at(s, q, w)) by {
        if q >= base {
            lemma_window_word::<T, D>(blocks, f - 1, f + 1, q - base);
            assert(!m(word_at(detector_bytes::<T, D>(wrap), q - base, w)));
        }
    }
    lemma_first_match_is(s, w, m, 0, 8 * l * blocks.len() - w, base + p);
}

/// With no match in the first `f` blocks nor around the boundary after them,
/// no position in the first `f` blocks matches.
proof fn lemma_wrap_none<T, D: Detector<T>>(blocks: Seq<D::Block>, f: int)
    requires
        1 <= f < blocks.len(),
        detector_position::<T, D>(blocks.subrange(0, f)) is None,
        detector_position::<T, D>(blocks.subrange(f - 1, f + 1)) is None,
    ensures
        forall|q: int|
            0 <= q < 8 * D::spec_block_len() * f ==> !detector_matcher::<T, D>()(
                #[trigger] word_at(detector_bytes::<T, D>(blocks), q, D::spec_width()),
            ),
{
    D::lemma_shape();
    let l = D::spec_block_len() as int;
    let w = D::spec_width();
    let m = detector_matcher::<T, D>();
    let s = detector_bytes::<T, D>(blocks);
    let wrap = blocks.subrange(f - 1, f + 1);
    let base = 8 * l * (f - 1);
    lemma_prefix_none::<T, D>(blocks, f);
    lemma_first_match_from(detector_bytes::<T, D>(wrap), w, m, 0, 8 * l * 2 - w);
    assert(8 * l * (f + 1 - (f - 1)) == 8 * l * 2) by (nonlinear_arith);
    assert(8 * l * f == base + 8 * l) by (nonlinear_arith)
        requires
            base == 8 * l * (f - 1),
    ;
    assert forall|q: int| 0 <= q < 8 * l * f implies !m(#[trigger] word_at(s, q, w)) by {
        if q >= base {
            lemma_window_word::<T, D>(blocks, f - 1, f + 1, q - base);
            assert(!m(word_at(detector_bytes::<T, D>(wrap), q - base, w)));
        }
    }
}

/// Blocks whose positions all fail to match can be retired before scanning.
proof fn lemma_scan_skip<T, D: Detector<T>>(blocks: Seq<D::Block>, f: int)
    requires
        1 <= f < blocks.len(),
        forall|q: int|
            0 <= q < 8 * D::spec_block_len() * f ==> !detector_matcher::<T, D>()(
                #[trigger] word_at(detector_bytes::<T, D>(blocks), q, D::spec_width()),
            ),
    ensures
        scan::<T, D>(blocks).0 == shift_positions(
            scan::<T, D>(blocks.skip(f)).0,
            (8 * D::spec_block_len() * f) as nat,
        ),
        scan::<T, D>(blocks).1 == f + scan::<T, D>(blocks.skip(f)).1,
{
    D::lemma_shape();
    let l = D::spec_block_len() as int;
    let w = D::spec_width();
    let m = detector_matcher::<T, D>();
    let n = blocks.len() as int;
    let s = detector_bytes::<T, D>(blocks);
    let tail = blocks.skip(f);
    assert(tail == blocks.subrange(f, n));
    let st = detector_bytes::<T, D>(tail);
    let base = 8 * l * f;
    assert(8 * l * (n - f) == 8 * l * n - base) by (nonlinear_arith)
        requires
            base == 8 * l * f,
    ;
    assert(0 <= base) by (nonlinear_arith)
        requires
            base == 8 * l * f,
            l >= 1,
            f >= 1,
    ;
    let limit = 8 * l * n - w;
    lemma_first_match_from(st, w, m, 0, limit - base);
    match detector_position::<T, D>(tail) {
        Some(qt) => {
            lemma_window_word::<T, D>(blocks, f, n, qt as int);
            assert forall|q: int| 0 <= q < base + qt implies !m(#[trigger] word_at(s, q, w)) by {
                if q >= base {
                    lemma_window_word::<T, D>(blocks, f, n, q - base);
                    assert(!m(word_at(st, q - base, w)));
                }
            }
            lemma_first_match_is(s, w, m, 0, limit, base + qt);
            let p = (base + qt) as nat;
            assert(detector_position::<T, D>(blocks) == Some(p));
            // The retired blocks line up.
            let b8 = 8 * l;
            lemma_fundamental_div_mod(qt as int, b8);
            let qb = qt as int / b8;
            assert(p == (f + qb) * b8 + qt as int % b8) by (nonlinear_arith)
                requires
                    p == base + qt,
                    base == 8 * l * f,
                    b8 == 8 * l,
                    qt == b8 * qb + qt as int % b8,
            ;
            lemma_fundamental_div_mod_converse(p as int, b8, f + qb, qt as int % b8);
            assert(0 <= qb < n - f) by (nonlinear_arith)
                requires
                    qt == b8 * qb + qt as int % b8,
                    0 <= qt as int % b8 < b8,
                    qt < 8 * l * (n - f),
                    b8 == 8 * l,
                    l >= 1,
            ;
            let kt = retired_blocks::<T, D>(qt, (n - f) as nat);
            let k = retired_blocks::<T, D>(p, n as nat);
            assert(kt == qb + 1 && k == f + qb + 1);
            assert(blocks.skip(k as int) =~= tail.skip(kt as int));
            let rest = scan::<T, D>(tail.skip(kt as int));
            assert(8 * l * k == base + 8 * l * kt) by (nonlinear_arith)
                requires
                    k == f + kt,
                    base == 8 * l * f,
            ;
            assert(shift_positions(seq![qt] + shift_positions(rest.0, (8 * l * kt) as nat), base as nat)
                =~= seq![p] + shift_positions(rest.0, (8 * l * k) as nat));
        },
        None => {
            assert forall|q: int| 0 <= q < limit implies !m(#[trigger] word_at(s, q, w)) by {
                if q >= base {
                    lemma_window_word::<T, D>(blocks, f, n, q - base);
                    assert(!m(word_at(st, q - base, w)));
                }
            }
            lemma_first_match_none(s, w, m, 0, limit);
            assert(shift_positions(seq![], base as nat) =~= seq![]);
        },
    }
}

/// The bytes of blocks grow by the bytes of each block appended.
proof fn lemma_bytes_push<T, D: Detector<T>>(blocks: Seq<D::Block>, block: D::Block)
    ensures
        detector_bytes::<T, D>(blocks.push(block)) == detector_bytes::<T, D>(blocks) + blocks_bytes(
            seq![D::spec_block_value(block)],
            D::spec_block_len(),
        ),
{
    D::lemma_shape();
    let l = D::spec_block_len() as int;
    let n = blocks.len() as int;
    let y = blocks.push(block);
    lemma_bytes_subrange::<T, D>(y, 0, n);
    lemma_bytes_subrange::<T, D>(y, n, n + 1);
    assert(y.subrange(0, n) =~= blocks);
    assert(y.subrange(n, n + 1) =~= seq![block]);
    assert(block_values::<T, D>(seq![block]) =~= seq![D::spec_block_value(block)]);
    assert(l * (n + 1) == l * n + l) by (nonlinear_arith);
    let all = detector_bytes::<T, D>(y);
    assert(all =~= all.subrange(0, l * n) + all.subrange(l * n, l * (n + 1)));
}

/// One step of the scan: a match at bit `p` of the blocks left after `d`
/// have been retired is the next match of the whole scan.
proof fn lemma_step_found<T, D: Detector<T>>(b0: Seq<D::Block>, d: nat, done: Seq<nat>, p: nat)
    requires
        d < b0.len(),
        detector_position::<T, D>(b0.skip(d as int)) == Some(p),
        scan::<T, D>(b0).0 == done + shift_positions(
            scan::<T, D>(b0.skip(d as int)).0,
            8 * D::spec_block_len() * d,
        ),
        scan::<T, D>(b0).1 == d + scan::<T, D>(b0.skip(d as int)).1,
    ensures
        ({
            let k = p / (8 * D::spec_block_len()) + 1;
            &&& 1 <= k <= b0.len() - d
            &&& scan::<T, D>(b0).0 == done.push(8 * D::spec_block_len() * d + p) + shift_positions(
                scan::<T, D>(b0.skip((d + k) as int)).0,
                8 * D::spec_block_len() * (d + k),
            )
            &&& scan::<T, D>(b0).1 == d + k + scan::<T, D>(b0.skip((d + k) as int)).1
            &&& reported(detector_bytes::<T, D>(b0), 8 * D::spec_block_len() * d + p) == (
                (p % 8) as u8,
                detector_bytes::<T, D>(b0.skip(d as int)).skip((p / 8) as int),
            )
        }),
{
    D::lemma_shape();
    let l = D::spec_block_len() as int;
    let cur = b0.skip(d as int);
    let n = cur.len() as int;
    lemma_first_match_from(
        detector_bytes::<T, D>(cur),
        D::spec_width(),
        detector_matcher::<T, D>(),
        0,
        detector_limit::<T, D>(cur.len()),
    );
    let b8 = 8 * l;
    lemma_fundamental_div_mod(p as int, b8);
    let before = p as int / b8;
    assert(0 <= before < n) by (nonlinear_arith)
        requires
            p == b8 * before + p as int % b8,
            0 <= p as int % b8 < b8,
            p < 8 * l * n,
            b8 == 8 * l,
            l >= 1,
    ;
    let k = before + 1;
    assert(retired_blocks::<T, D>(p, n as nat) == k);
    let rest = scan::<T, D>(cur.skip(k));
    assert(cur.skip(k) =~= b0.skip(d + k));
    assert(8 * l * d + 8 * l * k == 8 * l * (d + k)) by (nonlinear_arith);
    assert(shift_positions(seq![p] + shift_positions(rest.0, (8 * l * k) as nat), (8 * l * d) as nat)
        =~= seq![(8 * l * d + p) as nat] + shift_positions(rest.0, (8 * l * (d + k)) as nat));
    assert(done + (seq![(8 * l * d + p) as nat] + shift_positions(rest.0, (8 * l * (d + k)) as nat))
        =~= done.push((8 * l * d + p) as nat) + shift_positions(rest.0, (8 * l * (d + k)) as nat));
    // The match, seen from the start of all blocks.
    let g = 8 * l * d + p;
    assert(g == (l * d + p / 8) * 8 + p % 8) by (nonlinear_arith)
        requires
            g == 8 * l * d + p,
            p == 8 * (p / 8) + p % 8,
    ;
    lemma_fundamental_div_mod_converse(g, 8, l * d + (p / 8) as int, (p % 8) as int);
    lemma_bytes_subrange::<T, D>(b0, d as int, b0.len() as int);
    assert(cur =~= b0.subrange(d as int, b0.len() as int));
    let s0 = detector_bytes::<T, D>(b0);
    assert(l * d <= l * b0.len() && l * d + (p / 8) as int <= l * b0.len()) by (nonlinear_arith)
        requires
            d < b0.len(),
            l >= 1,
            p < 8 * l * n,
            n == b0.len() - d,
            p == 8 * (p / 8) + p % 8,
            0 <= p % 8,
    ;
    assert(s0.subrange(l * d, l * b0.len()) =~= s0.skip(l * d));
    assert(s0.skip(l * d).skip((p / 8) as int) =~= s0.skip(l * d + (p / 8) as int));
}

/// Retiring `f` blocks in which nothing matches leaves the scan as it was.
proof fn lemma_step_skip<T, D: Detector<T>>(b0: Seq<D::Block>, d: nat, done: Seq<nat>, f: int)
    requires
        1 <= f < b0.len() - d,
        forall|q: int|
            0 <= q < 8 * D::spec_block_len() * f ==> !detector_matcher::<T, D>()(
                #[trigger] word_at(detector_bytes::<T, D>(b0.skip(d as int)), q, D::spec_width()),
            ),
        scan::<T, D>(b0).0 == done + shift_positions(
            scan::<T, D>(b0.skip(d as int)).0,
            8 * D::spec_block_len() * d,
        ),
        scan::<T, D>(b0).1 == d + scan::<T, D>(b0.skip(d as int)).1,
    ensures
        scan::<T, D>(b0).0 == done + shift_positions(
            scan::<T, D>(b0.skip(d + f)).0,
            (8 * D::spec_block_len() * (d + f)) as nat,
        ),
        scan::<T, D>(b0).1 == d + f + scan::<T, D>(b0.skip(d + f)).1,
{
    D::lemma_shape();
    let l = D::spec_block_len() as int;
    let cur = b0.skip(d as int);
    lemma_scan_skip::<T, D>(cur, f);
    assert(cur.skip(f) =~= b0.skip(d + f));
    let rest = scan::<T, D>(b0.skip(d + f));
    assert(8 * l * d + 8 * l * f == 8 * l * (d + f)) by (nonlinear_arith);
    assert(shift_positions(shift_positions(rest.0, (8 * l * f) as nat), (8 * l * d) as nat)
        =~= shift_positions(rest.0, (8 * l * (d + f)) as nat));
}

/// A match at bit `p` of the two blocks around the boundary after block
/// `f - 1` starts at bit `8 * L * (f - 1) + p` of all blocks: same shift,
/// same tail, and the blocks before it are `f - 1` plus those before it in
/// the pair.
proof fn lemma_wrap_position<T, D: Detector<T>>(blocks: Seq<D::Block>, f: int, p: nat)
    requires
        1 <= f < blocks.len(),
        detector_position::<T, D>(blocks.subrange(f - 1, f + 1)) == Some(p),
    ensures
        ({
            let l = D::spec_block_len() as int;
            let g = 8 * l * (f - 1) + p;
            &&& g % 8 == p % 8
            &&& g / (8 * l) == f - 1 + p as int / (8 * l)
            &&& detector_bytes::<T, D>(blocks.subrange(f - 1, blocks.len() as int)).skip(
                (p / 8) as int,
            ) == detector_bytes::<T, D>(blocks).skip(g / 8)
        }),
{
    D::lemma_shape();
    let l = D::spec_block_len() as int;
    let n = blocks.len() as int;
    let g = 8 * l * (f - 1) + p;
    lemma_first_match_from(
        detector_bytes::<T, D>(blocks.subrange(f - 1, f + 1)),
        D::spec_width(),
        detector_matcher::<T, D>(),
        0,
        detector_limit::<T, D>(2),
    );
    assert(g == (l * (f - 1) + p / 8) * 8 + p % 8) by (nonlinear_arith)
        requires
            g == 8 * l * (f - 1) + p,
            p == 8 * (p / 8) + p % 8,
    ;
    lemma_fundamental_div_mod_converse(g, 8, l * (f - 1) + (p / 8) as int, (p % 8) as int);
    let b8 = 8 * l;
    lemma_fundamental_div_mod(p as int, b8);
    assert(g == (f - 1 + p as int / b8) * b8 + p as int % b8) by (nonlinear_arith)
        requires
            g == 8 * l * (f - 1) + p,
            b8 == 8 * l,
            p == b8 * (p as int / b8) + p as int % b8,
    ;
    lemma_fundamental_div_mod_converse(g, b8, f - 1 + p as int / b8, p as int % b8);
    lemma_bytes_subrange::<T, D>(blocks, f - 1, n);
    let s = detector_bytes::<T, D>(blocks);
    assert(l * (f - 1) + (p / 8) as int <= l * n) by (nonlinear_arith)
        requires
            p < 8 * l * 2,
            p == 8 * (p / 8) + p % 8,
            0 <= p % 8,
            f + 1 <= n,
            l >= 1,
    ;
    assert(l * (f - 1) <= l * n) by (nonlinear_arith)
        requires
            f <= n,
            l >= 1,
    ;
    assert(s.subrange(l * (f - 1), l * n).skip((p / 8) as int) =~= s.skip(l * (f - 1) + (p / 8) as int));
}

/// Appends the bytes of the blocks from `from` on.
fn append_blocks<T, D: Detector<T>>(blocks: &[D::Block], from: usize, out: &mut Vec<u8>)
    requires
        from <= blocks@.len(),
    ensures
        final(out)@ == old(out)@ + detector_bytes::<T, D>(blocks@.skip(from as int)),
{
    let mut i: usize = from;
    proof {
        lemma_bytes_subrange::<T, D>(blocks@.subrange(from as int, from as int), 0, 0);
    }
    assert(detector_bytes::<T, D>(blocks@.subrange(from as int, from as int)) =~= Seq::<u8>::empty());
    assert(old(out)@ + Seq::<u8>::empty() =~= old(out)@);
    while i < blocks.len()
        invariant
            from <= i <= blocks@.len(),
            out@ == old(out)@ + detector_bytes::<T, D>(blocks@.subrange(from as int, i as int)),
        decreases blocks@.len() - i,
    {
        proof {
            lemma_bytes_push::<T, D>(blocks@.subrange(from as int, i as int), blocks@[i as int]);
            assert(blocks@.subrange(from as int, i as int).push(blocks@[i as int]) =~= blocks@.subrange(
                from as int,
                i + 1,
            ));
        }
        D::append_bytes(blocks[i], out);
        i += 1;
    }
    assert(blocks@.subrange(from as int, blocks@.len() as int) =~= blocks@.skip(from as int));
}

/// The bytes of `v` from `from` on.
fn copy_from(v: &Vec<u8>, from: usize) -> (r: Vec<u8>)
    requires
        from <= v@.len(),
    ensures
        r@ == v@.skip(from as int),
{
    let mut r: Vec<u8> = Vec::with_capacity(v.len() - from);
    let mut i: usize = from;
    while i < v.len()
        invariant
            from <= i <= v@.len(),
            r@ == v@.subrange(from as int, i as int),
        decreases v@.len() - i,
    {
        r.push(v[i]);
        i += 1;
    }
    r
}

/// Another name for [`SyncWindow`].
pub type BitStream<D, T> = SyncWindow<D, T>;

/// An observation window that holds a series of unaligned bits. Bits can be
/// added to the window by extending it, and consumed from the window by
/// running the detector.
pub struct SyncWindow<D: Detector<T>, T> {
    detector: D,
    syncword_type: core::marker::PhantomData<T>,
    buf: BlockRing<D::Block>,
}

impl<D: Detector<T>, T> SyncWindow<D, T> {
    /// The blocks the window holds.
    pub closed spec fn blocks(&self) -> Seq<D::Block> {
        self.buf@
    }

    /// The bytes the window holds.
    pub open spec fn bytes(&self) -> Seq<u8> {
        detector_bytes::<T, D>(self.blocks())
    }

    /// The window's storage is sound and its bits can be counted in a `usize`.
    pub closed spec fn wf(&self) -> bool {
        &&& self.buf.wf()
        &&& self.blocks().len() * D::spec_block_len() <= usize::MAX / 16
    }

    /// Create a new `SyncWindow`.
    pub fn new(detector: D) -> (r: Self)
        ensures
            r.wf(),
            r.blocks() == Seq::<D::Block>::empty(),
    {
        Self { detector, syncword_type: core::marker::PhantomData, buf: BlockRing::new() }
    }

    /// The ring of blocks the window holds.
    pub fn buf(&self) -> (r: &BlockRing<D::Block>)
        requires
            self.wf(),
        ensures
            r.wf(),
            r@ == self.blocks(),
    {
        &self.buf
    }

    /// Drops the first `count` blocks without scanning them.
    pub fn discard(&mut self, count: usize)
        requires
            old(self).wf(),
            count <= old(self).blocks().len(),
        ensures
            final(self).wf(),
            final(self).blocks() == old(self).blocks().skip(count as int),
    {
        self.buf.drain_front(count);
        proof {
            D::lemma_shape();
            let l = D::spec_block_len() as int;
            let (a, b) = (self.blocks().len() as int, old(self).blocks().len() as int);
            assert(a * l <= b * l) by (nonlinear_arith)
                requires
                    a <= b,
                    l >= 1,
            ;
        }
    }

    /// Add a series of bytes to be seen by the window. The number of bytes must
    /// be a multiple of the detector block size.
    pub fn extend(&mut self, bytes: &[u8])
        requires
            old(self).wf(),
            bytes@.len() % D::spec_block_len() == 0,
            old(self).bytes().len() + bytes@.len() <= usize::MAX / 16,
        ensures
            final(self).wf(),
            final(self).bytes() == old(self).bytes() + bytes@,
            final(self).blocks().len() == old(self).blocks().len() + bytes@.len()
                / D::spec_block_len(),
            final(self).blocks().subrange(0, old(self).blocks().len() as int) == old(self).blocks(),
    {
        proof {
            D::lemma_shape();
            lemma_bytes_subrange::<T, D>(self.blocks(), 0, 0);
        }
        let ghost l = D::spec_block_len() as int;
        let ghost n0 = self.blocks().len() as int;
        let block_len = D::block_len();
        let block_count = bytes.len() / block_len;
        proof {
            vstd::arithmetic::div_mod::lemma_fundamental_div_mod(bytes@.len() as int, l);
            assert(n0 * l + block_count * l <= usize::MAX / 16 && n0 + block_count <= usize::MAX
                / 16) by (nonlinear_arith)
                requires
                    n0 * l + bytes@.len() <= usize::MAX / 16,
                    bytes@.len() == l * block_count,
                    l >= 1,
                    block_count >= 0,
            ;
        }
        self.buf.reserve(block_count);
        let mut i: usize = 0;
        while i < block_count
            invariant
                D::spec_block_len() == l,
                1 <= l <= 8,
                block_len == l,
                bytes@.len() == l * block_count,
                n0 * l + block_count * l <= usize::MAX / 16,
                n0 + block_count <= usize::MAX / 16,
                n0 == old(self).blocks().len(),
                i <= block_count,
                self.buf.wf(),
                self.blocks().len() == n0 + i,
                self.blocks().subrange(0, n0) == old(self).blocks(),
                self.bytes() == old(self).bytes() + bytes@.subrange(0, l * i),
            decreases block_count - i,
        {
            proof {
                assert(l * i + l <= l * block_count) by (nonlinear_arith)
                    requires
                        i < block_count,
                        l >= 1,
                ;
                assert(l * (i + 1) == l * i + l) by (nonlinear_arith);
                assert(i * l == l * i && (i + 1) * l == l * (i + 1)) by (nonlinear_arith);
                assert((i + 1) * l <= usize::MAX) by (nonlinear_arith)
                    requires
                        i < block_count,
                        n0 * l + block_count * l <= usize::MAX / 16,
                        l >= 1,
                        n0 >= 0,
                ;
            }
            let chunk = slice_subrange(bytes, i * block_len, (i + 1) * block_len);
            let block = D::from_slice(chunk);
            let ghost prev = self.blocks();
            proof {
                lemma_bytes_push::<T, D>(self.blocks(), block);
            }
            self.buf.push_back(block);
            i += 1;
            proof {
                assert(bytes@.subrange(0, l * (i - 1)) + chunk@ =~= bytes@.subrange(0, l * i));
                assert(prev.push(block).subrange(0, n0) =~= prev.subrange(0, n0));
            }
        }
        proof {
            assert(bytes@.subrange(0, l * block_count) =~= bytes@);
            assert(l * block_count == bytes@.len());
            assert(bytes@.len() as int / l == block_count) by {
                vstd::arithmetic::div_mod::lemma_div_multiples_vanish(block_count as int, l);
                assert(l * block_count == block_count * l) by (nonlinear_arith);
            }
            assert(self.blocks().len() * l == n0 * l + block_count * l) by (nonlinear_arith)
                requires
                    self.blocks().len() == n0 + block_count,
            ;
        }
    }

    /// How many blocks the window holds before its ring must grow.
    pub closed spec fn spec_capacity(&self) -> nat {
        self.buf.spec_capacity()
    }

    /// Capacity of the ring, in blocks.
    pub fn capacity(&self) -> (r: usize)
        requires
            self.wf(),
        ensures
            r == self.spec_capacity(),
    {
        self.buf.capacity()
    }

    /// Run the detector on the current window and trim it. Returns, in the
    /// order found, the bit shift and the tail of each match.
    ///
    /// After a match the block in which it starts is retired too, so that
    /// the same syncword is never reported twice; a second syncword starting
    /// in that block is not reported either.
    pub fn detect(&mut self) -> (r: Vec<(u8, Vec<u8>)>)
        requires
            old(self).wf(),
        ensures
            final(self).wf(),
            r@.len() == scan::<T, D>(old(self).blocks()).0.len(),
            forall|i: int|
                0 <= i < r@.len() ==> (#[trigger] r@[i]).0 == reported(
                    old(self).bytes(),
                    scan::<T, D>(old(self).blocks()).0[i],
                ).0 && r@[i].1@ == reported(
                    old(self).bytes(),
                    scan::<T, D>(old(self).blocks()).0[i],
                ).1,
            final(self).blocks() == old(self).blocks().skip(
                scan::<T, D>(old(self).blocks()).1 as int,
            ),
    {
        let ghost b0 = self.blocks();
        let ghost s0 = detector_bytes::<T, D>(b0);
        let ghost mut done: Seq<nat> = Seq::empty();
        let ghost mut dropped: nat = 0;
        let mut matches: Vec<(u8, Vec<u8>)> = Vec::new();
        proof {
            D::lemma_shape();
            assert(b0.skip(0) =~= b0);
            assert(shift_positions(scan::<T, D>(b0).0, 0) =~= scan::<T, D>(b0).0);
            assert(done + scan::<T, D>(b0).0 =~= scan::<T, D>(b0).0);
        }
        while self.buf.len() > 0
            invariant_except_break
                scan::<T, D>(b0).0 == done + shift_positions(
                    scan::<T, D>(self.blocks()).0,
                    8 * D::spec_block_len() * dropped,
                ),
                scan::<T, D>(b0).1 == dropped + scan::<T, D>(self.blocks()).1,
            invariant
                self.wf(),
                1 <= D::spec_block_len() <= 8,
                dropped <= b0.len(),
                self.blocks() == b0.skip(dropped as int),
                s0 == detector_bytes::<T, D>(b0),
                matches@.len() == done.len(),
                forall|i: int|
                    0 <= i < done.len() ==> (#[trigger] matches@[i]).0 == reported(s0, done[i]).0
                        && matches@[i].1@ == reported(s0, done[i]).1,
            ensures
                self.wf(),
                self.blocks() == b0.skip(dropped as int),
                scan::<T, D>(b0).0 == done,
                scan::<T, D>(b0).1 == dropped,
                matches@.len() == done.len(),
                forall|i: int|
                    0 <= i < done.len() ==> (#[trigger] matches@[i]).0 == reported(s0, done[i]).0
                        && matches@[i].1@ == reported(s0, done[i]).1,
            decreases self.blocks().len(),
        {
            let ghost l = D::spec_block_len() as int;
            let ghost cur = self.blocks();
            let n = self.buf.len();
            let (first, second) = self.buf.as_slices();
            let f = first.len();
            proof {
                assert(first@ =~= cur.subrange(0, f as int));
                assert(second@ =~= cur.subrange(f as int, n as int));
                assert(cur.len() == b0.len() - dropped);
            }
            let mut guard_only = false;
            let mut to_remove: usize = 0;
            if let Some((found, before)) = self.detect_next(first, second) {
                let ghost p = match detector_position::<T, D>(first@) {
                    Some(p) => p,
                    None => 0,
                };
                proof {
                    lemma_prefix_found::<T, D>(cur, f as int, p);
                    lemma_step_found::<T, D>(b0, dropped, done, p);
                    assert(first@ + second@ == cur);
                }
                // Also remove the block in where the syncword was found to ensure that we do not re-detect the same syncword.
                to_remove = before + 1;
                proof {
                    done = done.push((8 * l * dropped + p) as nat);
                    dropped = (dropped + to_remove) as nat;
                }
                matches.push(found);
            } else if second.len() == 0 {
                // No more sections, remove all but the last item - it is not fully tested,
                // as we need to scan from that item into the next arriving.
                to_remove = f - 1;
                guard_only = true;
                proof {
                    assert(cur.subrange(0, f as int) =~= cur);
                    assert(done + shift_positions(seq![], (8 * l * dropped) as nat) =~= done);
                    dropped = (dropped + to_remove) as nat;
                }
            } else {
                // Test wrap section.
                let wrap = vec![first[f - 1], second[0]];
                let sequel = slice_subrange(second, 1, second.len());
                proof {
                    assert(wrap@ =~= cur.subrange(f - 1, f + 1));
                    assert(sequel@ =~= cur.subrange(f + 1, n as int));
                    assert((wrap@.len() + sequel@.len()) * l <= n * l) by (nonlinear_arith)
                        requires
                            wrap@.len() + sequel@.len() <= n,
                            l >= 1,
                    ;
                }
                if let Some((found, before)) = self.detect_next(wrap.as_slice(), sequel) {
                    let ghost pw = match detector_position::<T, D>(wrap@) {
                        Some(p) => p,
                        None => 0,
                    };
                    let ghost p = (8 * l * (f - 1) + pw) as nat;
                    proof {
                        lemma_wrap_found::<T, D>(cur, f as int, pw);
                        lemma_step_found::<T, D>(b0, dropped, done, p);
                        lemma_wrap_position::<T, D>(cur, f as int, pw);
                        assert(wrap@ + sequel@ =~= cur.subrange(f - 1, n as int));
                    }
                    // Remove all blocks until wrap and maybe one more, to ensure that remove
                    // the block with the detected syncword.
                    to_remove = f + before;
                    proof {
                        done = done.push((8 * l * dropped + p) as nat);
                        dropped = (dropped + to_remove) as nat;
                    }
                    matches.push(found);
                } else {
                    // Remove all items until wrap (there is still at least one more item available)
                    to_remove = f;
                    proof {
                        lemma_wrap_none::<T, D>(cur, f as int);
                        lemma_step_skip::<T, D>(b0, dropped, done, f as int);
                        dropped = (dropped + to_remove) as nat;
                    }
                }
            }
            self.discard(to_remove);
            proof {
                assert(cur.skip(to_remove as int) =~= b0.skip(dropped as int));
            }
            if guard_only {
                break;
            }
        }
        proof {
            assert(self.blocks().len() == 0 ==> scan::<T, D>(self.blocks()).0 =~= Seq::<nat>::empty());
            assert(done + shift_positions(Seq::<nat>::empty(), (8 * D::spec_block_len() * dropped) as nat) =~= done);
        }
        matches
    }

    /// Runs the detector on `haystack`; on a match, returns its bit shift, the
    /// bytes of `haystack` and `sequel` from the byte it starts in, and the
    /// number of whole blocks before it.
    fn detect_next(&self, haystack: &[D::Block], sequel: &[D::Block]) -> (r: Option<
        ((u8, Vec<u8>), usize),
    >)
        requires
            (haystack@.len() + sequel@.len()) * D::spec_block_len() <= usize::MAX / 16,
        ensures
            match detector_position::<T, D>(haystack@) {
                Some(p) => r matches Some(((shift, tail), before)) && shift == p % 8 && tail@
                    == detector_bytes::<T, D>(haystack@ + sequel@).skip((p / 8) as int) && before
                    == p / (8 * D::spec_block_len()),
                None => r is None,
            },
    {
        proof {
            D::lemma_shape();
            let l = D::spec_block_len() as int;
            assert(haystack@.len() * 8 * l <= usize::MAX) by (nonlinear_arith)
                requires
                    (haystack@.len() + sequel@.len()) * l <= usize::MAX / 16,
            ;
            assert(block_values::<T, D>(haystack@) =~= haystack@.map_values(
                |b: D::Block| D::spec_block_value(b),
            ));
            assert(detector_matcher::<T, D>() =~= (|w: nat| D::spec_is_match(w)));
        }
        if let Some(position) = self.detector.position_in_blocks(haystack) {
            let ghost l = D::spec_block_len() as int;
            let ghost all = haystack@ + sequel@;
            proof {
                lemma_first_match_from(
                    detector_bytes::<T, D>(haystack@),
                    D::spec_width(),
                    detector_matcher::<T, D>(),
                    0,
                    detector_limit::<T, D>(haystack@.len()),
                );
            }
            let block_len = D::block_len();
            let byte_index = position / 8;
            let bit_shifts = (position % 8) as u8;
            let first_block = byte_index / block_len;
            proof {
                vstd::arithmetic::div_mod::lemma_fundamental_div_mod(byte_index as int, l);
                assert(0 <= first_block < haystack@.len()) by (nonlinear_arith)
                    requires
                        byte_index as int == l * first_block + byte_index as int % l,
                        0 <= byte_index as int % l < l,
                        8 * byte_index <= position,
                        position < 8 * l * haystack@.len(),
                ;
            }
            proof {
                lemma_bytes_subrange::<T, D>(haystack@, first_block as int, haystack@.len() as int);
                assert(haystack@.subrange(first_block as int, haystack@.len() as int) =~= haystack@.skip(first_block as int));
                assert(first_block * l == l * first_block) by (nonlinear_arith);
                assert(l * first_block + l <= l * haystack@.len()) by (nonlinear_arith)
                    requires
                        first_block < haystack@.len(),
                        l >= 1,
                ;
            }
            let mut bytes: Vec<u8> = Vec::new();
            append_blocks::<T, D>(haystack, first_block, &mut bytes);
            let mut remaining = copy_from(&bytes, byte_index - first_block * block_len);
            append_blocks::<T, D>(sequel, 0, &mut remaining);
            let blocks_before = position / (8 * block_len);
            proof {
                let n = haystack@.len() as int;
                lemma_bytes_subrange::<T, D>(all, 0, n);
                lemma_bytes_subrange::<T, D>(all, n, all.len() as int);
                lemma_bytes_subrange::<T, D>(haystack@, first_block as int, n);
                assert(all.subrange(0, n) =~= haystack@);
                assert(all.subrange(n, all.len() as int) =~= sequel@);
                assert(haystack@.subrange(first_block as int, n) =~= haystack@.skip(first_block as int));
                assert(sequel@.skip(0) =~= sequel@);
                let sa = detector_bytes::<T, D>(all);
                let sh = detector_bytes::<T, D>(haystack@);
                assert(l * n <= l * all.len() && l * first_block <= l * n) by (nonlinear_arith)
                    requires
                        n <= all.len(),
                        first_block <= n,
                        l >= 1,
                ;
                assert(sa =~= sh + detector_bytes::<T, D>(sequel@));
                assert(sh.subrange(l * first_block, l * n).skip(byte_index - first_block * l) + detector_bytes::<T, D>(sequel@)
                    =~= sa.skip(byte_index as int));
            }
            Some(((bit_shifts, remaining), blocks_before))
        } else {
            None
        }
    }
}

} // verus!
