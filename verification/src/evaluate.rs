use vstd::prelude::*;
use vstd::wrapping::i16_specs::wrapping_add;
use crate::bits::{group_bits, lemma_pop_lsb, on, tdiv};
use crate::consts::{Piece, Side, SEE_VALS};
use crate::network::{
    add_feats, dot, feats_ok, mirror, net_out, sub_feats, Accumulator, EvalEntry, EvalTable, Network, BUCKETS, INPUTS,
};
use crate::position::{board_ok, cell, king_sq, piece_at, stm_of, Position};
use crate::lanes::{
    feats_sum, lemma_add_feats, lemma_feats_sum_push, lemma_sub_feats, lemma_sum_ext, lemma_sum_linear, lemma_sum_point,
    lemma_sum_swap, lemma_sum_zero, lemma_wrap16_inner, lemma_wrap16_small, lemma_wrapping_add, sum_to, wrap16,
};

verus! {

broadcast use group_bits;

/// Number of squares of `bb` below `n`.
pub open spec fn popcount_below(bb: u64, n: int) -> int
    decreases n,
{
    if n <= 0 {
        0
    } else {
        popcount_below(bb, n - 1) + if on(bb, n - 1) { 1int } else { 0int }
    }
}

/// Number of squares of a bitboard.
pub open spec fn popcount(bb: u64) -> int {
    popcount_below(bb, 64)
}

/// Counts the squares of a bitboard.
pub fn count_squares(bb: u64) -> (r: u32)
    ensures
        r == popcount(bb),
        r <= 64,
{
    let mut n: u32 = 0;
    let mut q: u64 = 0;
    while q < 64
        invariant
            q <= 64,
            n == popcount_below(bb, q as int),
            n <= q,
        decreases 64 - q,
    {
        if (bb >> q) & 1 == 1 {
            n += 1;
        }
        q += 1;
    }
    n
}

/// Material weight that scales the network output: 700 plus a thirty-second of the exchange
/// values of the knights, bishops, rooks and queens on the board.
pub open spec fn material_scale(bb: [u64; 8]) -> int {
    700 + (popcount(bb[3]) * 450 + popcount(bb[4]) * 450 + popcount(bb[5]) * 650 + popcount(bb[6]) * 1250) / 32
}

/// An evaluation scaled by the material on the board.
pub open spec fn scaled(bb: [u64; 8], eval: int) -> int {
    tdiv(eval * material_scale(bb), 1024)
}

/// File flip of a perspective whose king stands on `ksq`, and, for black, the rank flip.
pub open spec fn flip(persp: int, ksq: int) -> int {
    (if ksq % 8 > 3 { 7int } else { 0int }) + if persp == 1 { 56int } else { 0int }
}

/// First input feature of the pieces of `side` and kind `pc` (pawn 2 to king 7), for the
/// perspective `persp` with its king on `ksq`.
pub open spec fn feature_base(persp: int, side: int, pc: int, ksq: int) -> int {
    let bucket = if persp == 0 { BUCKETS[mirror(ksq as usize) as int] } else { BUCKETS[(mirror(ksq as usize) ^ 56) as int] };
    let own = (persp == 0) == (side == 0);
    768 * bucket + (if own { 0int } else { 384int }) + 64 * (pc - 2)
}

/// Input feature, for the perspective `persp` with its king on `ksq`, of a piece of `side` and
/// kind `pc` (pawn 2 to king 7) on `sq`.
pub open spec fn feature(persp: int, side: int, pc: int, sq: int, ksq: int) -> int {
    feature_base(persp, side, pc, ksq) + ((sq as u64) ^ (flip(persp, ksq) as u64)) as int
}

/// Lane `j` of the accumulator of `persp` computed from scratch over the first `n` squares.
pub open spec fn scratch_lane(net: &Network, bb: [u64; 8], persp: int, ksq: int, j: int, n: int) -> i16
    decreases n,
{
    if n <= 0 {
        net.feature_bias.vals[j]
    } else {
        let c = cell(bb, n - 1);
        if c == 0 {
            scratch_lane(net, bb, persp, ksq, j, n - 1)
        } else {
            wrapping_add(
                scratch_lane(net, bb, persp, ksq, j, n - 1),
                net.feature_weights@[feature(persp, c / 8, c % 8, n - 1, ksq)].vals[j],
            )
        }
    }
}

/// The evaluation of a position from its two accumulators, for the side to move.
pub open spec fn eval_of(pos: Position, net: &Network, white: Accumulator, black: Accumulator) -> int {
    let raw = if pos.c { net_out(net, black, white) } else { net_out(net, white, black) };
    scaled(pos.bb, raw)
}

proof fn lemma_feature_range(persp: int, side: int, pc: int, sq: int, ksq: int)
    requires
        0 <= persp < 2,
        0 <= side < 2,
        2 <= pc < 8,
        0 <= sq < 64,
        0 <= ksq < 64,
    ensures
        0 <= feature(persp, side, pc, sq, ksq) < INPUTS,
{
    let k = ksq as usize;
    assert(k < 64 ==> mirror(k) < 64 && mirror(k) % 8 <= 3 && (mirror(k) ^ 56) < 64 && (mirror(k) ^ 56) % 8 <= 3) by (bit_vector);
    assert(forall|i: int| 0 <= i < 64 && i % 8 <= 3 ==> #[trigger] BUCKETS[i] <= 3) by {
        assert(BUCKETS@ =~= seq![
            0usize, 0, 1, 1, 5, 5, 4, 4, 2, 2, 2, 2, 6, 6, 6, 6, 3, 3, 3, 3, 7, 7, 7, 7, 3, 3, 3, 3, 7, 7, 7, 7,
            3, 3, 3, 3, 7, 7, 7, 7, 3, 3, 3, 3, 7, 7, 7, 7, 3, 3, 3, 3, 7, 7, 7, 7, 3, 3, 3, 3, 7, 7, 7, 7,
        ]);
    }
    let s = sq as u64;
    let f = flip(persp, ksq) as u64;
    assert(s < 64 && f < 64 ==> s ^ f < 64) by (bit_vector);
}

/// King bucket of a king on `ksq`, seen from `persp`.
pub open spec fn kbucket(persp: int, ksq: int) -> int {
    BUCKETS[if persp == 0 { ksq } else { ((ksq as usize) ^ 56usize) as int }] as int
}

/// The bucket of a king mirrored to the queen side is its bucket modulo four, and the bucket
/// tells on which half the king stands.
proof fn lemma_bucket_table()
    ensures
        forall|k: usize| k < 64 ==> #[trigger] BUCKETS[mirror(k) as int] == BUCKETS[k as int] % 4
            && ((k % 8 > 3) == (BUCKETS[k as int] >= 4)),
{
    assert(BUCKETS@ =~= seq![
        0usize, 0, 1, 1, 5, 5, 4, 4, 2, 2, 2, 2, 6, 6, 6, 6, 3, 3, 3, 3, 7, 7, 7, 7, 3, 3, 3, 3, 7, 7, 7, 7,
        3, 3, 3, 3, 7, 7, 7, 7, 3, 3, 3, 3, 7, 7, 7, 7, 3, 3, 3, 3, 7, 7, 7, 7, 3, 3, 3, 3, 7, 7, 7, 7,
    ]);
    assert forall|k: usize| k < 64 implies #[trigger] BUCKETS[mirror(k) as int] == BUCKETS[k as int] % 4
        && ((k % 8 > 3) == (BUCKETS[k as int] >= 4)) by {
        assert(k < 64 ==> mirror(k) == if k % 8 > 3 { (k + 7 - 2 * (k % 8)) as usize } else { k }) by (bit_vector);
    }
}

/// The squares of kind index `k` (side `k / 6`, piece `k % 6 + 2`) on the board `bb`.
pub open spec fn kind_bits(bb: [u64; 8], k: int) -> u64 {
    bb[k % 6 + 2] & bb[k / 6]
}

/// Lane `j` of the weight of the feature `base + (sq ^ fl)`, if `bits` holds `sq`.
pub open spec fn bit_w(net: &Network, bits: u64, base: int, fl: int, j: int, sq: int) -> int {
    if on(bits, sq) {
        net.feature_weights@[base + ((sq as u64) ^ (fl as u64)) as int].vals[j] as int
    } else {
        0int
    }
}

/// Lane `j` of the weights of the features `base + (sq ^ fl)` for the squares `sq` of `bits`,
/// summed.
pub open spec fn bits_sum(net: &Network, bits: u64, base: int, fl: int, j: int) -> int {
    sum_to(|sq: int| bit_w(net, bits, base, fl, j, sq), 64)
}

/// Lane `j` of the weights of the pieces of kind index `k` that stand on `a` and not on `b`,
/// seen from `persp` with its king on `ksq`, summed.
pub open spec fn kind_diff(net: &Network, a: [u64; 8], b: [u64; 8], persp: int, ksq: int, j: int, k: int) -> int {
    bits_sum(net, kind_bits(a, k) & !kind_bits(b, k), feature_base(persp, k / 6, k % 6 + 2, ksq), flip(persp, ksq), j)
}

/// Lane `j` of the weights of the pieces of the first `n` kind indices that stand on `a` and
/// not on `b`, summed.
pub open spec fn kinds_upto(net: &Network, a: [u64; 8], b: [u64; 8], persp: int, ksq: int, j: int, n: int) -> int {
    sum_to(|k: int| kind_diff(net, a, b, persp, ksq, j, k), n)
}

/// Lane `j` of the weights of all pieces that stand on `a` and not on `b`, summed.
pub open spec fn diff_sum(net: &Network, a: [u64; 8], b: [u64; 8], persp: int, ksq: int, j: int) -> int {
    kinds_upto(net, a, b, persp, ksq, j, 12)
}

/// Lane `j` of the weights of the pieces of kind index `k` on `a`, summed.
pub open spec fn kind_total(net: &Network, a: [u64; 8], persp: int, ksq: int, j: int, k: int) -> int {
    bits_sum(net, kind_bits(a, k), feature_base(persp, k / 6, k % 6 + 2, ksq), flip(persp, ksq), j)
}

/// Lane `j` of the weights of all pieces on `a`, seen from `persp` with its king on `ksq`,
/// summed.
pub open spec fn board_sum(net: &Network, a: [u64; 8], persp: int, ksq: int, j: int) -> int {
    sum_to(|k: int| kind_total(net, a, persp, ksq, j, k), 12)
}

/// The accumulator holds, in every lane, the hidden bias plus the weights of the pieces of
/// `bb`, modulo 2^16: what it holds when computed from scratch.
pub open spec fn lanes_hold(net: &Network, acc: Accumulator, bb: [u64; 8], persp: int, ksq: int) -> bool {
    forall|j: int| 0 <= j < 1024 ==> #[trigger] acc.vals[j] as int == wrap16(net.feature_bias.vals[j] + board_sum(net, bb, persp, ksq, j))
}

/// Every cached entry holds, for each king square of its pair of buckets, the accumulators of
/// its bitboards.
pub open spec fn cache_ok(net: &Network, cache: EvalTable) -> bool {
    &&& cache.table@.len() == 64
    &&& forall|i: int, k: int| 0 <= i < 64 && 0 <= k < 64 && kbucket(0, k) == i / 8
        ==> #[trigger] lanes_hold(net, cache.table@[i].white, cache.table@[i].bbs, 0, k)
    &&& forall|i: int, k: int| 0 <= i < 64 && 0 <= k < 64 && kbucket(1, k) == i % 8
        ==> #[trigger] lanes_hold(net, cache.table@[i].black, cache.table@[i].bbs, 1, k)
}

/// Flipping the rank of a square keeps its file and commutes with mirroring its file.
proof fn lemma_rank_flip(a: usize)
    by (bit_vector)
    ensures
        a < 64 ==> (a ^ 56) < 64 && (a ^ 56) % 8 == a % 8 && (mirror(a) ^ 56) == mirror(a ^ 56),
{
}

/// Kings in the same bucket give every piece the same feature.
proof fn lemma_feature_bucket(persp: int, k1: int, k2: int)
    requires
        0 <= persp < 2,
        0 <= k1 < 64,
        0 <= k2 < 64,
        kbucket(persp, k1) == kbucket(persp, k2),
    ensures
        forall|side: int, pc: int| #[trigger] feature_base(persp, side, pc, k1) == feature_base(persp, side, pc, k2),
        flip(persp, k1) == flip(persp, k2),
{
    lemma_bucket_table();
    let a = k1 as usize;
    let b = k2 as usize;
    lemma_rank_flip(a);
    lemma_rank_flip(b);
    assert(BUCKETS[mirror(a ^ 56) as int] == BUCKETS[(a ^ 56) as int] % 4);
    assert(BUCKETS[mirror(b ^ 56) as int] == BUCKETS[(b ^ 56) as int] % 4);
    assert(BUCKETS[mirror(a) as int] == BUCKETS[a as int] % 4);
    assert(BUCKETS[mirror(b) as int] == BUCKETS[b as int] % 4);
}

/// The board sums of kings in the same bucket agree.
proof fn lemma_board_bucket(net: &Network, bb: [u64; 8], persp: int, k1: int, k2: int)
    requires
        0 <= persp < 2,
        0 <= k1 < 64,
        0 <= k2 < 64,
        kbucket(persp, k1) == kbucket(persp, k2),
    ensures
        forall|j: int| #[trigger] board_sum(net, bb, persp, k1, j) == board_sum(net, bb, persp, k2, j),
{
    lemma_feature_bucket(persp, k1, k2);
    assert forall|j: int| #[trigger] board_sum(net, bb, persp, k1, j) == board_sum(net, bb, persp, k2, j) by {
        assert forall|k: int| 0 <= k < 12 implies #[trigger] kind_total(net, bb, persp, k1, j, k) == kind_total(net, bb, persp, k2, j, k) by {
            assert(feature_base(persp, k / 6, k % 6 + 2, k1) == feature_base(persp, k / 6, k % 6 + 2, k2));
        }
        lemma_sum_ext(|k: int| kind_total(net, bb, persp, k1, j, k), |k: int| kind_total(net, bb, persp, k2, j, k), 12);
    }
}

/// Squares on `n` and not on `o`, less those on `o` and not on `n`, weigh what `n` weighs
/// less what `o` weighs.
proof fn lemma_bits_diff(net: &Network, n: u64, o: u64, base: int, fl: int, j: int)
    ensures
        bits_sum(net, n & !o, base, fl, j) - bits_sum(net, o & !n, base, fl, j) == bits_sum(net, n, base, fl, j) - bits_sum(net, o, base, fl, j),
{
    let f_no = |sq: int| bit_w(net, n & !o, base, fl, j, sq);
    let f_on = |sq: int| bit_w(net, o & !n, base, fl, j, sq);
    let f_n = |sq: int| bit_w(net, n, base, fl, j, sq);
    let f_o = |sq: int| bit_w(net, o, base, fl, j, sq);
    let g = |sq: int| f_no(sq) + f_o(sq);
    assert forall|i: int| 0 <= i < 64 implies #[trigger] g(i) == f_on(i) + f_n(i) by {
        assert(on(n & !o, i) == (on(n, i) && !on(o, i)));
        assert(on(o & !n, i) == (on(o, i) && !on(n, i)));
    }
    lemma_sum_linear(g, f_no, f_o, 64);
    lemma_sum_linear(g, f_on, f_n, 64);
}

/// What the pieces on `n` and not on `o` weigh, less what those on `o` and not on `n` weigh,
/// is what `n` weighs less what `o` weighs.
proof fn lemma_diff_board(net: &Network, n: [u64; 8], o: [u64; 8], persp: int, ksq: int, j: int)
    ensures
        diff_sum(net, n, o, persp, ksq, j) - diff_sum(net, o, n, persp, ksq, j) == board_sum(net, n, persp, ksq, j) - board_sum(net, o, persp, ksq, j),
{
    let d_no = |k: int| kind_diff(net, n, o, persp, ksq, j, k);
    let d_on = |k: int| kind_diff(net, o, n, persp, ksq, j, k);
    let t_n = |k: int| kind_total(net, n, persp, ksq, j, k);
    let t_o = |k: int| kind_total(net, o, persp, ksq, j, k);
    let g = |k: int| d_no(k) + t_o(k);
    assert forall|i: int| 0 <= i < 12 implies #[trigger] g(i) == d_on(i) + t_n(i) by {
        lemma_bits_diff(net, kind_bits(n, i), kind_bits(o, i), feature_base(persp, i / 6, i % 6 + 2, ksq), flip(persp, ksq), j);
    }
    lemma_sum_linear(g, d_no, t_o, 12);
    lemma_sum_linear(g, d_on, t_n, 12);
}

/// Lane `j` of the weight of the piece of kind index `k` on `sq`, if `bb` holds one there.
pub open spec fn piece_w(net: &Network, bb: [u64; 8], persp: int, ksq: int, j: int, k: int, sq: int) -> int {
    if on(kind_bits(bb, k), sq) {
        net.feature_weights@[feature_base(persp, k / 6, k % 6 + 2, ksq) + ((sq as u64) ^ (flip(persp, ksq) as u64)) as int].vals[j] as int
    } else {
        0int
    }
}

/// On a board, the kinds on a square weigh what the piece in its cell weighs.
proof fn lemma_square_col(net: &Network, bb: [u64; 8], persp: int, ksq: int, j: int, q: int)
    requires
        board_ok(bb),
        0 <= q < 64,
    ensures
        sum_to(|k: int| piece_w(net, bb, persp, ksq, j, k, q), 12) == (if cell(bb, q) == 0 {
            0int
        } else {
            net.feature_weights@[feature(persp, cell(bb, q) / 8, cell(bb, q) % 8, q, ksq)].vals[j] as int
        }),
{
    let g = |k: int| piece_w(net, bb, persp, ksq, j, k, q);
    let z = |k: int| 0int;
    lemma_sum_zero(z, 12);
    let c = cell(bb, q);
    assert(on(bb[0], q) || on(bb[1], q) ==> piece_at(bb, q) != 0);
    if c == 0 {
        assert forall|k: int| 0 <= k < 12 implies #[trigger] g(k) == 0 by {
            assert(k / 6 == 0 || k / 6 == 1);
        }
        lemma_sum_zero(g, 12);
    } else {
        let side = c / 8;
        let pc = c % 8;
        assert(2 <= pc < 8 && 0 <= side < 2);
        assert(on(bb[side], q));
        assert(on(bb[pc], q));
        let t = 6 * side + pc - 2;
        assert(t / 6 == side && t % 6 + 2 == pc);
        assert forall|k: int| 0 <= k < 12 && k != t implies #[trigger] g(k) == z(k) by {
            assert(k / 6 == 0 || k / 6 == 1);
            if k / 6 == side {
                assert(k % 6 + 2 != pc);
                if on(bb[k % 6 + 2], q) {
                    assert(piece_at(bb, q) == k % 6 + 2);
                }
            } else {
                assert(!(on(bb[0], q) && on(bb[1], q)));
            }
        }
        lemma_sum_point(z, g, t, 12);
    }
}

/// Computing an accumulator from scratch over the first `n` squares adds, modulo 2^16, what
/// the pieces on them weigh.
proof fn lemma_scratch_prefix(net: &Network, bb: [u64; 8], persp: int, ksq: int, j: int, n: int)
    requires
        board_ok(bb),
        0 <= n <= 64,
    ensures
        scratch_lane(net, bb, persp, ksq, j, n) as int == wrap16(
            net.feature_bias.vals[j] + sum_to(|q: int| sum_to(|k: int| piece_w(net, bb, persp, ksq, j, k, q), 12), n),
        ),
    decreases n,
{
    let col = |q: int| sum_to(|k: int| piece_w(net, bb, persp, ksq, j, k, q), 12);
    if n == 0 {
        lemma_wrap16_small(net.feature_bias.vals[j] as int);
    } else {
        lemma_scratch_prefix(net, bb, persp, ksq, j, n - 1);
        lemma_square_col(net, bb, persp, ksq, j, n - 1);
        let prev = scratch_lane(net, bb, persp, ksq, j, n - 1);
        let c = cell(bb, n - 1);
        assert(sum_to(col, n) == sum_to(col, n - 1) + col(n - 1));
        if c != 0 {
            let w = net.feature_weights@[feature(persp, c / 8, c % 8, n - 1, ksq)].vals[j];
            lemma_wrapping_add(prev, w);
            lemma_wrap16_inner(net.feature_bias.vals[j] + sum_to(col, n - 1), w as int);
        }
    }
}

/// Computing an accumulator from scratch leaves in it what the board weighs.
proof fn lemma_scratch(net: &Network, bb: [u64; 8], persp: int, ksq: int, j: int)
    requires
        board_ok(bb),
    ensures
        scratch_lane(net, bb, persp, ksq, j, 64) as int == wrap16(net.feature_bias.vals[j] + board_sum(net, bb, persp, ksq, j)),
{
    lemma_scratch_prefix(net, bb, persp, ksq, j, 64);
    let f = |a: int, b: int| piece_w(net, bb, persp, ksq, j, a, b);
    lemma_sum_swap(f, 12, 64);
    assert forall|a: int| 0 <= a < 12 implies #[trigger] kind_total(net, bb, persp, ksq, j, a) == sum_to(|b: int| f(a, b), 64) by {
        lemma_sum_ext(
            |sq: int| bit_w(net, kind_bits(bb, a), feature_base(persp, a / 6, a % 6 + 2, ksq), flip(persp, ksq), j, sq),
            |b: int| f(a, b),
            64,
        );
    }
    lemma_sum_ext(|k: int| kind_total(net, bb, persp, ksq, j, k), |a: int| sum_to(|b: int| f(a, b), 64), 12);
    let g1 = |b: int| sum_to(|a: int| f(a, b), 12);
    let g2 = |q: int| sum_to(|k: int| piece_w(net, bb, persp, ksq, j, k, q), 12);
    assert forall|b: int| 0 <= b < 64 implies #[trigger] g1(b) == g2(b) by {
        lemma_sum_ext(|a: int| f(a, b), |k: int| piece_w(net, bb, persp, ksq, j, k, b), 12);
    }
    lemma_sum_ext(g1, g2, 64);
}

proof fn lemma_popcount4(bb: [u64; 8], n: int)
    requires
        board_ok(bb),
        0 <= n <= 64,
    ensures
        popcount_below(bb[3], n) + popcount_below(bb[4], n) + popcount_below(bb[5], n) + popcount_below(bb[6], n) <= n,
        0 <= popcount_below(bb[3], n),
        0 <= popcount_below(bb[4], n),
        0 <= popcount_below(bb[5], n),
        0 <= popcount_below(bb[6], n),
    decreases n,
{
    if n > 0 {
        lemma_popcount4(bb, n - 1);
        let q = n - 1;
        assert(on(bb[3], q) ==> piece_at(bb, q) == 3);
        assert(on(bb[4], q) ==> piece_at(bb, q) == 4);
        assert(on(bb[5], q) ==> piece_at(bb, q) == 5);
        assert(on(bb[6], q) ==> piece_at(bb, q) == 6);
    }
}

/// Popping the lowest square `t` of `prev` and pushing its feature adds that feature's weight
/// to the pushed list, and the square to those taken from `orig`.
proof fn lemma_push_step(
    net: &Network,
    orig: u64,
    prev: u64,
    cur: u64,
    t: int,
    base: int,
    fl: int,
    before: Seq<u16>,
    after: Seq<u16>,
    x: u16,
)
    requires
        0 <= t < 64,
        0 <= fl < 64,
        on(prev, t),
        forall|s: int| #[trigger] on(prev, s) ==> on(orig, s),
        forall|s: int| #[trigger] on(cur, s) == (on(prev, s) && s != t),
        after == before.push(x),
        x as int == base + ((t as u16) ^ (fl as u16)) as int,
    ensures
        forall|s: int| #[trigger] on(cur, s) ==> on(orig, s),
        forall|j: int| #[trigger] feats_sum(net, after, j, after.len() as int) - bits_sum(net, orig & !cur, base, fl, j)
            == feats_sum(net, before, j, before.len() as int) - bits_sum(net, orig & !prev, base, fl, j),
{
    let tt = t as u16;
    let ff = fl as u16;
    assert(tt < 64 && ff < 64 ==> (tt ^ ff) as u64 == (tt as u64) ^ (ff as u64)) by (bit_vector);
    assert((t as u64) == (tt as u64) && (fl as u64) == (ff as u64));
    assert forall|j: int| #[trigger] feats_sum(net, after, j, after.len() as int) - bits_sum(net, orig & !cur, base, fl, j)
        == feats_sum(net, before, j, before.len() as int) - bits_sum(net, orig & !prev, base, fl, j) by {
        lemma_feats_sum_push(net, before, x, j);
        let g1 = |sq: int| bit_w(net, orig & !prev, base, fl, j, sq);
        let g2 = |sq: int| bit_w(net, orig & !cur, base, fl, j, sq);
        assert forall|i: int| 0 <= i < 64 && i != t implies #[trigger] g1(i) == g2(i) by {
            assert(on(orig & !prev, i) == (on(orig, i) && !on(prev, i)));
            assert(on(orig & !cur, i) == (on(orig, i) && !on(cur, i)));
        }
        assert(on(orig & !cur, t) == (on(orig, t) && !on(cur, t)));
        assert(on(orig & !prev, t) == (on(orig, t) && !on(prev, t)));
        lemma_sum_point(g1, g2, t, 64);
    }
}

/// Once every square of `orig`, the squares of kind index `k` on `a` and not on `b`, has
/// been pushed, the pushed features weigh one more kind index.
proof fn lemma_kinds_step(
    net: &Network,
    a: [u64; 8],
    b: [u64; 8],
    persp: int,
    ksq: int,
    k: int,
    before: Seq<u16>,
    after: Seq<u16>,
    orig: u64,
    cur: u64,
    base: int,
    fl: int,
)
    requires
        0 <= k,
        cur == 0,
        orig == kind_bits(a, k) & !kind_bits(b, k),
        base == feature_base(persp, k / 6, k % 6 + 2, ksq),
        fl == flip(persp, ksq),
        forall|j: int| 0 <= j < 1024 ==> #[trigger] feats_sum(net, before, j, before.len() as int) == kinds_upto(net, a, b, persp, ksq, j, k),
        forall|j: int| 0 <= j < 1024 ==> #[trigger] feats_sum(net, after, j, after.len() as int)
            == feats_sum(net, before, j, before.len() as int) + bits_sum(net, orig & !cur, base, fl, j),
    ensures
        forall|j: int| 0 <= j < 1024 ==> #[trigger] feats_sum(net, after, j, after.len() as int) == kinds_upto(net, a, b, persp, ksq, j, k + 1),
{
    assert forall|j: int| 0 <= j < 1024 implies #[trigger] feats_sum(net, after, j, after.len() as int) == kinds_upto(net, a, b, persp, ksq, j, k + 1) by {
        assert(feats_sum(net, before, j, before.len() as int) == kinds_upto(net, a, b, persp, ksq, j, k));
        lemma_sum_ext(|sq: int| bit_w(net, orig & !cur, base, fl, j, sq), |sq: int| bit_w(net, orig, base, fl, j, sq), 64);
        assert(kinds_upto(net, a, b, persp, ksq, j, k + 1) == kinds_upto(net, a, b, persp, ksq, j, k) + kind_diff(net, a, b, persp, ksq, j, k));
    }
}

impl Position {
    /// Square of the king of `side`.
    fn ksq(&self, side: usize) -> (r: usize)
        requires
            side < 2,
            self.bb[7] & self.bb[side as int] != 0,
        ensures
            r == king_sq(self.bb, side as int),
            r < 64,
    {
        let kbb = self.bb[Piece::KING] & self.bb[side];
        proof {
            vstd::std_specs::bits::axiom_u64_trailing_zeros(kbb);
        }
        kbb.trailing_zeros() as usize
    }

    /// Scales an evaluation by the material on the board.
    fn scale(&self, eval: i32) -> (r: i32)
        requires
            board_ok(self.bb),
            -0x2000_0000 <= eval <= 0x2000_0000,
        ensures
            r == scaled(self.bb, eval as int),
            -0x6400_0000 <= r <= 0x6400_0000,
    {
        let n = count_squares(self.bb[Piece::KNIGHT]) as i64;
        let b = count_squares(self.bb[Piece::BISHOP]) as i64;
        let r = count_squares(self.bb[Piece::ROOK]) as i64;
        let q = count_squares(self.bb[Piece::QUEEN]) as i64;
        let mat = 700 + (n * 450 + b * 450 + r * 650 + q * 1250) / 32;
        proof {
            lemma_popcount4(self.bb, 64);
            assert(700 <= mat <= 3200);
            assert(-0x2000_0000 * 3200 <= (eval as int) * mat <= 0x2000_0000 * 3200) by (nonlinear_arith)
                requires
                    -0x2000_0000 <= eval <= 0x2000_0000,
                    700 <= mat <= 3200;
            crate::network::lemma_tdiv_bound((eval as int) * mat, 0x2000_0000 * 3200int, 1024);
        }
        let v = (eval as i64) * mat / 1024;
        v as i32
    }

    /// Evaluation of the position for the side to move from the accumulators of both
    /// perspectives.
    fn eval_from_accs(&self, net: &Network, white: &Accumulator, black: &Accumulator) -> (r: i32)
        requires
            board_ok(self.bb),
        ensures
            r == eval_of(*self, net, *white, *black),
            -0x6400_0000 <= r <= 0x6400_0000,
    {
        let raw = if self.c {
            net.out(black, white)
        } else {
            net.out(white, black)
        };
        proof {
            crate::network::lemma_out_bound(net, *white, *black);
            crate::network::lemma_out_bound(net, *black, *white);
        }
        self.scale(raw)
    }

    /// The accumulator of `persp` computed from scratch.
    fn refresh(&self, net: &Network, persp: usize, ksq: usize) -> (r: Accumulator)
        requires
            net.wf(),
            board_ok(self.bb),
            persp < 2,
            ksq < 64,
        ensures
            forall|j: int| 0 <= j < 1024 ==> #[trigger] r.vals[j] == scratch_lane(net, self.bb, persp as int, ksq as int, j, 64),
    {
        let mut acc = net.feature_bias;
        let mut q: usize = 0;
        while q < 64
            invariant
                q <= 64,
                net.wf(),
                board_ok(self.bb),
                persp < 2,
                ksq < 64,
                forall|j: int| 0 <= j < 1024 ==> #[trigger] acc.vals[j] == scratch_lane(net, self.bb, persp as int, ksq as int, j, q as int),
            decreases 64 - q,
        {
            let bit = 1u64 << q as u64;
            proof {
                crate::bits::lemma_and_sq_bb(self.bb[0], q as int);
                crate::bits::lemma_and_sq_bb(self.bb[1], q as int);
                crate::position::lemma_get_pc_sq(self.bb, q as int);
            }
            let side: usize = if self.bb[Side::WHITE] & bit != 0 {
                0
            } else if self.bb[Side::BLACK] & bit != 0 {
                1
            } else {
                2
            };
            if side < 2 {
                let pc = self.get_pc(bit);
                let ghost c = cell(self.bb, q as int);
                assert(c == 8 * side + pc);
                assert(2 <= pc < 8);
                let base = if persp == 0 {
                    Network::get_base_index::<0>(side, pc - 2, ksq)
                } else {
                    Network::get_base_index::<1>(side, pc - 2, ksq)
                };
                let fl: usize = (if ksq % 8 > 3 { 7 } else { 0 }) + (if persp == 1 { 56 } else { 0 });
                proof {
                    lemma_feature_range(persp as int, side as int, pc as int, q as int, ksq as int);
                    assert(c / 8 == side && c % 8 == pc);
                    let qq = q as u64;
                    let ff = fl as u64;
                    assert(qq < 64 && ff < 64 ==> (qq ^ ff) < 64) by (bit_vector);
                }
                let feat = base + ((q as u64) ^ (fl as u64)) as usize;
                assert(feat == feature(persp as int, side as int, pc as int, q as int, ksq as int));
                acc.add_feature(net, feat);
            }
            q += 1;
        }
        acc
    }

    /// Evaluation of the position for the side to move, computing both accumulators from
    /// scratch.
    pub fn eval_from_scratch(&self, net: &Network) -> (r: i32)
        requires
            net.wf(),
            board_ok(self.bb),
            self.has_kings(),
        ensures
            exists|w: Accumulator, b: Accumulator| {
                &&& lanes_hold(net, w, self.bb, 0, king_sq(self.bb, 0))
                &&& lanes_hold(net, b, self.bb, 1, king_sq(self.bb, 1))
                &&& r == eval_of(*self, net, w, b)
            },
            r == nnue_eval(*self, net),
            -0x6400_0000 <= r <= 0x6400_0000,
    {
        let wksq = self.ksq(Side::WHITE);
        let bksq = self.ksq(Side::BLACK);
        let white = self.refresh(net, 0, wksq);
        let black = self.refresh(net, 1, bksq);
        proof {
            assert forall|j: int| 0 <= j < 1024 implies #[trigger] white.vals[j] as int
                == wrap16(net.feature_bias.vals[j] + board_sum(net, self.bb, 0, wksq as int, j)) by {
                lemma_scratch(net, self.bb, 0, wksq as int, j);
            }
            assert forall|j: int| 0 <= j < 1024 implies #[trigger] black.vals[j] as int
                == wrap16(net.feature_bias.vals[j] + board_sum(net, self.bb, 1, bksq as int, j)) by {
                lemma_scratch(net, self.bb, 1, bksq as int, j);
            }
            lemma_nnue_eval(*self, net, white, black);
        }
        self.eval_from_accs(net, &white, &black)
    }

    /// Features that enter (`adds`) and leave (`subs`) the board between the cached
    /// bitboards `bbs` and the position, for white's and black's perspectives.
    fn fill_diff(&self, bbs: &[u64; 8], wksq: usize, bksq: usize, Ghost(net): Ghost<&Network>) -> (r: (Vec<u16>, Vec<u16>, Vec<u16>, Vec<u16>))
        requires
            wksq < 64,
            bksq < 64,
        ensures
            feats_ok(r.0@),
            feats_ok(r.1@),
            feats_ok(r.2@),
            feats_ok(r.3@),
            forall|j: int| 0 <= j < 1024 ==> #[trigger] feats_sum(net, r.0@, j, r.0@.len() as int) == diff_sum(net, self.bb, *bbs, 0, wksq as int, j),
            forall|j: int| 0 <= j < 1024 ==> #[trigger] feats_sum(net, r.1@, j, r.1@.len() as int) == diff_sum(net, *bbs, self.bb, 0, wksq as int, j),
            forall|j: int| 0 <= j < 1024 ==> #[trigger] feats_sum(net, r.2@, j, r.2@.len() as int) == diff_sum(net, self.bb, *bbs, 1, bksq as int, j),
            forall|j: int| 0 <= j < 1024 ==> #[trigger] feats_sum(net, r.3@, j, r.3@.len() as int) == diff_sum(net, *bbs, self.bb, 1, bksq as int, j),
    {
        let mut wadds: Vec<u16> = Vec::new();
        let mut badds: Vec<u16> = Vec::new();
        let mut wsubs: Vec<u16> = Vec::new();
        let mut bsubs: Vec<u16> = Vec::new();
        let wflip: u16 = if wksq % 8 > 3 { 7 } else { 0 };
        let bflip: u16 = (if bksq % 8 > 3 { 7 } else { 0 }) + 56;
        let ghost nb = self.bb;
        let ghost ob = *bbs;
        let ghost wk = wksq as int;
        let ghost bk = bksq as int;
        let mut side: usize = 0;
        while side < 2
            invariant
                side <= 2,
                wksq < 64,
                bksq < 64,
                nb == self.bb,
                ob == *bbs,
                wk == wksq,
                bk == bksq,
                wflip == flip(0, wk),
                bflip == flip(1, bk),
                feats_ok(wadds@),
                feats_ok(badds@),
                feats_ok(wsubs@),
                feats_ok(bsubs@),
                forall|j: int| 0 <= j < 1024 ==> #[trigger] feats_sum(net, wadds@, j, wadds@.len() as int) == kinds_upto(net, nb, ob, 0, wk, j, 6 * side),
                forall|j: int| 0 <= j < 1024 ==> #[trigger] feats_sum(net, wsubs@, j, wsubs@.len() as int) == kinds_upto(net, ob, nb, 0, wk, j, 6 * side),
                forall|j: int| 0 <= j < 1024 ==> #[trigger] feats_sum(net, badds@, j, badds@.len() as int) == kinds_upto(net, nb, ob, 1, bk, j, 6 * side),
                forall|j: int| 0 <= j < 1024 ==> #[trigger] feats_sum(net, bsubs@, j, bsubs@.len() as int) == kinds_upto(net, ob, nb, 1, bk, j, 6 * side),
            decreases 2 - side,
        {
            let old_boys = bbs[side];
            let new_boys = self.bb[side];
            let mut piece: usize = 0;
            while piece < 6
                invariant
                    side < 2,
                    piece <= 6,
                    wksq < 64,
                    bksq < 64,
                    nb == self.bb,
                    ob == *bbs,
                    wk == wksq,
                    bk == bksq,
                    old_boys == ob[side as int],
                    new_boys == nb[side as int],
                    wflip == flip(0, wk),
                    bflip == flip(1, bk),
                    feats_ok(wadds@),
                    feats_ok(badds@),
                    feats_ok(wsubs@),
                    feats_ok(bsubs@),
                    forall|j: int| 0 <= j < 1024 ==> #[trigger] feats_sum(net, wadds@, j, wadds@.len() as int) == kinds_upto(net, nb, ob, 0, wk, j, 6 * side + piece),
                    forall|j: int| 0 <= j < 1024 ==> #[trigger] feats_sum(net, wsubs@, j, wsubs@.len() as int) == kinds_upto(net, ob, nb, 0, wk, j, 6 * side + piece),
                    forall|j: int| 0 <= j < 1024 ==> #[trigger] feats_sum(net, badds@, j, badds@.len() as int) == kinds_upto(net, nb, ob, 1, bk, j, 6 * side + piece),
                    forall|j: int| 0 <= j < 1024 ==> #[trigger] feats_sum(net, bsubs@, j, bsubs@.len() as int) == kinds_upto(net, ob, nb, 1, bk, j, 6 * side + piece),
                decreases 6 - piece,
            {
                let ghost kk = 6 * side + piece;
                assert(kk / 6 == side && kk % 6 == piece);
                let old_bb = bbs[piece + 2] & old_boys;
                let new_bb = self.bb[piece + 2] & new_boys;
                let wbase = Network::get_base_index::<0>(side, piece, wksq) as u16;
                let bbase = Network::get_base_index::<1>(side, piece, bksq) as u16;
                assert(wbase == feature_base(0, kk / 6, kk % 6 + 2, wk));
                assert(bbase == feature_base(1, kk / 6, kk % 6 + 2, bk));
                let mut add_diff = new_bb & !old_bb;
                let ghost orig = add_diff;
                let ghost w0 = wadds@;
                let ghost b0 = badds@;
                assert forall|j: int| 0 <= j < 1024 implies bits_sum(net, orig & !add_diff, wbase as int, wflip as int, j) == 0
                    && bits_sum(net, orig & !add_diff, bbase as int, bflip as int, j) == 0 by {
                    lemma_sum_zero(|sq: int| bit_w(net, orig & !add_diff, wbase as int, wflip as int, j, sq), 64);
                    lemma_sum_zero(|sq: int| bit_w(net, orig & !add_diff, bbase as int, bflip as int, j, sq), 64);
                }
                while add_diff != 0
                    invariant
                        wbase + 64 <= INPUTS,
                        bbase + 64 <= INPUTS,
                        wflip < 8,
                        56 <= bflip < 64,
                        feats_ok(wadds@),
                        feats_ok(badds@),
                        forall|s: int| #[trigger] on(add_diff, s) ==> on(orig, s),
                        forall|j: int| 0 <= j < 1024 ==> #[trigger] feats_sum(net, wadds@, j, wadds@.len() as int)
                            == feats_sum(net, w0, j, w0.len() as int) + bits_sum(net, orig & !add_diff, wbase as int, wflip as int, j),
                        forall|j: int| 0 <= j < 1024 ==> #[trigger] feats_sum(net, badds@, j, badds@.len() as int)
                            == feats_sum(net, b0, j, b0.len() as int) + bits_sum(net, orig & !add_diff, bbase as int, bflip as int, j),
                    decreases add_diff,
                {
                    proof {
                        lemma_pop_lsb(add_diff);
                    }
                    let ghost pd = add_diff;
                    let ghost pw = wadds@;
                    let ghost pb = badds@;
                    let sq = add_diff.trailing_zeros() as u16;
                    add_diff = add_diff & (add_diff - 1);
                    proof {
                        assert(sq < 64 && wflip < 64 && bflip < 64 ==> (sq ^ wflip) < 64 && (sq ^ bflip) < 64) by (bit_vector);
                    }
                    let fw: u16 = wbase + (sq ^ wflip);
                    wadds.push(fw);
                    let fb: u16 = bbase + (sq ^ bflip);
                    badds.push(fb);
                    proof {
                        lemma_push_step(net, orig, pd, add_diff, sq as int, wbase as int, wflip as int, pw, wadds@, fw);
                        lemma_push_step(net, orig, pd, add_diff, sq as int, bbase as int, bflip as int, pb, badds@, fb);
                        assert forall|j: int| 0 <= j < 1024 implies #[trigger] feats_sum(net, wadds@, j, wadds@.len() as int)
                            == feats_sum(net, w0, j, w0.len() as int) + bits_sum(net, orig & !add_diff, wbase as int, wflip as int, j) by {
                            assert(feats_sum(net, pw, j, pw.len() as int) == feats_sum(net, w0, j, w0.len() as int) + bits_sum(net, orig & !pd, wbase as int, wflip as int, j));
                        }
                        assert forall|j: int| 0 <= j < 1024 implies #[trigger] feats_sum(net, badds@, j, badds@.len() as int)
                            == feats_sum(net, b0, j, b0.len() as int) + bits_sum(net, orig & !add_diff, bbase as int, bflip as int, j) by {
                            assert(feats_sum(net, pb, j, pb.len() as int) == feats_sum(net, b0, j, b0.len() as int) + bits_sum(net, orig & !pd, bbase as int, bflip as int, j));
                        }
                    }
                }
                proof {
                    assert(orig == kind_bits(nb, kk) & !kind_bits(ob, kk));
                    lemma_kinds_step(net, nb, ob, 0, wk, kk, w0, wadds@, orig, add_diff, wbase as int, wflip as int);
                    lemma_kinds_step(net, nb, ob, 1, bk, kk, b0, badds@, orig, add_diff, bbase as int, bflip as int);
                }
                let mut sub_diff = old_bb & !new_bb;
                let ghost origs = sub_diff;
                let ghost ws0 = wsubs@;
                let ghost bs0 = bsubs@;
                assert forall|j: int| 0 <= j < 1024 implies bits_sum(net, origs & !sub_diff, wbase as int, wflip as int, j) == 0
                    && bits_sum(net, origs & !sub_diff, bbase as int, bflip as int, j) == 0 by {
                    lemma_sum_zero(|sq: int| bit_w(net, origs & !sub_diff, wbase as int, wflip as int, j, sq), 64);
                    lemma_sum_zero(|sq: int| bit_w(net, origs & !sub_diff, bbase as int, bflip as int, j, sq), 64);
                }
                while sub_diff != 0
                    invariant
                        wbase + 64 <= INPUTS,
                        bbase + 64 <= INPUTS,
                        wflip < 8,
                        56 <= bflip < 64,
                        feats_ok(wsubs@),
                        feats_ok(bsubs@),
                        forall|s: int| #[trigger] on(sub_diff, s) ==> on(origs, s),
                        forall|j: int| 0 <= j < 1024 ==> #[trigger] feats_sum(net, wsubs@, j, wsubs@.len() as int)
                            == feats_sum(net, ws0, j, ws0.len() as int) + bits_sum(net, origs & !sub_diff, wbase as int, wflip as int, j),
                        forall|j: int| 0 <= j < 1024 ==> #[trigger] feats_sum(net, bsubs@, j, bsubs@.len() as int)
                            == feats_sum(net, bs0, j, bs0.len() as int) + bits_sum(net, origs & !sub_diff, bbase as int, bflip as int, j),
                    decreases sub_diff,
                {
                    proof {
                        lemma_pop_lsb(sub_diff);
                    }
                    let ghost pd = sub_diff;
                    let ghost pw = wsubs@;
                    let ghost pb = bsubs@;
                    let sq = sub_diff.trailing_zeros() as u16;
                    sub_diff = sub_diff & (sub_diff - 1);
                    proof {
                        assert(sq < 64 && wflip < 64 && bflip < 64 ==> (sq ^ wflip) < 64 && (sq ^ bflip) < 64) by (bit_vector);
                    }
                    let fw: u16 = wbase + (sq ^ wflip);
                    wsubs.push(fw);
                    let fb: u16 = bbase + (sq ^ bflip);
                    bsubs.push(fb);
                    proof {
                        lemma_push_step(net, origs, pd, sub_diff, sq as int, wbase as int, wflip as int, pw, wsubs@, fw);
                        lemma_push_step(net, origs, pd, sub_diff, sq as int, bbase as int, bflip as int, pb, bsubs@, fb);
                        assert forall|j: int| 0 <= j < 1024 implies #[trigger] feats_sum(net, wsubs@, j, wsubs@.len() as int)
                            == feats_sum(net, ws0, j, ws0.len() as int) + bits_sum(net, origs & !sub_diff, wbase as int, wflip as int, j) by {
                            assert(feats_sum(net, pw, j, pw.len() as int) == feats_sum(net, ws0, j, ws0.len() as int) + bits_sum(net, origs & !pd, wbase as int, wflip as int, j));
                        }
                        assert forall|j: int| 0 <= j < 1024 implies #[trigger] feats_sum(net, bsubs@, j, bsubs@.len() as int)
                            == feats_sum(net, bs0, j, bs0.len() as int) + bits_sum(net, origs & !sub_diff, bbase as int, bflip as int, j) by {
                            assert(feats_sum(net, pb, j, pb.len() as int) == feats_sum(net, bs0, j, bs0.len() as int) + bits_sum(net, origs & !pd, bbase as int, bflip as int, j));
                        }
                    }
                }
                proof {
                    assert(origs == kind_bits(ob, kk) & !kind_bits(nb, kk));
                    lemma_kinds_step(net, ob, nb, 0, wk, kk, ws0, wsubs@, origs, sub_diff, wbase as int, wflip as int);
                    lemma_kinds_step(net, ob, nb, 1, bk, kk, bs0, bsubs@, origs, sub_diff, bbase as int, bflip as int);
                }
                piece += 1;
            }
            side += 1;
        }
        (wadds, wsubs, badds, bsubs)
    }

    /// Evaluation of the position for the side to move, bringing the cached accumulators of
    /// its pair of king buckets up to date with the board first.
    pub fn eval(&self, net: &Network, cache: &mut EvalTable) -> (r: i32)
        requires
            net.wf(),
            board_ok(self.bb),
            self.has_kings(),
            cache_ok(net, *old(cache)),
        ensures
            cache_ok(net, *final(cache)),
            exists|w: Accumulator, b: Accumulator| {
                &&& lanes_hold(net, w, self.bb, 0, king_sq(self.bb, 0))
                &&& lanes_hold(net, b, self.bb, 1, king_sq(self.bb, 1))
                &&& r == eval_of(*self, net, w, b)
            },
            r == nnue_eval(*self, net),
            -0x6400_0000 <= r <= 0x6400_0000,
    {
        let wksq = self.ksq(Side::WHITE);
        let bksq = self.ksq(Side::BLACK);
        let wbucket = Network::get_bucket::<0>(wksq);
        let bbucket = Network::get_bucket::<1>(bksq);
        let i = 8 * wbucket + bbucket;
        let ghost wk = wksq as int;
        let ghost bk = bksq as int;
        assert(kbucket(0, wk) == i / 8 && kbucket(1, bk) == i % 8);
        let mut entry = cache.table[i];
        let ghost old_entry = entry;
        assert(lanes_hold(net, cache.table@[i as int].white, cache.table@[i as int].bbs, 0, wk));
        assert(lanes_hold(net, cache.table@[i as int].black, cache.table@[i as int].bbs, 1, bk));
        let (wadds, wsubs, badds, bsubs) = self.fill_diff(&entry.bbs, wksq, bksq, Ghost(net));
        entry.white.update_multi(net, wadds.as_slice(), wsubs.as_slice());
        entry.black.update_multi(net, badds.as_slice(), bsubs.as_slice());
        entry.bbs = self.bb;
        proof {
            lemma_entry_update(net, old_entry.white, entry.white, old_entry.bbs, self.bb, 0, wk, wadds@, wsubs@);
            lemma_entry_update(net, old_entry.black, entry.black, old_entry.bbs, self.bb, 1, bk, badds@, bsubs@);
        }
        let ghost before = cache.table@;
        cache.table.set(i, entry);
        proof {
            assert forall|i2: int, k: int| 0 <= i2 < 64 && 0 <= k < 64 && kbucket(0, k) == i2 / 8
                implies #[trigger] lanes_hold(net, cache.table@[i2].white, cache.table@[i2].bbs, 0, k) by {
                if i2 != i {
                    assert(lanes_hold(net, before[i2].white, before[i2].bbs, 0, k));
                } else {
                    lemma_board_bucket(net, self.bb, 0, wk, k);
                }
            }
            assert forall|i2: int, k: int| 0 <= i2 < 64 && 0 <= k < 64 && kbucket(1, k) == i2 % 8
                implies #[trigger] lanes_hold(net, cache.table@[i2].black, cache.table@[i2].bbs, 1, k) by {
                if i2 != i {
                    assert(lanes_hold(net, before[i2].black, before[i2].bbs, 1, k));
                } else {
                    lemma_board_bucket(net, self.bb, 1, bk, k);
                }
            }
            lemma_nnue_eval(*self, net, entry.white, entry.black);
        }
        self.eval_from_accs(net, &entry.white, &entry.black)
    }
}

/// Bringing an accumulator that holds the board `o` up to date with the features that enter
/// and leave between `o` and `n` leaves it holding the board `n`.
proof fn lemma_entry_update(
    net: &Network,
    before: Accumulator,
    after: Accumulator,
    o: [u64; 8],
    n: [u64; 8],
    persp: int,
    ksq: int,
    adds: Seq<u16>,
    subs: Seq<u16>,
)
    requires
        lanes_hold(net, before, o, persp, ksq),
        forall|j: int| 0 <= j < 1024 ==> #[trigger] feats_sum(net, adds, j, adds.len() as int) == diff_sum(net, n, o, persp, ksq, j),
        forall|j: int| 0 <= j < 1024 ==> #[trigger] feats_sum(net, subs, j, subs.len() as int) == diff_sum(net, o, n, persp, ksq, j),
        forall|j: int| 0 <= j < 1024 ==> #[trigger] after.vals[j] == sub_feats(
            net,
            add_feats(net, before.vals[j], adds, j, adds.len() as int),
            subs,
            j,
            subs.len() as int,
        ),
    ensures
        lanes_hold(net, after, n, persp, ksq),
{
    assert forall|j: int| 0 <= j < 1024 implies #[trigger] after.vals[j] as int
        == wrap16(net.feature_bias.vals[j] + board_sum(net, n, persp, ksq, j)) by {
        let v = before.vals[j];
        let a = feats_sum(net, adds, j, adds.len() as int);
        let d = feats_sum(net, subs, j, subs.len() as int);
        lemma_add_feats(net, v, adds, j, adds.len() as int);
        let mid = add_feats(net, v, adds, j, adds.len() as int);
        lemma_sub_feats(net, mid, subs, j, subs.len() as int);
        lemma_wrap16_inner(v + a, -d);
        lemma_diff_board(net, n, o, persp, ksq, j);
        let bias = net.feature_bias.vals[j] as int;
        assert(v as int == wrap16(bias + board_sum(net, o, persp, ksq, j)));
        lemma_wrap16_inner(bias + board_sum(net, o, persp, ksq, j), a - d);
    }
}

/// An empty board weighs nothing.
proof fn lemma_zero_board(net: &Network, bb: [u64; 8], persp: int, ksq: int, j: int)
    requires
        forall|k: int| 0 <= k < 8 ==> bb[k] == 0,
    ensures
        board_sum(net, bb, persp, ksq, j) == 0,
{
    assert forall|k: int| 0 <= k < 12 implies #[trigger] kind_total(net, bb, persp, ksq, j, k) == 0 by {
        assert(bb[k % 6 + 2] == 0);
        lemma_sum_zero(|sq: int| bit_w(net, kind_bits(bb, k), feature_base(persp, k / 6, k % 6 + 2, ksq), flip(persp, ksq), j, sq), 64);
    }
    lemma_sum_zero(|k: int| kind_total(net, bb, persp, ksq, j, k), 12);
}

/// A fresh cache, whose entries hold the hidden biases for an empty board, keeps its invariant.
pub proof fn lemma_fresh_cache(net: &Network, cache: EvalTable)
    requires
        cache.table@.len() == 64,
        forall|i: int| 0 <= i < 64 ==> #[trigger] cache.table@[i].white == net.feature_bias && cache.table@[i].black == net.feature_bias
            && forall|k: int| 0 <= k < 8 ==> cache.table@[i].bbs[k] == 0,
    ensures
        cache_ok(net, cache),
{
    assert forall|i: int, persp: int, k: int| 0 <= i < 64
        implies #[trigger] lanes_hold(net, net.feature_bias, cache.table@[i].bbs, persp, k) by {
        assert(cache.table@[i].white == net.feature_bias);
        let bb = cache.table@[i].bbs;
        assert forall|j: int| 0 <= j < 1024 implies #[trigger] net.feature_bias.vals[j] as int
            == wrap16(net.feature_bias.vals[j] + board_sum(net, bb, persp, k, j)) by {
            lemma_zero_board(net, bb, persp, k, j);
            lemma_wrap16_small(net.feature_bias.vals[j] as int);
        }
    }
    assert forall|i: int, k: int| 0 <= i < 64 && 0 <= k < 64 && kbucket(0, k) == i / 8
        implies #[trigger] lanes_hold(net, cache.table@[i].white, cache.table@[i].bbs, 0, k) by {
        assert(cache.table@[i].white == net.feature_bias);
        assert(lanes_hold(net, net.feature_bias, cache.table@[i].bbs, 0, k));
    }
    assert forall|i: int, k: int| 0 <= i < 64 && 0 <= k < 64 && kbucket(1, k) == i % 8
        implies #[trigger] lanes_hold(net, cache.table@[i].black, cache.table@[i].bbs, 1, k) by {
        assert(cache.table@[i].white == net.feature_bias);
        assert(cache.table@[i].black == net.feature_bias);
        assert(lanes_hold(net, net.feature_bias, cache.table@[i].bbs, 1, k));
    }
}

/// The evaluation of `pos` by `net`: that of accumulators holding its board for both
/// perspectives.
pub open spec fn nnue_eval(pos: Position, net: &Network) -> int {
    let wb = choose|wb: (Accumulator, Accumulator)| lanes_hold(net, wb.0, pos.bb, 0, king_sq(pos.bb, 0))
        && lanes_hold(net, wb.1, pos.bb, 1, king_sq(pos.bb, 1));
    eval_of(pos, net, wb.0, wb.1)
}

/// The evaluation is the network's score for the side to move: the accumulator that sees the
/// board from the side to move is the network's first input and the opponent's the second,
/// and the result is scaled by the material on the board.
pub proof fn lemma_eval_side_to_move(pos: Position, net: &Network, w: Accumulator, b: Accumulator)
    requires
        lanes_hold(net, w, pos.bb, 0, king_sq(pos.bb, 0)),
        lanes_hold(net, b, pos.bb, 1, king_sq(pos.bb, 1)),
    ensures
        nnue_eval(pos, net) == scaled(pos.bb, if stm_of(pos) == 0 { net_out(net, w, b) } else { net_out(net, b, w) }),
{
    lemma_nnue_eval(pos, net, w, b);
}

/// Scaling by material keeps the sign of an evaluation and never shrinks it below the
/// scaling of a board with kings and pawns only: the weight is at least 700/1024, and a board
/// without knights, bishops, rooks or queens weighs exactly that.
pub proof fn lemma_scaled_sign(bb: [u64; 8], e: int)
    requires
        board_ok(bb),
    ensures
        material_scale(bb) >= 700,
        e > 0 ==> scaled(bb, e) >= tdiv(e * 700, 1024),
        e < 0 ==> scaled(bb, e) <= -tdiv(-e * 700, 1024),
        bb[3] == 0 && bb[4] == 0 && bb[5] == 0 && bb[6] == 0 ==> scaled(bb, e) == tdiv(e * 700, 1024),
{
    lemma_popcount4(bb, 64);
    let m = material_scale(bb);
    assert(m >= 700);
    if e > 0 {
        assert(e * m >= e * 700) by (nonlinear_arith)
            requires
                e > 0,
                m >= 700,
        ;
        assert((e * m) / 1024 >= (e * 700) / 1024) by (nonlinear_arith)
            requires
                e * m >= e * 700,
                e * 700 >= 0,
        ;
    }
    if e < 0 {
        assert(-e * m >= -e * 700) by (nonlinear_arith)
            requires
                e < 0,
                m >= 700,
        ;
        assert((-e * m) / 1024 >= (-e * 700) / 1024) by (nonlinear_arith)
            requires
                -e * m >= -e * 700,
                -e * 700 >= 0,
        ;
        assert(e * m == -(-e * m)) by (nonlinear_arith);
        assert(e * 700 == -(-e * 700)) by (nonlinear_arith);
    }
    if bb[3] == 0 && bb[4] == 0 && bb[5] == 0 && bb[6] == 0 {
        lemma_popcount_zero(64);
        assert(m == 700);
    }
}

/// An empty bitboard has no squares below any bound.
proof fn lemma_popcount_zero(n: int)
    ensures
        popcount_below(0u64, n) == 0,
    decreases n,
{
    if n > 0 {
        lemma_popcount_zero(n - 1);
    }
}

/// Any accumulators holding the board give the evaluation `nnue_eval`.
proof fn lemma_nnue_eval(pos: Position, net: &Network, w: Accumulator, b: Accumulator)
    requires
        lanes_hold(net, w, pos.bb, 0, king_sq(pos.bb, 0)),
        lanes_hold(net, b, pos.bb, 1, king_sq(pos.bb, 1)),
    ensures
        eval_of(pos, net, w, b) == nnue_eval(pos, net),
{
    let wb = choose|wb: (Accumulator, Accumulator)| lanes_hold(net, wb.0, pos.bb, 0, king_sq(pos.bb, 0))
        && lanes_hold(net, wb.1, pos.bb, 1, king_sq(pos.bb, 1));
    assert(lanes_hold(net, (w, b).0, pos.bb, 0, king_sq(pos.bb, 0)) && lanes_hold(net, (w, b).1, pos.bb, 1, king_sq(pos.bb, 1)));
    lemma_eval_agrees(pos, net, w, b, wb.0, wb.1);
}

/// Accumulators that hold the same board give the same evaluation: the one kept up to date in
/// the cache and the one computed from scratch agree.
pub proof fn lemma_eval_agrees(pos: Position, net: &Network, w1: Accumulator, b1: Accumulator, w2: Accumulator, b2: Accumulator)
    requires
        lanes_hold(net, w1, pos.bb, 0, king_sq(pos.bb, 0)),
        lanes_hold(net, b1, pos.bb, 1, king_sq(pos.bb, 1)),
        lanes_hold(net, w2, pos.bb, 0, king_sq(pos.bb, 0)),
        lanes_hold(net, b2, pos.bb, 1, king_sq(pos.bb, 1)),
    ensures
        eval_of(pos, net, w1, b1) == eval_of(pos, net, w2, b2),
{
    lemma_dot_lanes(w1, w2, net.output_weights[0], 1024);
    lemma_dot_lanes(w1, w2, net.output_weights[1], 1024);
    lemma_dot_lanes(b1, b2, net.output_weights[0], 1024);
    lemma_dot_lanes(b1, b2, net.output_weights[1], 1024);
}

/// The clipped products of accumulators with equal lanes are equal.
proof fn lemma_dot_lanes(a: Accumulator, b: Accumulator, w: Accumulator, n: int)
    requires
        n <= 1024,
        forall|j: int| 0 <= j < 1024 ==> #[trigger] a.vals[j] == b.vals[j],
    ensures
        dot(a, w, n) == dot(b, w, n),
    decreases n,
{
    if n > 0 {
        lemma_dot_lanes(a, b, w, n - 1);
        assert(a.vals[n - 1] == b.vals[n - 1]);
    }
}

} // verus!
