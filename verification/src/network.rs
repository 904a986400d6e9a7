use vstd::prelude::*;
use vstd::wrapping::i16_specs::{wrapping_add, wrapping_sub};
use crate::bits::tdiv;
use crate::evaluate::{cache_ok, lemma_fresh_cache};

verus! {

/// Width of the hidden layer.
pub const HIDDEN: usize = 1024;
/// Evaluation scale of the output.
pub const SCALE: i32 = 400;
/// Quantisation of the hidden layer.
pub const QA: i32 = 255;
/// Quantisation of the output layer.
pub const QB: i32 = 64;
/// Product of both quantisations.
pub const QAB: i32 = 16320;
/// Number of king buckets per side.
pub const NUM_BUCKETS: usize = 4;
/// Number of input features: twelve piece kinds on 64 squares, per king bucket.
pub const INPUTS: usize = 3072;

/// King bucket of each square (seen from white, king on the queen side half).
pub const BUCKETS: [usize; 64] = [
    0, 0, 1, 1, 5, 5, 4, 4,
    2, 2, 2, 2, 6, 6, 6, 6,
    3, 3, 3, 3, 7, 7, 7, 7,
    3, 3, 3, 3, 7, 7, 7, 7,
    3, 3, 3, 3, 7, 7, 7, 7,
    3, 3, 3, 3, 7, 7, 7, 7,
    3, 3, 3, 3, 7, 7, 7, 7,
    3, 3, 3, 3, 7, 7, 7, 7,
];

/// Hidden layer values of one perspective.
#[derive(Clone, Copy)]
pub struct Accumulator {
    pub vals: [i16; 1024],
}

/// Network parameters: one row of hidden weights per input feature, the hidden biases, the
/// output weights for the side to move and its opponent, and the output bias.
pub struct Network {
    pub feature_weights: Vec<Accumulator>,
    pub feature_bias: Accumulator,
    pub output_weights: [Accumulator; 2],
    pub output_bias: i16,
}

impl Network {
    /// The network has a row of weights for every input feature.
    pub open spec fn wf(&self) -> bool {
        self.feature_weights@.len() == INPUTS
    }
}

/// Value of lane `j` after adding the weights of the first `n` features of `feats`.
pub open spec fn add_feats(net: &Network, v: i16, feats: Seq<u16>, j: int, n: int) -> i16
    decreases n,
{
    if n <= 0 {
        v
    } else {
        wrapping_add(add_feats(net, v, feats, j, n - 1), net.feature_weights@[feats[n - 1] as int].vals[j])
    }
}

/// Value of lane `j` after subtracting the weights of the first `n` features of `feats`.
pub open spec fn sub_feats(net: &Network, v: i16, feats: Seq<u16>, j: int, n: int) -> i16
    decreases n,
{
    if n <= 0 {
        v
    } else {
        wrapping_sub(sub_feats(net, v, feats, j, n - 1), net.feature_weights@[feats[n - 1] as int].vals[j])
    }
}

/// Sum of lane `j` of the weights of the first `n` features of `feats`.
pub open spec fn feat_sum(net: &Network, feats: Seq<u16>, j: int, n: int) -> int
    decreases n,
{
    if n <= 0 {
        0
    } else {
        feat_sum(net, feats, j, n - 1) + net.feature_weights@[feats[n - 1] as int].vals[j]
    }
}

/// Adding feature weights in sixteen-bit wrapping arithmetic adds their sum up to a multiple
/// of 65536; the result is that multiple.
proof fn lemma_add_feats_wraps(net: &Network, v: i16, feats: Seq<u16>, j: int, n: int) -> (k: int)
    ensures
        add_feats(net, v, feats, j, n) == v + feat_sum(net, feats, j, n) + 65536 * k,
    decreases n,
{
    if n <= 0 {
        0
    } else {
        let k0 = lemma_add_feats_wraps(net, v, feats, j, n - 1);
        let a = add_feats(net, v, feats, j, n - 1);
        let w = net.feature_weights@[feats[n - 1] as int].vals[j];
        if a + w > i16::MAX {
            k0 - 1
        } else if a + w < i16::MIN {
            k0 + 1
        } else {
            k0
        }
    }
}

/// Subtracting feature weights in sixteen-bit wrapping arithmetic subtracts their sum up to a
/// multiple of 65536; the result is that multiple.
proof fn lemma_sub_feats_wraps(net: &Network, v: i16, feats: Seq<u16>, j: int, n: int) -> (k: int)
    ensures
        sub_feats(net, v, feats, j, n) == v - feat_sum(net, feats, j, n) + 65536 * k,
    decreases n,
{
    if n <= 0 {
        0
    } else {
        let k0 = lemma_sub_feats_wraps(net, v, feats, j, n - 1);
        let a = sub_feats(net, v, feats, j, n - 1);
        let w = net.feature_weights@[feats[n - 1] as int].vals[j];
        if a - w > i16::MAX {
            k0 - 1
        } else if a - w < i16::MIN {
            k0 + 1
        } else {
            k0
        }
    }
}

/// A lane updated by adding `adds` and subtracting `subs`, then by adding `subs` and
/// subtracting `adds`, is back where it started.
pub proof fn lemma_update_lane_undone(net: &Network, v: i16, adds: Seq<u16>, subs: Seq<u16>, j: int)
    ensures
        sub_feats(
            net,
            add_feats(net, sub_feats(net, add_feats(net, v, adds, j, adds.len() as int), subs, j, subs.len() as int), subs, j, subs.len() as int),
            adds,
            j,
            adds.len() as int,
        ) == v,
{
    let na = adds.len() as int;
    let ns = subs.len() as int;
    let v1 = add_feats(net, v, adds, j, na);
    let k1 = lemma_add_feats_wraps(net, v, adds, j, na);
    let v2 = sub_feats(net, v1, subs, j, ns);
    let k2 = lemma_sub_feats_wraps(net, v1, subs, j, ns);
    let v3 = add_feats(net, v2, subs, j, ns);
    let k3 = lemma_add_feats_wraps(net, v2, subs, j, ns);
    let v4 = sub_feats(net, v3, adds, j, na);
    let k4 = lemma_sub_feats_wraps(net, v3, adds, j, na);
    assert(v4 == v + 65536 * (k1 + k2 + k3 + k4));
}

/// Updating an accumulator with `adds` and `subs` and then with the two swapped gives back the
/// accumulator it started from.
pub proof fn lemma_update_multi_undone(net: &Network, a0: Accumulator, a1: Accumulator, a2: Accumulator, adds: Seq<u16>, subs: Seq<u16>)
    requires
        forall|j: int| 0 <= j < 1024 ==> #[trigger] a1.vals[j] == sub_feats(
            net,
            add_feats(net, a0.vals[j], adds, j, adds.len() as int),
            subs,
            j,
            subs.len() as int,
        ),
        forall|j: int| 0 <= j < 1024 ==> #[trigger] a2.vals[j] == sub_feats(
            net,
            add_feats(net, a1.vals[j], subs, j, subs.len() as int),
            adds,
            j,
            adds.len() as int,
        ),
    ensures
        forall|j: int| 0 <= j < 1024 ==> #[trigger] a2.vals[j] == a0.vals[j],
{
    assert forall|j: int| 0 <= j < 1024 implies #[trigger] a2.vals[j] == a0.vals[j] by {
        assert(a1.vals[j] == sub_feats(net, add_feats(net, a0.vals[j], adds, j, adds.len() as int), subs, j, subs.len() as int));
        lemma_update_lane_undone(net, a0.vals[j], adds, subs, j);
    }
}

/// Every feature names a row of the network.
pub open spec fn feats_ok(feats: Seq<u16>) -> bool {
    forall|i: int| 0 <= i < feats.len() ==> #[trigger] feats[i] < INPUTS
}

/// The activation of a hidden value: clamped to `0..=QA`.
pub open spec fn activ(x: int) -> int {
    if x < 0 {
        0
    } else if x > 255 {
        255
    } else {
        x
    }
}

/// The first `n` lanes of the squared clipped activations weighted by `w`, summed.
pub open spec fn dot(acc: Accumulator, w: Accumulator, n: int) -> int
    decreases n,
{
    if n <= 0 {
        0
    } else {
        dot(acc, w, n - 1) + activ(acc.vals[n - 1] as int) * activ(acc.vals[n - 1] as int) * w.vals[n - 1]
    }
}

/// The evaluation the network gives for the accumulators of the side to move and of its
/// opponent.
pub open spec fn net_out(net: &Network, boys: Accumulator, opps: Accumulator) -> int {
    let sum = dot(boys, net.output_weights[0], 1024) + dot(opps, net.output_weights[1], 1024);
    tdiv((tdiv(sum, 255) + net.output_bias) * 400, 16320)
}

/// Against zero weights every accumulator scores zero.
proof fn lemma_dot_zero(acc: Accumulator, w: Accumulator, n: int)
    requires
        forall|j: int| 0 <= j < n ==> #[trigger] w.vals[j] == 0,
    ensures
        dot(acc, w, n) == 0,
    decreases n,
{
    if n > 0 {
        lemma_dot_zero(acc, w, n - 1);
        let a = activ(acc.vals[n - 1] as int);
        assert(a * a * w.vals[n - 1] == 0) by (nonlinear_arith)
            requires
                w.vals[n - 1] == 0,
        ;
    }
}

/// The first output row weighs the side to move's accumulator and the second its opponent's:
/// with the second row zero the output does not depend on the opponent's accumulator, and
/// with the first row zero it does not depend on the side to move's.
pub proof fn lemma_net_out_rows(net: &Network, boys: Accumulator, opps: Accumulator, other: Accumulator)
    ensures
        (forall|j: int| 0 <= j < 1024 ==> #[trigger] net.output_weights[1].vals[j] == 0) ==> net_out(net, boys, opps) == net_out(
            net,
            boys,
            other,
        ),
        (forall|j: int| 0 <= j < 1024 ==> #[trigger] net.output_weights[0].vals[j] == 0) ==> net_out(net, boys, opps) == net_out(
            net,
            other,
            opps,
        ),
{
    if forall|j: int| 0 <= j < 1024 ==> #[trigger] net.output_weights[1].vals[j] == 0 {
        lemma_dot_zero(opps, net.output_weights[1], 1024);
        lemma_dot_zero(other, net.output_weights[1], 1024);
    }
    if forall|j: int| 0 <= j < 1024 ==> #[trigger] net.output_weights[0].vals[j] == 0 {
        lemma_dot_zero(boys, net.output_weights[0], 1024);
        lemma_dot_zero(other, net.output_weights[0], 1024);
    }
}

proof fn lemma_dot_bound(acc: Accumulator, w: Accumulator, n: int)
    requires
        0 <= n <= 1024,
    ensures
        -n * 255 * 255 * 32768 <= dot(acc, w, n) <= n * 255 * 255 * 32768,
    decreases n,
{
    if n > 0 {
        lemma_dot_bound(acc, w, n - 1);
        let a = activ(acc.vals[n - 1] as int);
        let x = w.vals[n - 1] as int;
        assert(-255 * 255 * 32768 <= a * a * x <= 255 * 255 * 32768) by (nonlinear_arith)
            requires
                0 <= a <= 255,
                -32768 <= x <= 32767;
    }
}

/// Division rounding towards zero keeps a value within the bound divided.
pub proof fn lemma_tdiv_bound(x: int, m: int, d: int)
    requires
        -m <= x <= m,
        d > 0,
    ensures
        -(m / d) <= tdiv(x, d) <= m / d,
{
    if x >= 0 {
        vstd::arithmetic::div_mod::lemma_div_is_ordered(x, m, d);
        vstd::arithmetic::div_mod::lemma_div_pos_is_pos(x, d);
    } else {
        vstd::arithmetic::div_mod::lemma_div_is_ordered(-x, m, d);
        vstd::arithmetic::div_mod::lemma_div_pos_is_pos(-x, d);
    }
}

/// The network's output stays within plus or minus 2^29.
pub proof fn lemma_out_bound(net: &Network, boys: Accumulator, opps: Accumulator)
    ensures
        -0x2000_0000 <= net_out(net, boys, opps) <= 0x2000_0000,
{
    lemma_dot_bound(boys, net.output_weights[0], 1024);
    lemma_dot_bound(opps, net.output_weights[1], 1024);
    let m: int = 2 * 1024 * 255 * 255 * 32768int;
    let sum = dot(boys, net.output_weights[0], 1024) + dot(opps, net.output_weights[1], 1024);
    lemma_tdiv_bound(sum, m, 255);
    let a = (tdiv(sum, 255) + net.output_bias) * 400;
    let m2 = (m / 255 + 32768) * 400;
    assert(-m2 <= a <= m2);
    lemma_tdiv_bound(a, m2, 16320);
}

/// Squared clipped activations of `acc` weighted by `weights`, summed.
pub fn activ_dot_prod(acc: &Accumulator, weights: &Accumulator) -> (r: i64)
    ensures
        r == dot(*acc, *weights, 1024),
{
    let mut sum: i64 = 0;
    let mut i: usize = 0;
    while i < HIDDEN
        invariant
            i <= 1024,
            sum == dot(*acc, *weights, i as int),
        decreases 1024 - i,
    {
        proof {
            lemma_dot_bound(*acc, *weights, i as int);
            lemma_dot_bound(*acc, *weights, i + 1);
        }
        let x = acc.vals[i];
        let v: i64 = if x < 0 {
            0
        } else if x > 255 {
            255
        } else {
            x as i64
        };
        let w = weights.vals[i] as i64;
        proof {
            assert(-255 * 255 * 32768 <= v * (v * w) <= 255 * 255 * 32768 && -255 * 32768 <= v * w <= 255 * 32768) by (nonlinear_arith)
                requires
                    0 <= v <= 255,
                    -32768 <= w <= 32767;
        }
        sum = sum + v * (v * w);
        proof {
            assert(v * (v * w) == v * v * w) by (nonlinear_arith);
        }
        i += 1;
    }
    sum
}

impl Network {
    /// The evaluation, from the side to move's point of view, of its accumulator `boys` and
    /// its opponent's `opps`.
    pub fn out(&self, boys: &Accumulator, opps: &Accumulator) -> (r: i32)
        ensures
            r == net_out(self, *boys, *opps),
    {
        proof {
            lemma_dot_bound(*boys, self.output_weights[0], 1024);
            lemma_dot_bound(*opps, self.output_weights[1], 1024);
        }
        let sum = activ_dot_prod(boys, &self.output_weights[0]) + activ_dot_prod(opps, &self.output_weights[1]);
        proof {
            lemma_out_bound(self, *boys, *opps);
            lemma_tdiv_bound(sum as int, 2 * 1024 * 255 * 255 * 32768int, 255);
        }
        let v = (sum / 255 + self.output_bias as i64) * 400 / 16320;
        v as i32
    }

    /// King bucket of a king on `ksq`, seen from `SIDE`.
    pub fn get_bucket<const SIDE: usize>(ksq: usize) -> (r: usize)
        requires
            ksq < 64,
        ensures
            r == BUCKETS[if SIDE == 1 { (ksq ^ 56) as int } else { ksq as int }],
            r < 8,
            ksq % 8 <= 3 ==> r <= 3,
    {
        proof {
            assert(ksq < 64 ==> ksq ^ 56 < 64 && (ksq ^ 56) % 8 == ksq % 8) by (bit_vector);
            assert(forall|i: int| 0 <= i < 64 ==> #[trigger] BUCKETS[i] < 8 && (i % 8 <= 3 ==> BUCKETS[i] <= 3)) by {
                assert(BUCKETS@ =~= seq![
                    0usize, 0, 1, 1, 5, 5, 4, 4, 2, 2, 2, 2, 6, 6, 6, 6, 3, 3, 3, 3, 7, 7, 7, 7, 3, 3, 3, 3, 7, 7, 7, 7,
                    3, 3, 3, 3, 7, 7, 7, 7, 3, 3, 3, 3, 7, 7, 7, 7, 3, 3, 3, 3, 7, 7, 7, 7, 3, 3, 3, 3, 7, 7, 7, 7,
                ]);
            }
        }
        let k = if SIDE == 1 {
            ksq ^ 56
        } else {
            ksq
        };
        BUCKETS[k]
    }

    /// First input feature of the pieces of `side` and kind index `pc` (pawn 0 to king 5),
    /// seen from `SIDE` with its king on `ksq` (mirrored to the queen side half).
    pub fn get_base_index<const SIDE: usize>(side: usize, pc: usize, ksq: usize) -> (r: usize)
        requires
            side < 2,
            pc < 6,
            ksq < 64,
        ensures
            r == 768 * BUCKETS[(if SIDE == 0 { mirror(ksq) as int } else { (mirror(ksq) ^ 56) as int })]
                + (if (SIDE == 0) == (side == 0) { 0int } else { 384int }) + 64 * pc,
            r + 64 <= INPUTS,
    {
        proof {
            assert(ksq < 64 && ksq % 8 > 3 ==> ksq ^ 7 < 64 && (ksq ^ 7) % 8 <= 3) by (bit_vector);
        }
        let k = if ksq % 8 > 3 {
            ksq ^ 7
        } else {
            ksq
        };
        assert(k == mirror(ksq));
        if SIDE == 0 {
            let b = Self::get_bucket::<0>(k);
            768 * b + (if side == 0 { 0 } else { 384 }) + 64 * pc
        } else {
            let b = Self::get_bucket::<1>(k);
            768 * b + (if side == 0 { 384 } else { 0 }) + 64 * pc
        }
    }
}

/// A king square mirrored onto the queen side half of the board.
pub open spec fn mirror(ksq: usize) -> usize {
    if ksq % 8 > 3 {
        ksq ^ 7
    } else {
        ksq
    }
}

impl Accumulator {
    /// Adds the weights of the features `adds` and subtracts those of `subs`, lane by lane,
    /// with sixteen-bit wrapping arithmetic.
    pub fn update_multi(&mut self, net: &Network, adds: &[u16], subs: &[u16])
        requires
            net.wf(),
            feats_ok(adds@),
            feats_ok(subs@),
        ensures
            forall|j: int| 0 <= j < 1024 ==> #[trigger] final(self).vals[j] == sub_feats(
                net,
                add_feats(net, old(self).vals[j], adds@, j, adds@.len() as int),
                subs@,
                j,
                subs@.len() as int,
            ),
    {
        let mut j: usize = 0;
        while j < HIDDEN
            invariant
                j <= 1024,
                net.wf(),
                feats_ok(adds@),
                feats_ok(subs@),
                forall|l: int| 0 <= l < j ==> #[trigger] self.vals[l] == sub_feats(
                    net,
                    add_feats(net, old(self).vals[l], adds@, l, adds@.len() as int),
                    subs@,
                    l,
                    subs@.len() as int,
                ),
                forall|l: int| j <= l < 1024 ==> #[trigger] self.vals[l] == old(self).vals[l],
            decreases 1024 - j,
        {
            let mut v = self.vals[j];
            let mut k: usize = 0;
            while k < adds.len()
                invariant
                    j < 1024,
                    k <= adds@.len(),
                    net.wf(),
                    feats_ok(adds@),
                    v == add_feats(net, old(self).vals[j as int], adds@, j as int, k as int),
                decreases adds@.len() - k,
            {
                let f = adds[k] as usize;
                v = v.wrapping_add(net.feature_weights[f].vals[j]);
                k += 1;
            }
            let ghost added = v;
            let mut k: usize = 0;
            while k < subs.len()
                invariant
                    j < 1024,
                    k <= subs@.len(),
                    net.wf(),
                    feats_ok(subs@),
                    v == sub_feats(net, added, subs@, j as int, k as int),
                decreases subs@.len() - k,
            {
                let f = subs[k] as usize;
                v = v.wrapping_sub(net.feature_weights[f].vals[j]);
                k += 1;
            }
            self.vals[j] = v;
            j += 1;
        }
    }

    /// Adds the weights of one feature, lane by lane, with sixteen-bit wrapping arithmetic.
    pub fn add_feature(&mut self, net: &Network, feature_idx: usize)
        requires
            net.wf(),
            feature_idx < INPUTS,
        ensures
            forall|j: int| 0 <= j < 1024 ==> #[trigger] final(self).vals[j] == wrapping_add(
                old(self).vals[j],
                net.feature_weights@[feature_idx as int].vals[j],
            ),
    {
        let mut j: usize = 0;
        while j < HIDDEN
            invariant
                j <= 1024,
                net.wf(),
                feature_idx < INPUTS,
                forall|l: int| 0 <= l < j ==> #[trigger] self.vals[l] == wrapping_add(
                    old(self).vals[l],
                    net.feature_weights@[feature_idx as int].vals[l],
                ),
                forall|l: int| j <= l < 1024 ==> #[trigger] self.vals[l] == old(self).vals[l],
            decreases 1024 - j,
        {
            let v = self.vals[j].wrapping_add(net.feature_weights[feature_idx].vals[j]);
            self.vals[j] = v;
            j += 1;
        }
    }
}

/// Accumulators cached for one pair of king buckets, with the bitboards they were computed for.
#[derive(Clone, Copy)]
pub struct EvalEntry {
    pub bbs: [u64; 8],
    pub white: Accumulator,
    pub black: Accumulator,
}

/// Cache of accumulators for each pair of king buckets of white and black.
pub struct EvalTable {
    pub table: Vec<EvalEntry>,
}

impl EvalTable {
    /// A cache whose entries hold the hidden biases for an empty board.
    pub fn new(net: &Network) -> (r: Self)
        ensures
            cache_ok(net, r),
            r.table@.len() == 64,
            forall|i: int| 0 <= i < 64 ==> #[trigger] r.table@[i].white == net.feature_bias && r.table@[i].black == net.feature_bias
                && forall|k: int| 0 <= k < 8 ==> r.table@[i].bbs[k] == 0,
    {
        let mut table: Vec<EvalEntry> = Vec::new();
        let mut i: usize = 0;
        while i < 64
            invariant
                i <= 64,
                table@.len() == i,
                forall|l: int| 0 <= l < i ==> #[trigger] table@[l].white == net.feature_bias && table@[l].black == net.feature_bias
                    && forall|k: int| 0 <= k < 8 ==> table@[l].bbs[k] == 0,
            decreases 64 - i,
        {
            let e = EvalEntry { bbs: [0u64; 8], white: net.feature_bias, black: net.feature_bias };
            assert(forall|k: int| 0 <= k < 8 ==> e.bbs[k] == 0);
            let ghost before = table@;
            table.push(e);
            assert(forall|l: int| 0 <= l < i ==> table@[l] == before[l]);
            i += 1;
        }
        let r = EvalTable { table };
        proof {
            lemma_fresh_cache(net, r);
        }
        r
    }
}

/// Size in bytes of the stored network: 3075 rows of 1024 sixteen-bit weights and the output
/// bias, padded to a multiple of 64 bytes.
pub const NET_BYTES: usize = 6297664;

/// The little-endian sixteen-bit value stored at value index `k` of `bytes`.
pub open spec fn le_i16(bytes: Seq<u8>, k: int) -> i16 {
    ((bytes[2 * k] as u16) | ((bytes[2 * k + 1] as u16) << 8u16)) as i16
}

/// Row `row` of the stored network, as an accumulator.
pub open spec fn row_ok(bytes: Seq<u8>, row: int, acc: Accumulator) -> bool {
    forall|j: int| 0 <= j < 1024 ==> #[trigger] acc.vals[j] == le_i16(bytes, 1024 * row + j)
}

fn read_row(bytes: &[u8], row: usize) -> (r: Accumulator)
    requires
        bytes@.len() == NET_BYTES,
        row < 3075,
    ensures
        row_ok(bytes@, row as int, r),
{
    let mut acc = Accumulator { vals: [0i16; 1024] };
    let mut j: usize = 0;
    while j < 1024
        invariant
            j <= 1024,
            bytes@.len() == NET_BYTES,
            row < 3075,
            forall|l: int| 0 <= l < j ==> #[trigger] acc.vals[l] == le_i16(bytes@, 1024 * row + l),
        decreases 1024 - j,
    {
        let k = 2 * (1024 * row + j);
        let v = ((bytes[k] as u16) | ((bytes[k + 1] as u16) << 8u16)) as i16;
        acc.vals[j] = v;
        j += 1;
    }
    acc
}

impl Network {
    /// Reads a network stored as its rows of feature weights, the hidden biases, the two rows
    /// of output weights and the output bias, each value sixteen bits little-endian: `None`
    /// unless `bytes` has exactly the stored size.
    pub fn from_bytes(bytes: &[u8]) -> (r: Option<Network>)
        ensures
            (r is Some) == (bytes@.len() == NET_BYTES),
            r matches Some(net) ==> {
                &&& net.wf()
                &&& forall|f: int| 0 <= f < INPUTS ==> #[trigger] row_ok(bytes@, f, net.feature_weights@[f])
                &&& row_ok(bytes@, 3072, net.feature_bias)
                &&& row_ok(bytes@, 3073, net.output_weights[0])
                &&& row_ok(bytes@, 3074, net.output_weights[1])
                &&& net.output_bias == le_i16(bytes@, 3075 * 1024int)
            },
    {
        if bytes.len() != NET_BYTES {
            return None;
        }
        let mut rows: Vec<Accumulator> = Vec::new();
        let mut f: usize = 0;
        while f < INPUTS
            invariant
                f <= INPUTS,
                bytes@.len() == NET_BYTES,
                rows@.len() == f,
                forall|g: int| 0 <= g < f ==> #[trigger] row_ok(bytes@, g, rows@[g]),
            decreases INPUTS - f,
        {
            let row = read_row(bytes, f);
            rows.push(row);
            f += 1;
        }
        let bias = read_row(bytes, 3072);
        let w0 = read_row(bytes, 3073);
        let w1 = read_row(bytes, 3074);
        let k = 2 * 3075 * 1024;
        let out_bias = ((bytes[k] as u16) | ((bytes[k + 1] as u16) << 8u16)) as i16;
        Some(Network { feature_weights: rows, feature_bias: bias, output_weights: [w0, w1], output_bias: out_bias })
    }
}

} // verus!
