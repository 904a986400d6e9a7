use vstd::prelude::*;
use crate::bits::{bit, group_bits, lemma_on_or, lemma_on_sq_bb, on};
use crate::consts::File;

verus! {

broadcast use group_bits;

/// File (column) of a square, 0 for the a-file.
pub open spec fn file_of(sq: int) -> int {
    sq % 8
}

/// Rank (row) of a square, 0 for the first rank.
pub open spec fn rank_of(sq: int) -> int {
    sq / 8
}

/// A pawn of `side` standing on `from` attacks `to`.
pub open spec fn pawn_att(side: int, from: int, to: int) -> bool {
    &&& 0 <= from < 64
    &&& 0 <= to < 64
    &&& (file_of(to) == file_of(from) + 1 || file_of(to) + 1 == file_of(from))
    &&& if side == 0 {
        rank_of(to) == rank_of(from) + 1
    } else {
        rank_of(to) + 1 == rank_of(from)
    }
}

/// Absolute difference of two integers.
pub open spec fn dist(a: int, b: int) -> int {
    if a >= b {
        a - b
    } else {
        b - a
    }
}

/// A knight standing on `from` attacks `to`.
pub open spec fn knight_att(from: int, to: int) -> bool {
    &&& 0 <= from < 64
    &&& 0 <= to < 64
    &&& ((dist(file_of(from), file_of(to)) == 1 && dist(rank_of(from), rank_of(to)) == 2)
        || (dist(file_of(from), file_of(to)) == 2 && dist(rank_of(from), rank_of(to)) == 1))
}

/// A king standing on `from` attacks `to`.
pub open spec fn king_att(from: int, to: int) -> bool {
    &&& 0 <= from < 64
    &&& 0 <= to < 64
    &&& from != to
    &&& dist(file_of(from), file_of(to)) <= 1
    &&& dist(rank_of(from), rank_of(to)) <= 1
}

/// `k` times the sign of `d`, for a direction component `d`.
pub open spec fn mulsign(k: int, d: int) -> int {
    if d > 0 {
        k
    } else if d < 0 {
        -k
    } else {
        0
    }
}

/// The square reached after `k` steps from file `f`, rank `r` in direction (`df`, `dr`).
pub open spec fn ray_sq(f: int, r: int, df: int, dr: int, k: int) -> int {
    (f + mulsign(k, df)) + 8 * (r + mulsign(k, dr))
}

/// No square strictly before the `k`-th step is occupied.
pub open spec fn ray_clear(f: int, r: int, df: int, dr: int, occ: u64, k: int) -> bool {
    forall|j: int| 1 <= j < k ==> !on(occ, #[trigger] ray_sq(f, r, df, dr, j))
}

/// Number of steps from file `f`, rank `r` in direction (`df`, `dr`) that would reach file
/// `tf`, rank `tr`, if that square lies on the ray at all.
pub open spec fn ray_steps(f: int, r: int, df: int, dr: int, tf: int, tr: int) -> int {
    if df != 0 {
        mulsign(tf - f, df)
    } else {
        mulsign(tr - r, dr)
    }
}

/// A slider on file `f`, rank `r` moving in direction (`df`, `dr`) reaches file `tf`, rank `tr`
/// with occupancy `occ`: that square lies on the ray and every square before it is empty.
pub open spec fn ray_att(f: int, r: int, df: int, dr: int, occ: u64, tf: int, tr: int) -> bool {
    let k = ray_steps(f, r, df, dr, tf, tr);
    &&& 0 <= tf < 8
    &&& 0 <= tr < 8
    &&& 1 <= k
    &&& tf == f + mulsign(k, df)
    &&& tr == r + mulsign(k, dr)
    &&& ray_clear(f, r, df, dr, occ, k)
}

/// A slider on `sq` moving in direction (`df`, `dr`) reaches `t`.
pub open spec fn slide_att(sq: int, df: int, dr: int, occ: u64, t: int) -> bool {
    0 <= t < 64 && ray_att(file_of(sq), rank_of(sq), df, dr, occ, file_of(t), rank_of(t))
}

/// A piece of kind `pc` (knight to king) on `sq` attacks `t` given the occupancy `occ`.
pub open spec fn piece_att(pc: int, sq: int, occ: u64, t: int) -> bool {
    if pc == 3 {
        knight_att(sq, t)
    } else if pc == 4 {
        bishop_att(sq, occ, t)
    } else if pc == 5 {
        rook_att(sq, occ, t)
    } else if pc == 6 {
        bishop_att(sq, occ, t) || rook_att(sq, occ, t)
    } else {
        king_att(sq, t)
    }
}

/// A rook on `sq` attacks `t` given the occupancy `occ`.
pub open spec fn rook_att(sq: int, occ: u64, t: int) -> bool {
    ||| slide_att(sq, 1, 0, occ, t)
    ||| slide_att(sq, -1, 0, occ, t)
    ||| slide_att(sq, 0, 1, occ, t)
    ||| slide_att(sq, 0, -1, occ, t)
}

/// A bishop on `sq` attacks `t` given the occupancy `occ`.
pub open spec fn bishop_att(sq: int, occ: u64, t: int) -> bool {
    ||| slide_att(sq, 1, 1, occ, t)
    ||| slide_att(sq, 1, -1, occ, t)
    ||| slide_att(sq, -1, 1, occ, t)
    ||| slide_att(sq, -1, -1, occ, t)
}

proof fn lemma_leapers(sq: u64, t: u64)
    by (bit_vector)
    requires
        sq < 64,
        t < 64,
    ensures
        bit((((1u64 << sq) & !0x101010101010101u64) << 7u64) | (((1u64 << sq) & !0x8080808080808080u64) << 9u64), t)
            == ((t % 8 == sq % 8 + 1 || t % 8 + 1 == sq % 8) && t / 8 == sq / 8 + 1),
        bit((((1u64 << sq) & !0x101010101010101u64) >> 9u64) | (((1u64 << sq) & !0x8080808080808080u64) >> 7u64), t)
            == ((t % 8 == sq % 8 + 1 || t % 8 + 1 == sq % 8) && t / 8 + 1 == sq / 8),
{
}

proof fn lemma_knight_bits(sq: u64, t: u64)
    by (bit_vector)
    requires
        sq < 64,
        t < 64,
    ensures
        ({
            let n = 1u64 << sq;
            let h1 = ((n >> 1u64) & 0x7f7f7f7f7f7f7f7fu64) | ((n << 1u64) & 0xfefefefefefefefeu64);
            let h2 = ((n >> 2u64) & 0x3f3f3f3f3f3f3f3fu64) | ((n << 2u64) & 0xfcfcfcfcfcfcfcfcu64);
            bit((h1 << 16u64) | (h1 >> 16u64) | (h2 << 8u64) | (h2 >> 8u64), t)
        }) == (
            ((t % 8 == sq % 8 + 1 || t % 8 + 1 == sq % 8) && (t / 8 == sq / 8 + 2 || t / 8 + 2 == sq / 8))
            || ((t % 8 == sq % 8 + 2 || t % 8 + 2 == sq % 8) && (t / 8 == sq / 8 + 1 || t / 8 + 1 == sq / 8))
        ),
{
}

proof fn lemma_king_bits(sq: u64, t: u64)
    by (bit_vector)
    requires
        sq < 64,
        t < 64,
    ensures
        ({
            let k0 = 1u64 << sq;
            let k1 = k0 | (k0 << 8u64) | (k0 >> 8u64);
            let k2 = k1 | ((k1 & !0x101010101010101u64) >> 1u64) | ((k1 & !0x8080808080808080u64) << 1u64);
            bit(k2 ^ k0, t)
        }) == (
            t != sq
            && (t % 8 == sq % 8 || t % 8 == sq % 8 + 1 || t % 8 + 1 == sq % 8)
            && (t / 8 == sq / 8 || t / 8 == sq / 8 + 1 || t / 8 + 1 == sq / 8)
        ),
{
}

pub(crate) proof fn lemma_pawn_setwise_bits(bb: u64, t: u64)
    by (bit_vector)
    requires
        t < 64,
    ensures
        bit(((bb & !0x101010101010101u64) << 7u64) | ((bb & !0x8080808080808080u64) << 9u64), t)
            == ((t % 8 < 7 && t >= 7 && bit(bb, (t - 7) as u64)) || (t % 8 > 0 && t >= 9 && bit(bb, (t - 9) as u64))),
        bit(((bb & !0x101010101010101u64) >> 9u64) | ((bb & !0x8080808080808080u64) >> 7u64), t)
            == ((t % 8 < 7 && t + 9 < 64 && bit(bb, (t + 9) as u64)) || (t % 8 > 0 && t + 7 < 64 && bit(bb, (t + 7) as u64))),
{
}

/// Squares a slider on `sq` reaches in direction (`df`, `dr`): it walks until it leaves the
/// board or stops on the first occupied square.
fn ray(sq: usize, df: i32, dr: i32, occ: u64) -> (res: u64)
    requires
        sq < 64,
        -1 <= df <= 1,
        -1 <= dr <= 1,
        df != 0 || dr != 0,
    ensures
        forall|t: int| #[trigger] on(res, t) == slide_att(sq as int, df as int, dr as int, occ, t),
{
    let f0: i32 = (sq % 8) as i32;
    let r0: i32 = (sq / 8) as i32;
    let res = walk(f0, r0, df, dr, occ);
    proof {
        assert forall|t: int| #[trigger] on(res, t) == slide_att(sq as int, df as int, dr as int, occ, t) by {
            if 0 <= t < 64 {
                assert(t == file_of(t) + 8 * rank_of(t));
                assert(on(res, file_of(t) + 8 * rank_of(t)) == ray_att(f0 as int, r0 as int, df as int, dr as int, occ, file_of(t), rank_of(t)));
            }
        }
    }
    res
}

fn walk(f0: i32, r0: i32, df: i32, dr: i32, occ: u64) -> (res: u64)
    requires
        0 <= f0 < 8,
        0 <= r0 < 8,
        -1 <= df <= 1,
        -1 <= dr <= 1,
        df != 0 || dr != 0,
    ensures
        forall|tf: int, tr: int| 0 <= tf < 8 && 0 <= tr < 8 ==>
            #[trigger] on(res, tf + 8 * tr) == ray_att(f0 as int, r0 as int, df as int, dr as int, occ, tf, tr),
{
    let ghost (f, r, gdf, gdr) = (f0 as int, r0 as int, df as int, dr as int);
    let mut cf: i32 = f0 + df;
    let mut cr: i32 = r0 + dr;
    let mut k: i32 = 1;
    let mut acc: u64 = 0;
    while 0 <= cf && cf < 8 && 0 <= cr && cr < 8
        invariant
            0 <= f0 < 8,
            0 <= r0 < 8,
            -1 <= df <= 1,
            -1 <= dr <= 1,
            df != 0 || dr != 0,
            f == f0,
            r == r0,
            gdf == df,
            gdr == dr,
            1 <= k <= 8,
            cf == f + mulsign(k as int, gdf),
            cr == r + mulsign(k as int, gdr),
            ray_clear(f, r, gdf, gdr, occ, k as int),
            forall|tf: int, tr: int| 0 <= tf < 8 && 0 <= tr < 8 ==>
                #[trigger] on(acc, tf + 8 * tr) == (ray_att(f, r, gdf, gdr, occ, tf, tr) && ray_steps(f, r, gdf, gdr, tf, tr) < k),
        decreases 8 - k,
    {
        let t: u64 = (cf + 8 * cr) as u64;
        let ghost old_acc = acc;
        assert(ray_steps(f, r, gdf, gdr, cf as int, cr as int) == k);
        acc = acc | (1u64 << t);
        assert forall|tf: int, tr: int| 0 <= tf < 8 && 0 <= tr < 8 implies
            #[trigger] on(acc, tf + 8 * tr) == (on(old_acc, tf + 8 * tr) || (tf == cf && tr == cr)) by {
            lemma_on_or(old_acc, 1u64 << t, tf + 8 * tr);
            lemma_on_sq_bb(t as int, tf + 8 * tr);
        }
        if (occ >> t) & 1 == 1 {
            proof {
                assert(on(occ, ray_sq(f, r, gdf, gdr, k as int)));
                assert forall|tf: int, tr: int| 0 <= tf < 8 && 0 <= tr < 8 implies
                    #[trigger] on(acc, tf + 8 * tr) == ray_att(f, r, gdf, gdr, occ, tf, tr) by {
                    let kt = ray_steps(f, r, gdf, gdr, tf, tr);
                    if ray_att(f, r, gdf, gdr, occ, tf, tr) && kt > k {
                        assert(!on(occ, ray_sq(f, r, gdf, gdr, k as int)));
                    }
                }
            }
            return acc;
        }
        cf = cf + df;
        cr = cr + dr;
        k = k + 1;
    }
    proof {
        assert forall|tf: int, tr: int| 0 <= tf < 8 && 0 <= tr < 8 implies
            #[trigger] on(acc, tf + 8 * tr) == ray_att(f, r, gdf, gdr, occ, tf, tr) by {
            let kt = ray_steps(f, r, gdf, gdr, tf, tr);
            if ray_att(f, r, gdf, gdr, occ, tf, tr) && kt >= k {
                assert(false);
            }
        }
    }
    acc
}

/// Attack sets of every piece kind, as bitboards.
pub struct Attacks;

impl Attacks {
    /// Squares attacked by a pawn of `side` on `sq`.
    pub fn pawn(side: usize, sq: usize) -> (r: u64)
        requires
            side < 2,
            sq < 64,
        ensures
            forall|t: int| #[trigger] on(r, t) == pawn_att(side as int, sq as int, t),
    {
        let bit: u64 = 1u64 << sq;
        let r = if side == 0 {
            ((bit & !File::A) << 7u64) | ((bit & !File::H) << 9u64)
        } else {
            ((bit & !File::A) >> 9u64) | ((bit & !File::H) >> 7u64)
        };
        proof {
            assert forall|t: int| #[trigger] on(r, t) == pawn_att(side as int, sq as int, t) by {
                if 0 <= t < 64 {
                    lemma_leapers(sq as u64, t as u64);
                }
            }
        }
        r
    }

    /// Squares attacked by a knight on `sq`.
    pub fn knight(sq: usize) -> (r: u64)
        requires
            sq < 64,
        ensures
            forall|t: int| #[trigger] on(r, t) == knight_att(sq as int, t),
    {
        let n: u64 = 1u64 << sq;
        let h1: u64 = ((n >> 1u64) & 0x7f7f7f7f7f7f7f7fu64) | ((n << 1u64) & 0xfefefefefefefefeu64);
        let h2: u64 = ((n >> 2u64) & 0x3f3f3f3f3f3f3f3fu64) | ((n << 2u64) & 0xfcfcfcfcfcfcfcfcu64);
        let r = (h1 << 16u64) | (h1 >> 16u64) | (h2 << 8u64) | (h2 >> 8u64);
        proof {
            assert forall|t: int| #[trigger] on(r, t) == knight_att(sq as int, t) by {
                if 0 <= t < 64 {
                    lemma_knight_bits(sq as u64, t as u64);
                }
            }
        }
        r
    }

    /// Squares attacked by a king on `sq`.
    pub fn king(sq: usize) -> (r: u64)
        requires
            sq < 64,
        ensures
            forall|t: int| #[trigger] on(r, t) == king_att(sq as int, t),
    {
        let k0: u64 = 1u64 << sq;
        let k1: u64 = k0 | (k0 << 8u64) | (k0 >> 8u64);
        let k2: u64 = k1 | ((k1 & !File::A) >> 1u64) | ((k1 & !File::H) << 1u64);
        let r = k2 ^ k0;
        proof {
            assert forall|t: int| #[trigger] on(r, t) == king_att(sq as int, t) by {
                if 0 <= t < 64 {
                    lemma_king_bits(sq as u64, t as u64);
                }
            }
        }
        r
    }

    /// Squares attacked by a bishop on `sq` when the occupied squares are `occ`.
    pub fn bishop(sq: usize, occ: u64) -> (r: u64)
        requires
            sq < 64,
        ensures
            forall|t: int| #[trigger] on(r, t) == bishop_att(sq as int, occ, t),
    {
        ray(sq, 1, 1, occ) | ray(sq, 1, -1, occ) | ray(sq, -1, 1, occ) | ray(sq, -1, -1, occ)
    }

    /// Squares attacked by a rook on `sq` when the occupied squares are `occ`.
    pub fn rook(sq: usize, occ: u64) -> (r: u64)
        requires
            sq < 64,
        ensures
            forall|t: int| #[trigger] on(r, t) == rook_att(sq as int, occ, t),
    {
        ray(sq, 1, 0, occ) | ray(sq, -1, 0, occ) | ray(sq, 0, 1, occ) | ray(sq, 0, -1, occ)
    }

    /// Squares attacked by a piece of kind `pc` (knight to king) on `sq`.
    pub fn for_piece(pc: usize, sq: usize, occ: u64) -> (r: u64)
        requires
            3 <= pc <= 7,
            sq < 64,
        ensures
            forall|t: int| #[trigger] on(r, t) == piece_att(pc as int, sq as int, occ, t),
    {
        if pc == 3 {
            Self::knight(sq)
        } else if pc == 4 {
            Self::bishop(sq, occ)
        } else if pc == 5 {
            Self::rook(sq, occ)
        } else if pc == 6 {
            Self::queen(sq, occ)
        } else {
            Self::king(sq)
        }
    }

    /// Squares attacked by a queen on `sq` when the occupied squares are `occ`.
    pub fn queen(sq: usize, occ: u64) -> (r: u64)
        requires
            sq < 64,
        ensures
            forall|t: int| #[trigger] on(r, t) == (bishop_att(sq as int, occ, t) || rook_att(sq as int, occ, t)),
    {
        Self::bishop(sq, occ) | Self::rook(sq, occ)
    }
}

} // verus!
