use vstd::prelude::*;
use crate::attacks::{bishop_att, king_att, knight_att, pawn_att, rook_att, Attacks};
use crate::bits::{group_bits, lemma_bb_ext, on, sq_bb};
use crate::consts::{Piece, Side, SEE_VALS};
use crate::moves::Move;
use crate::position::{enp_victim, piece_at, Position};

verus! {

broadcast use group_bits;

/// `b` holds exactly the squares that satisfy `f`.
pub open spec fn holds_exactly(b: u64, f: spec_fn(int) -> bool) -> bool {
    forall|t: int| 0 <= t < 64 ==> #[trigger] on(b, t) == f(t)
}

/// The bitboard holding exactly the squares that satisfy `f`.
pub open spec fn bb_of(f: spec_fn(int) -> bool) -> u64 {
    choose|b: u64| holds_exactly(b, f)
}

/// A bitboard that holds exactly the squares satisfying `f` is `bb_of(f)`.
pub proof fn lemma_bb_of(b: u64, f: spec_fn(int) -> bool)
    requires
        forall|t: int| 0 <= t < 64 ==> on(b, t) == f(t),
    ensures
        bb_of(f) == b,
{
    assert(holds_exactly(b, f));
    let c = bb_of(f);
    assert(holds_exactly(c, f));
    lemma_bb_ext(c, b);
}

/// Squares a rook on `sq` attacks.
pub open spec fn rook_bb(sq: int, occ: u64) -> u64 {
    bb_of(|t: int| rook_att(sq, occ, t))
}

/// Squares a bishop on `sq` attacks.
pub open spec fn bishop_bb(sq: int, occ: u64) -> u64 {
    bb_of(|t: int| bishop_att(sq, occ, t))
}

/// Exchange value of a piece kind.
pub open spec fn see_val(p: int) -> int {
    if p == 2 {
        100
    } else if p == 3 || p == 4 {
        450
    } else if p == 5 {
        650
    } else if p == 6 {
        1250
    } else {
        0
    }
}

/// Material a move wins on its own: the piece taken (a pawn for en passant) and what a
/// promotion adds.
pub open spec fn gain_of(pos: Position, m: Move) -> int {
    if m.flag == 5 {
        100
    } else {
        see_val(piece_at(pos.bb, m.to as int)) + if m.spec_is_promo() {
            see_val(m.spec_promo_pc()) - 100
        } else {
            0
        }
    }
}

/// State of the exchange on a square: occupied squares, pieces attacking it, balance for the
/// side that just captured, side to capture next, kind of the piece that stands on the square,
/// and whether the exchange is over.
#[derive(Clone, Copy)]
pub struct SeeState {
    pub occ: u64,
    pub attackers: u64,
    pub score: i32,
    pub us: usize,
    pub next: usize,
    pub done: bool,
}

/// The least valuable kind of piece in `our`, or zero when there is none.
pub open spec fn least_kind(bb: [u64; 8], our: u64) -> int {
    if our & bb[2] != 0 {
        2
    } else if our & bb[3] != 0 {
        3
    } else if our & bb[4] != 0 {
        4
    } else if our & bb[5] != 0 {
        5
    } else if our & bb[6] != 0 {
        6
    } else if our & bb[7] != 0 {
        7
    } else {
        0
    }
}

/// One capture of the exchange on `sq`: the side to capture takes with its least valuable
/// attacker, which uncovers sliders behind it; the exchange stops when that side has no
/// attacker left, or when the balance favours it, unless it captured with its king into a
/// square the other side still attacks.
pub open spec fn see_step(pos: Position, sq: int, st: SeeState) -> SeeState {
    let bb = pos.bb;
    let bishops = bb[4] | bb[6];
    let rooks = bb[5] | bb[6];
    let our = st.attackers & bb[st.us as int];
    if st.done {
        st
    } else if our == 0 {
        SeeState { done: true, ..st }
    } else {
        let pc = least_kind(bb, our);
        let board = our & bb[pc];
        let occ = if pc != 0 { st.occ ^ (board & ((!board + 1) as u64)) } else { st.occ };
        let next = if pc != 0 { pc } else { st.next as int };
        let a1 = if next == 2 || next == 4 || next == 6 { st.attackers | (bishop_bb(sq, occ) & bishops) } else { st.attackers };
        let a2 = if next == 5 || next == 6 { a1 | (rook_bb(sq, occ) & rooks) } else { a1 };
        let attackers = a2 & occ;
        let score = -st.score - 1 - see_val(next);
        let us = 1 - st.us;
        if score >= 0 {
            let us2 = if next == 7 && attackers & bb[us] != 0 { 1 - us } else { us };
            SeeState { occ, attackers, score: score as i32, us: us2 as usize, next: next as usize, done: true }
        } else {
            SeeState { occ, attackers, score: score as i32, us: us as usize, next: next as usize, done: false }
        }
    }
}

/// In a capture of the exchange on `sq`, the side to capture takes with a piece of the least
/// valuable kind among its attackers.
pub proof fn lemma_see_least_attacker(pos: Position, sq: int, st: SeeState, k0: int)
    requires
        !st.done,
        2 <= k0 < 8,
        st.attackers & pos.bb[st.us as int] & pos.bb[k0] != 0,
    ensures
        2 <= see_step(pos, sq, st).next <= k0,
        st.attackers & pos.bb[st.us as int] & pos.bb[see_step(pos, sq, st).next as int] != 0,
        forall|k: int| 2 <= k < see_step(pos, sq, st).next ==> st.attackers & pos.bb[st.us as int] & pos.bb[k] == 0,
{
    let our = st.attackers & pos.bb[st.us as int];
    assert(our & pos.bb[k0] != 0);
    if our == 0 {
        assert(our & pos.bb[k0] == 0) by {
            lemma_bb_ext(our & pos.bb[k0], 0u64);
        }
    }
}

/// A capture of the exchange, with the capturing side's attackers on the board, removes from
/// the board one piece of the capturing kind and side among the attackers, and no other; pieces off the board no longer attack; the balance for
/// the side that just captured becomes the negated previous balance, less one and less the
/// value of the capturing piece; the exchange ends when that balance is not negative.
pub proof fn lemma_see_capture(pos: Position, sq: int, st: SeeState)
    requires
        !st.done,
        st.attackers & pos.bb[st.us as int] != 0,
        least_kind(pos.bb, st.attackers & pos.bb[st.us as int]) != 0,
        -0x7FFF_F000 <= st.score <= 0x7FFF_F000,
        forall|t: int| #[trigger] on(st.attackers & pos.bb[st.us as int], t) ==> on(st.occ, t),
    ensures
        ({
            let n = see_step(pos, sq, st);
            &&& exists|r: int| #![trigger on(st.attackers & pos.bb[st.us as int] & pos.bb[n.next as int], r)]
                on(st.attackers & pos.bb[st.us as int] & pos.bb[n.next as int], r)
                && forall|t: int| #[trigger] on(n.occ, t) == (on(st.occ, t) && t != r)
            &&& forall|t: int| #[trigger] on(n.attackers, t) ==> on(n.occ, t)
            &&& n.score == -st.score - 1 - see_val(n.next as int)
            &&& n.done == (-st.score - 1 - see_val(n.next as int) >= 0)
        }),
{
    let our = st.attackers & pos.bb[st.us as int];
    let pc = least_kind(pos.bb, our);
    let board = our & pos.bb[pc];
    assert(board != 0);
    crate::bits::lemma_pop_lsb(board);
    let r = board.trailing_zeros() as int;
    let n = see_step(pos, sq, st);
    assert(n.next == pc);
    assert(n.occ == st.occ ^ sq_bb(r));
    assert(on(our & pos.bb[n.next as int], r));
    assert(forall|t: int| #[trigger] on(n.occ, t) == (on(st.occ, t) && t != r));
    assert(forall|t: int| #[trigger] on(n.attackers, t) ==> on(n.occ, t));
    assert(n.score == -st.score - 1 - see_val(n.next as int));
}

/// When the side to capture takes with a rook or a queen, every rook or queen that then
/// attacks the square through the pieces left on the board, such as one standing behind the
/// capturer on the same line, takes part in the rest of the exchange.
pub proof fn lemma_see_rook_xray(pos: Position, sq: int, st: SeeState, t: int)
    requires
        !st.done,
        st.attackers & pos.bb[st.us as int] != 0,
        least_kind(pos.bb, st.attackers & pos.bb[st.us as int]) == 5 || least_kind(pos.bb, st.attackers & pos.bb[st.us as int]) == 6,
        on(rook_bb(sq, see_step(pos, sq, st).occ), t),
        on(pos.bb[5] | pos.bb[6], t),
        on(see_step(pos, sq, st).occ, t),
    ensures
        on(see_step(pos, sq, st).attackers, t),
{
}

/// When the side to capture takes with a pawn, a bishop or a queen, every bishop or queen that
/// then attacks the square along a diagonal through the pieces left on the board, such as one
/// standing behind the capturer, takes part in the rest of the exchange.
pub proof fn lemma_see_bishop_xray(pos: Position, sq: int, st: SeeState, t: int)
    requires
        !st.done,
        st.attackers & pos.bb[st.us as int] != 0,
        least_kind(pos.bb, st.attackers & pos.bb[st.us as int]) == 2 || least_kind(pos.bb, st.attackers & pos.bb[st.us as int]) == 4
            || least_kind(pos.bb, st.attackers & pos.bb[st.us as int]) == 6,
        on(bishop_bb(sq, see_step(pos, sq, st).occ), t),
        on(pos.bb[4] | pos.bb[6], t),
        on(see_step(pos, sq, st).occ, t),
    ensures
        on(see_step(pos, sq, st).attackers, t),
{
}

/// The sides alternate: after a capture that does not end the exchange the other side is to
/// capture; after one that ends it in the capturing side's favour, the other side is the one
/// that loses the exchange, unless the capture was made by a king onto a square the other side
/// still attacks, which the capturing side then loses.
pub proof fn lemma_see_turns(pos: Position, sq: int, st: SeeState)
    requires
        !st.done,
        st.us < 2,
        st.attackers & pos.bb[st.us as int] != 0,
        least_kind(pos.bb, st.attackers & pos.bb[st.us as int]) != 0,
    ensures
        ({
            let n = see_step(pos, sq, st);
            &&& !n.done ==> n.us == 1 - st.us
            &&& n.done && n.next != 7 ==> n.us == 1 - st.us
            &&& n.done && n.next == 7 ==> (n.us == st.us) == (n.attackers & pos.bb[1 - st.us] != 0)
        }),
{
}

/// Attackers of the square keep attacking after a capture as long as they stay on the board.
pub proof fn lemma_see_attackers_kept(pos: Position, sq: int, st: SeeState, t: int)
    requires
        !st.done,
        on(st.attackers, t),
        on(see_step(pos, sq, st).occ, t),
    ensures
        on(see_step(pos, sq, st).attackers, t),
{
}

/// The exchange after at most `k` captures.
pub open spec fn see_run(pos: Position, sq: int, st: SeeState, k: nat) -> SeeState
    decreases k,
{
    if k == 0 || st.done {
        st
    } else {
        see_run(pos, sq, see_step(pos, sq, st), (k - 1) as nat)
    }
}

/// Pieces of either side attacking `sq` when the occupied squares are `occ`.
pub open spec fn attackers_of(pos: Position, sq: int, occ: u64) -> u64 {
    let bb = pos.bb;
    bb_of(|s: int| {
        ||| on(bb[3], s) && knight_att(sq, s)
        ||| on(bb[7], s) && king_att(sq, s)
        ||| on(bb[2], s) && on(bb[1], s) && pawn_att(0, sq, s)
        ||| on(bb[2], s) && on(bb[0], s) && pawn_att(1, sq, s)
    }) | (rook_bb(sq, occ) & (bb[5] | bb[6])) | (bishop_bb(sq, occ) & (bb[4] | bb[6]))
}

/// The exchange started by `m` with threshold `threshold`, as it stands before the first
/// recapture.
pub open spec fn see_start(pos: Position, m: Move, threshold: int) -> SeeState {
    let sq = m.to as int;
    let next = if m.spec_is_promo() { m.spec_promo_pc() } else { m.pc as int };
    let occ0 = (pos.bb[0] | pos.bb[1]) ^ sq_bb(m.from as int) ^ sq_bb(sq);
    let occ = if m.flag == 5 { occ0 ^ sq_bb(enp_victim(m.to)) } else { occ0 };
    SeeState {
        occ,
        attackers: attackers_of(pos, sq, occ),
        score: (gain_of(pos, m) - threshold - see_val(next)) as i32,
        us: if pos.c { 0 } else { 1 },
        next: next as usize,
        done: false,
    }
}

/// Whether the move wins at least `threshold` in the exchange on its destination square:
/// at once when what it takes, less the threshold, covers the capturing piece, else when the
/// exchange ends with the opponent to move.
pub open spec fn see_spec(pos: Position, m: Move, threshold: int) -> bool {
    let st = see_start(pos, m, threshold);
    if st.score >= 0 {
        true
    } else {
        pos.c != (see_run(pos, m.to as int, st, 64).us == 1)
    }
}

/// A capture that the opponent cannot answer on its square meets any threshold.
pub proof fn lemma_see_unanswered(pos: Position, m: Move, threshold: int)
    requires
        see_start(pos, m, threshold).attackers & pos.bb[if pos.c { 0int } else { 1int }] == 0,
    ensures
        see_spec(pos, m, threshold),
{
    let st = see_start(pos, m, threshold);
    let n = see_step(pos, m.to as int, st);
    assert(n.done && n.us == st.us);
    assert(see_run(pos, m.to as int, st, 64) == see_run(pos, m.to as int, n, 63));
    assert(see_run(pos, m.to as int, n, 63) == n);
}

impl Position {
    /// Material `mov` wins on its own.
    pub fn gain(&self, mov: Move) -> (r: i32)
        requires
            mov.wf(),
        ensures
            r == gain_of(*self, mov),
    {
        proof {
            assert(forall|p: int| 0 <= p < 8 ==> #[trigger] SEE_VALS[p] == see_val(p));
        }
        if mov.is_en_passant() {
            return SEE_VALS[Piece::PAWN];
        }
        proof {
            crate::position::lemma_get_pc_sq(self.bb, mov.to as int);
        }
        let mut score = SEE_VALS[self.get_pc(1u64 << mov.to() as u64)];
        if mov.is_promo() {
            score = score + SEE_VALS[mov.promo_pc()] - SEE_VALS[Piece::PAWN];
        }
        score
    }

    fn see_next(&self, sq: usize, st: SeeState) -> (r: SeeState)
        requires
            sq < 64,
            st.us < 2,
            2 <= st.next < 8,
            -0x7FFF_F000 <= st.score <= 0x7FFF_F000,
        ensures
            r == see_step(*self, sq as int, st),
            r.us < 2,
            2 <= r.next < 8,
            r.score == st.score || r.score == -st.score - 1 - see_val(r.next as int),
    {
        proof {
            assert(forall|p: int| 0 <= p < 8 ==> #[trigger] SEE_VALS[p] == see_val(p));
        }
        if st.done {
            return st;
        }
        let our = st.attackers & self.bb[st.us];
        if our == 0 {
            return SeeState { done: true, ..st };
        }
        let mut pc: usize = Piece::PAWN;
        while pc <= Piece::KING && our & self.bb[pc] == 0
            invariant
                2 <= pc <= 8,
                forall|p: int| 2 <= p < pc ==> our & self.bb[p] == 0,
            decreases 8 - pc,
        {
            pc += 1;
        }
        assert(pc <= 7 ==> pc == least_kind(self.bb, our));
        assert(pc == 8 ==> least_kind(self.bb, our) == 0);
        let mut occ = st.occ;
        let mut next = st.next;
        if pc <= Piece::KING {
            let board = our & self.bb[pc];
            proof {
                assert(board != 0 ==> !board < 0xFFFF_FFFF_FFFF_FFFFu64) by (bit_vector);
            }
            occ = occ ^ (board & (!board + 1));
            next = pc;
        }
        let bishops = self.bb[Piece::BISHOP] | self.bb[Piece::QUEEN];
        let rooks = self.bb[Piece::ROOK] | self.bb[Piece::QUEEN];
        let mut attackers = st.attackers;
        if next == Piece::PAWN || next == Piece::BISHOP || next == Piece::QUEEN {
            let b = Attacks::bishop(sq, occ);
            proof {
                lemma_bb_of(b, |t: int| bishop_att(sq as int, occ, t));
            }
            attackers = attackers | (b & bishops);
        }
        if next == Piece::ROOK || next == Piece::QUEEN {
            let b = Attacks::rook(sq, occ);
            proof {
                lemma_bb_of(b, |t: int| rook_att(sq as int, occ, t));
            }
            attackers = attackers | (b & rooks);
        }
        attackers = attackers & occ;
        let score = -st.score - 1 - SEE_VALS[next];
        let us = 1 - st.us;
        if score >= 0 {
            let us2 = if next == Piece::KING && attackers & self.bb[us] != 0 { 1 - us } else { us };
            SeeState { occ, attackers, score, us: us2, next, done: true }
        } else {
            SeeState { occ, attackers, score, us, next, done: false }
        }
    }

    /// Static exchange evaluation: whether `mov` wins at least `threshold` once both sides
    /// have captured on its destination square with their least valuable pieces for as long
    /// as that pays.
    pub fn see(&self, mov: Move, threshold: i32) -> (r: bool)
        requires
            mov.wf(),
            2 <= mov.pc,
            -0x7FF0_0000 <= threshold <= 0x7FF0_0000,
        ensures
            r == see_spec(*self, mov, threshold as int),
    {
        proof {
            assert(forall|p: int| 0 <= p < 8 ==> #[trigger] SEE_VALS[p] == see_val(p));
        }
        let sq = mov.to();
        let next = if mov.is_promo() { mov.promo_pc() } else { mov.moved_pc() };
        let score = self.gain(mov) - threshold - SEE_VALS[next];
        if score >= 0 {
            return true;
        }
        let mut occ = (self.bb[Side::WHITE] | self.bb[Side::BLACK]) ^ (1u64 << mov.from() as u64) ^ (1u64 << sq as u64);
        if mov.is_en_passant() {
            let victim: u8 = mov.to ^ 8;
            proof {
                let t = mov.to;
                assert(t < 64 ==> (t ^ 8) < 64) by (bit_vector);
            }
            occ = occ ^ (1u64 << victim as u64);
        }
        let bishops = self.bb[Piece::BISHOP] | self.bb[Piece::QUEEN];
        let rooks = self.bb[Piece::ROOK] | self.bb[Piece::QUEEN];
        let kn = Attacks::knight(sq);
        let kg = Attacks::king(sq);
        let pw = Attacks::pawn(Side::WHITE, sq);
        let pb = Attacks::pawn(Side::BLACK, sq);
        let rk = Attacks::rook(sq, occ);
        let bs = Attacks::bishop(sq, occ);
        let leapers = (kn & self.bb[Piece::KNIGHT]) | (kg & self.bb[Piece::KING]) | (pw & self.bb[Piece::PAWN] & self.bb[Side::BLACK]) | (
        pb & self.bb[Piece::PAWN] & self.bb[Side::WHITE]);
        let attackers = leapers | (rk & rooks) | (bs & bishops);
        proof {
            let bb = self.bb;
            let sqi = sq as int;
            lemma_bb_of(rk, |t: int| rook_att(sqi, occ, t));
            lemma_bb_of(bs, |t: int| bishop_att(sqi, occ, t));
            lemma_bb_of(leapers, |s: int| {
                ||| on(bb[3], s) && knight_att(sqi, s)
                ||| on(bb[7], s) && king_att(sqi, s)
                ||| on(bb[2], s) && on(bb[1], s) && pawn_att(0, sqi, s)
                ||| on(bb[2], s) && on(bb[0], s) && pawn_att(1, sqi, s)
            });
            assert(sq_bb(mov.from as int) == 1u64 << (mov.from as u64));
        }
        let us: usize = if self.c { 0 } else { 1 };
        let mut st = SeeState { occ, attackers, score, us, next, done: false };
        assert(st == see_start(*self, mov, threshold as int));
        let mut k: usize = 0;
        while k < 64 && !st.done
            invariant
                k <= 64,
                sq == mov.to,
                sq < 64,
                see_run(*self, sq as int, st, (64 - k) as nat) == see_run(*self, sq as int, see_start(*self, mov, threshold as int), 64),
                st.us < 2,
                2 <= st.next < 8,
                -0x7FF1_0000 - 1300 * k <= st.score <= 0x7FF1_0000 + 1300 * k,
            decreases 64 - k,
        {
            st = self.see_next(sq, st);
            k += 1;
        }
        assert(see_run(*self, sq as int, st, (64 - k) as nat) == st);
        self.c != (st.us == 1)
    }
}

} // verus!
