use vstd::prelude::*;
use crate::bits::{group_bits, lemma_and_sq_bb, lemma_xor_laws, on, sq_bb};
use crate::attacks::{bishop_att, king_att, knight_att, pawn_att, rook_att, Attacks};
use crate::consts::{Flag, Piece, Side, PHASE_VALS};
use crate::frc::Castling;
use crate::moves::Move;
use crate::zobrist::{castling_key, enp_index, piece_index, zkey, ZobristVals};

verus! {

broadcast use group_bits;

/// The piece kind on `q`: the first of bitboards two to seven that holds it, or zero.
pub open spec fn piece_at(bb: [u64; 8], q: int) -> int {
    if on(bb[2], q) {
        2
    } else if on(bb[3], q) {
        3
    } else if on(bb[4], q) {
        4
    } else if on(bb[5], q) {
        5
    } else if on(bb[6], q) {
        6
    } else if on(bb[7], q) {
        7
    } else {
        0
    }
}

/// What stands on `q`: zero when empty, else eight times the side plus the piece kind.
pub open spec fn cell(bb: [u64; 8], q: int) -> int {
    if on(bb[0], q) {
        piece_at(bb, q)
    } else if on(bb[1], q) {
        8 + piece_at(bb, q)
    } else {
        0
    }
}

/// The board as a map from squares to cells.
pub open spec fn cells_of(bb: [u64; 8]) -> spec_fn(int) -> int {
    |q: int| cell(bb, q)
}

/// The bitboards describe a board: no square belongs to both sides, every piece belongs to
/// one side, every occupied square holds exactly one piece kind.
pub open spec fn board_ok(bb: [u64; 8]) -> bool {
    &&& forall|q: int| 0 <= q < 64 ==> !(on(bb[0], q) && on(bb[1], q))
    &&& forall|q: int| 0 <= q < 64 ==> (#[trigger] on(bb[0], q) || on(bb[1], q)) == (piece_at(bb, q) != 0)
    &&& forall|q: int, p: int| 0 <= q < 64 && 2 <= p < 8 && #[trigger] on(bb[p], q) ==> piece_at(bb, q) == p
}

/// Hashing value of what stands on `q`; with `pawns` only pawns count.
pub open spec fn cell_key(c: int, q: int, pawns: bool) -> u64 {
    if c % 8 < 2 || (pawns && c % 8 != 2) {
        0u64
    } else {
        zkey(piece_index(c / 8, c % 8, q) as nat)
    }
}

/// The hashing values of the first `n` squares combined.
pub open spec fn fold_hash(cells: spec_fn(int) -> int, pawns: bool, n: int) -> u64
    decreases n,
{
    if n <= 0 {
        0u64
    } else {
        fold_hash(cells, pawns, n - 1) ^ cell_key(cells(n - 1), n - 1, pawns)
    }
}

/// Hashing value of the pieces on a board (of its pawns only, with `pawns`).
pub open spec fn board_hash(bb: [u64; 8], pawns: bool) -> u64 {
    fold_hash(cells_of(bb), pawns, 64)
}

/// Changing what stands on one square changes the hash by the values of the old and the new
/// contents of that square.
pub proof fn lemma_fold_hash_one(c1: spec_fn(int) -> int, c2: spec_fn(int) -> int, q0: int, pawns: bool, n: int)
    requires
        0 <= q0 < 64,
        0 <= n <= 64,
        forall|q: int| 0 <= q < 64 && q != q0 ==> #[trigger] c1(q) == c2(q),
    ensures
        n <= q0 ==> fold_hash(c2, pawns, n) == fold_hash(c1, pawns, n),
        n > q0 ==> fold_hash(c2, pawns, n) == fold_hash(c1, pawns, n) ^ (cell_key(c1(q0), q0, pawns) ^ cell_key(c2(q0), q0, pawns)),
    decreases n,
{
    if n > 0 {
        lemma_fold_hash_one(c1, c2, q0, pawns, n - 1);
        let d = cell_key(c1(q0), q0, pawns) ^ cell_key(c2(q0), q0, pawns);
        let f1 = fold_hash(c1, pawns, n - 1);
        let t1 = cell_key(c1(n - 1), n - 1, pawns);
        let t2 = cell_key(c2(n - 1), n - 1, pawns);
        if n - 1 == q0 {
            lemma_xor_laws(f1, cell_key(c1(q0), q0, pawns), cell_key(c2(q0), q0, pawns));
            lemma_xor_laws(cell_key(c1(q0), q0, pawns), cell_key(c1(q0), q0, pawns), cell_key(c2(q0), q0, pawns));
            lemma_xor_laws(f1, t1, t1 ^ t2);
            lemma_xor_laws(f1, t1, t1);
            lemma_xor_laws(t2, t1, t2);
            lemma_xor_laws(t1, t1, t2);
            lemma_xor_laws(f1, t2, t1);
        } else if n - 1 > q0 {
            lemma_xor_laws(f1, d, t1);
            lemma_xor_laws(f1, t1, d);
            lemma_xor_laws(d, t1, 0);
        }
    }
}

/// Game phase weight of a piece kind.
pub open spec fn phase_val(p: int) -> int {
    if p == 3 || p == 4 {
        1
    } else if p == 5 {
        2
    } else if p == 6 {
        4
    } else {
        0
    }
}

/// The phase weights of the pieces on the first `n` squares, summed.
pub open spec fn fold_phase(cells: spec_fn(int) -> int, n: int) -> int
    decreases n,
{
    if n <= 0 {
        0
    } else {
        fold_phase(cells, n - 1) + phase_val(cells(n - 1) % 8)
    }
}

/// Game phase of a board: the phase weights of its pieces, summed.
pub open spec fn board_phase(bb: [u64; 8]) -> int {
    fold_phase(cells_of(bb), 64)
}

/// Changing what stands on one square changes the phase by the difference of the weights.
pub proof fn lemma_fold_phase_one(c1: spec_fn(int) -> int, c2: spec_fn(int) -> int, q0: int, n: int)
    requires
        0 <= q0 < 64,
        0 <= n <= 64,
        forall|q: int| 0 <= q < 64 && q != q0 ==> #[trigger] c1(q) == c2(q),
    ensures
        n <= q0 ==> fold_phase(c2, n) == fold_phase(c1, n),
        n > q0 ==> fold_phase(c2, n) == fold_phase(c1, n) - phase_val(c1(q0) % 8) + phase_val(c2(q0) % 8),
    decreases n,
{
    if n > 0 {
        lemma_fold_phase_one(c1, c2, q0, n - 1);
    }
}

/// The phase of a board lies between zero and four per square.
pub proof fn lemma_fold_phase_bounds(c: spec_fn(int) -> int, n: int)
    requires
        0 <= n,
    ensures
        0 <= fold_phase(c, n) <= 4 * n,
    decreases n,
{
    if n > 0 {
        lemma_fold_phase_bounds(c, n - 1);
    }
}

/// A piece on `s` (of whichever side) would attack `sq`, reading the attack relations from
/// `sq` outwards as a piece of `side` standing there would see them.
pub open spec fn attacker(bb: [u64; 8], sq: int, side: int, occ: u64, s: int) -> bool {
    ||| on(bb[3], s) && knight_att(sq, s)
    ||| on(bb[7], s) && king_att(sq, s)
    ||| on(bb[2], s) && pawn_att(side, sq, s)
    ||| (on(bb[5], s) || on(bb[6], s)) && rook_att(sq, occ, s)
    ||| (on(bb[4], s) || on(bb[6], s)) && bishop_att(sq, occ, s)
}

/// `sq` is attacked by the opponent of `side` when the occupied squares are `occ`.
pub open spec fn attacked_by(bb: [u64; 8], sq: int, side: int, occ: u64) -> bool {
    exists|s: int| 0 <= s < 64 && on(bb[1 - side], s) && #[trigger] attacker(bb, sq, side, occ, s)
}

/// The square of the king of `side`: the lowest square of its king bitboard.
pub open spec fn king_sq(bb: [u64; 8], side: int) -> int {
    (bb[7] & bb[side]).trailing_zeros() as int
}

/// Side to move of a position: zero for white, one for black.
pub open spec fn stm_of(pos: Position) -> int {
    if pos.c {
        1
    } else {
        0
    }
}

/// Square the rook of `side` castles from, on the king side when `ks` is one.
pub open spec fn rook_from(cs: Castling, side: int, ks: int) -> int {
    56 * side + cs.rook_files[side][ks]
}

/// Square the rook of `side` castles to, on the king side when `ks` is one.
pub open spec fn rook_to(side: int, ks: int) -> int {
    56 * side + if ks == 1 { 5int } else { 3int }
}

/// `c` is a piece of side `opp` other than its king.
pub open spec fn opp_non_king(c: int, opp: int) -> bool {
    c != 0 && c / 8 == opp && 2 <= c % 8 <= 6
}

/// Square of the pawn taken en passant by a pawn landing on `to`.
pub open spec fn enp_victim(to: u8) -> int {
    (to ^ 8u8) as int
}

/// The move fits the position: the moving piece belongs to the side to move and stands on the
/// source square, the destination is empty or (for captures) holds an enemy piece other than the
/// king, pawns make the pawn moves, castling finds its rook and room for king and rook.
pub open spec fn move_ok(pos: Position, m: Move, cs: Castling) -> bool {
    let side = stm_of(pos);
    let opp = 1 - side;
    let bb = pos.bb;
    let f = m.from as int;
    let t = m.to as int;
    let fl = m.flag;
    &&& m.wf()
    &&& 2 <= m.pc
    &&& cell(bb, f) == 8 * side + m.pc
    &&& fl != 6 && fl != 7
    &&& (fl == 0 || fl == 1) ==> cell(bb, t) == 0
    &&& fl == 1 ==> m.pc == 2
    &&& (fl == 2 || fl == 3) ==> {
        let ks = if fl == 2 { 1int } else { 0int };
        let rf = rook_from(cs, side, ks);
        let rt = rook_to(side, ks);
        &&& m.pc == 7
        &&& cell(bb, rf) == 8 * side + 5
        &&& t != rt
        &&& (cell(bb, t) == 0 || t == f || t == rf)
        &&& (cell(bb, rt) == 0 || rt == f || rt == rf)
    }
    &&& fl == 4 ==> opp_non_king(cell(bb, t), opp)
    &&& fl == 5 ==> m.pc == 2 && cell(bb, t) == 0 && cell(bb, enp_victim(m.to)) == 8 * opp + 2
    &&& (8 <= fl < 12) ==> m.pc == 2 && cell(bb, t) == 0
    &&& 12 <= fl ==> m.pc == 2 && opp_non_king(cell(bb, t), opp)
}

/// What stands on `q` after the move is played.
pub open spec fn after_cell(pos: Position, m: Move, cs: Castling, q: int) -> int {
    let side = stm_of(pos);
    let f = m.from as int;
    let t = m.to as int;
    let fl = m.flag;
    if fl == 2 || fl == 3 {
        let ks = if fl == 2 { 1int } else { 0int };
        if q == t {
            8 * side + 7
        } else if q == rook_to(side, ks) {
            8 * side + 5
        } else if q == f || q == rook_from(cs, side, ks) {
            0
        } else {
            cell(pos.bb, q)
        }
    } else {
        let mover = if fl >= 8 { 8 * side + m.spec_promo_pc() } else { 8 * side + m.pc };
        if q == t {
            mover
        } else if q == f {
            0
        } else if fl == 5 && q == enp_victim(m.to) {
            0
        } else {
            cell(pos.bb, q)
        }
    }
}

/// A chess position: bitboards of both sides and of each piece kind, side to move,
/// half-move clock, en passant square (zero when there is none), castling rights and the
/// incrementally kept hashes.
#[derive(Clone, Copy)]
pub struct Position {
    pub bb: [u64; 8],
    pub c: bool,
    pub halfm: u8,
    pub enp_sq: u8,
    pub rights: u8,
    pub check: bool,
    pub hash: u64,
    pub pawnhash: u64,
    pub phase: i32,
}

impl Position {
    /// The board is consistent and the incrementally kept hashes match it.
    pub open spec fn board_wf(self) -> bool {
        &&& board_ok(self.bb)
        &&& self.hash == board_hash(self.bb, false)
        &&& self.pawnhash == board_hash(self.bb, true)
    }

    /// The position is consistent: a proper board, hashes and phase that match it, an en
    /// passant square on the board and four bits of castling rights.
    pub open spec fn wf(self) -> bool {
        &&& self.board_wf()
        &&& self.phase == board_phase(self.bb)
        &&& self.enp_sq < 64
        &&& self.rights < 16
    }

    /// The full hash: pieces, en passant file, castling rights and side to move.
    pub open spec fn full_hash(self) -> u64 {
        (if self.enp_sq > 0 { self.hash ^ zkey(enp_index((self.enp_sq & 7) as int) as nat) } else { self.hash })
            ^ castling_key(self.rights) ^ (if self.c { zkey(0) } else { 0u64 })
    }

    /// Both sides have a king.
    pub open spec fn has_kings(self) -> bool {
        &&& self.bb[7] & self.bb[0] != 0
        &&& self.bb[7] & self.bb[1] != 0
    }

    /// Flips the bits of `sq` in the bitboards of `side` and `pc` and updates the hashes.
    fn toggle(&mut self, side: usize, pc: usize, sq: usize)
        requires
            side < 2,
            2 <= pc < 8,
            sq < 64,
        ensures
            forall|i: int| 0 <= i < 8 ==> #[trigger] final(self).bb[i] == if i == pc || i == side {
                old(self).bb[i] ^ sq_bb(sq as int)
            } else {
                old(self).bb[i]
            },
            final(self).hash == old(self).hash ^ zkey(piece_index(side as int, pc as int, sq as int) as nat),
            final(self).pawnhash == if pc == 2 {
                old(self).pawnhash ^ zkey(piece_index(side as int, pc as int, sq as int) as nat)
            } else {
                old(self).pawnhash
            },
            final(self).c == old(self).c,
            final(self).halfm == old(self).halfm,
            final(self).enp_sq == old(self).enp_sq,
            final(self).rights == old(self).rights,
            final(self).check == old(self).check,
            final(self).phase == old(self).phase,
    {
        let bit: u64 = 1u64 << sq;
        self.bb[pc] = self.bb[pc] ^ bit;
        self.bb[side] = self.bb[side] ^ bit;
        let hash_val = ZobristVals::piece(side, pc, sq);
        self.hash = self.hash ^ hash_val;
        if pc == Piece::PAWN {
            self.pawnhash = self.pawnhash ^ hash_val;
        }
    }

    /// Puts a piece of `side` and kind `pc` on the empty square `sq`.
    #[verifier::spinoff_prover]
    #[verifier::rlimit(40)]
    pub(crate) fn add_piece(&mut self, side: usize, pc: usize, sq: usize)
        requires
            old(self).board_wf(),
            side < 2,
            2 <= pc < 8,
            sq < 64,
            cell(old(self).bb, sq as int) == 0,
        ensures
            final(self).board_wf(),
            forall|q: int| 0 <= q < 64 ==> #[trigger] cell(final(self).bb, q) == if q == sq {
                8 * side + pc
            } else {
                cell(old(self).bb, q)
            },
            final(self).c == old(self).c,
            final(self).halfm == old(self).halfm,
            final(self).enp_sq == old(self).enp_sq,
            final(self).rights == old(self).rights,
            final(self).check == old(self).check,
            final(self).phase == old(self).phase,
            board_phase(final(self).bb) == board_phase(old(self).bb) + phase_val(pc as int),
    {
        let ghost ob = self.bb;
        self.toggle(side, pc, sq);
        proof {
            lemma_toggle_board(ob, self.bb, side as int, pc as int, sq as int, true);
            lemma_board_phase_one(ob, self.bb, sq as int);
            assert((8 * side + pc) % 8 == pc);
            lemma_board_hash_one(ob, self.bb, sq as int, false);
            lemma_board_hash_one(ob, self.bb, sq as int, true);
            lemma_toggle_keys(side as int, pc as int, sq as int, 0, 8 * side + pc);
            lemma_xor_laws(old(self).hash, 0u64, 0u64);
            lemma_xor_laws(old(self).pawnhash, 0u64, 0u64);
        }
    }

    /// Takes the piece of `side` and kind `pc` off `sq`.
    #[verifier::spinoff_prover]
    #[verifier::rlimit(40)]
    pub(crate) fn remove_piece(&mut self, side: usize, pc: usize, sq: usize)
        requires
            old(self).board_wf(),
            side < 2,
            2 <= pc < 8,
            sq < 64,
            cell(old(self).bb, sq as int) == 8 * side + pc,
        ensures
            final(self).board_wf(),
            forall|q: int| 0 <= q < 64 ==> #[trigger] cell(final(self).bb, q) == if q == sq {
                0
            } else {
                cell(old(self).bb, q)
            },
            final(self).c == old(self).c,
            final(self).halfm == old(self).halfm,
            final(self).enp_sq == old(self).enp_sq,
            final(self).rights == old(self).rights,
            final(self).check == old(self).check,
            final(self).phase == old(self).phase,
            board_phase(final(self).bb) == board_phase(old(self).bb) - phase_val(pc as int),
    {
        let ghost ob = self.bb;
        self.toggle(side, pc, sq);
        proof {
            lemma_toggle_board(ob, self.bb, side as int, pc as int, sq as int, false);
            lemma_board_phase_one(ob, self.bb, sq as int);
            assert((8 * side + pc) % 8 == pc);
            lemma_board_hash_one(ob, self.bb, sq as int, false);
            lemma_board_hash_one(ob, self.bb, sq as int, true);
            lemma_toggle_keys(side as int, pc as int, sq as int, 8 * side + pc, 0);
            lemma_xor_laws(old(self).hash, 0u64, 0u64);
            lemma_xor_laws(old(self).pawnhash, 0u64, 0u64);
        }
    }
}

/// Flipping square `s` in the bitboards of `side` and `pc` puts that piece on the empty square
/// (`adding`) or takes it off the square it stands on, and leaves a proper board.
proof fn lemma_toggle_board(ob: [u64; 8], nb: [u64; 8], side: int, pc: int, s: int, adding: bool)
    requires
        board_ok(ob),
        0 <= side < 2,
        2 <= pc < 8,
        0 <= s < 64,
        adding ==> cell(ob, s) == 0,
        !adding ==> cell(ob, s) == 8 * side + pc,
        forall|i: int| 0 <= i < 8 ==> #[trigger] nb[i] == if i == pc || i == side {
            ob[i] ^ sq_bb(s)
        } else {
            ob[i]
        },
    ensures
        board_ok(nb),
        forall|q: int| 0 <= q < 64 ==> #[trigger] cell(nb, q) == if q == s {
            if adding { 8 * side + pc } else { 0 }
        } else {
            cell(ob, q)
        },
{
    assert forall|q: int, i: int| 0 <= q < 64 && 0 <= i < 8 implies
        #[trigger] on(nb[i], q) == (on(ob[i], q) != (q == s && (i == side || i == pc))) by {
        assert(nb[i] == if i == pc || i == side { ob[i] ^ sq_bb(s) } else { ob[i] });
    }
    if adding {
        assert(!on(ob[0], s) && !on(ob[1], s) && piece_at(ob, s) == 0);
    } else {
        assert(on(ob[side], s) && !on(ob[1 - side], s) && piece_at(ob, s) == pc);
        assert forall|p: int| 2 <= p < 8 && p != pc implies !on(ob[p], s) by {
            if on(ob[p], s) {
                assert(piece_at(ob, s) == p);
            }
        }
    }
    assert forall|q: int| 0 <= q < 64 && q != s implies piece_at(nb, q) == piece_at(ob, q) by {
        assert(on(nb[2], q) == on(ob[2], q));
        assert(on(nb[3], q) == on(ob[3], q));
        assert(on(nb[4], q) == on(ob[4], q));
        assert(on(nb[5], q) == on(ob[5], q));
        assert(on(nb[6], q) == on(ob[6], q));
        assert(on(nb[7], q) == on(ob[7], q));
    }
    assert(piece_at(nb, s) == if adding { pc } else { 0 }) by {
        assert(on(nb[2], s) == (on(ob[2], s) != (pc == 2)));
        assert(on(nb[3], s) == (on(ob[3], s) != (pc == 3)));
        assert(on(nb[4], s) == (on(ob[4], s) != (pc == 4)));
        assert(on(nb[5], s) == (on(ob[5], s) != (pc == 5)));
        assert(on(nb[6], s) == (on(ob[6], s) != (pc == 6)));
        assert(on(nb[7], s) == (on(ob[7], s) != (pc == 7)));
    }
    assert(on(nb[0], s) == (on(ob[0], s) != (side == 0)));
    assert(on(nb[1], s) == (on(ob[1], s) != (side == 1)));
    assert forall|q: int| 0 <= q < 64 implies #[trigger] cell(nb, q) == if q == s {
        if adding { 8 * side + pc } else { 0 }
    } else {
        cell(ob, q)
    } by {
        if q != s {
            assert(on(nb[0], q) == on(ob[0], q));
            assert(on(nb[1], q) == on(ob[1], q));
        }
    }
    assert forall|q: int| 0 <= q < 64 implies !(on(nb[0], q) && on(nb[1], q)) by {
        assert(on(nb[0], q) == (on(ob[0], q) != (q == s && side == 0)));
        assert(on(nb[1], q) == (on(ob[1], q) != (q == s && side == 1)));
    }
    assert forall|q: int| 0 <= q < 64 implies (#[trigger] on(nb[0], q) || on(nb[1], q)) == (piece_at(nb, q) != 0) by {
        assert(on(nb[0], q) == (on(ob[0], q) != (q == s && side == 0)));
        assert(on(nb[1], q) == (on(ob[1], q) != (q == s && side == 1)));
    }
    assert forall|q: int, p: int| 0 <= q < 64 && 2 <= p < 8 && #[trigger] on(nb[p], q) implies piece_at(nb, q) == p by {
        assert(on(nb[p], q) == (on(ob[p], q) != (q == s && p == pc)));
        if q != s {
            assert(on(ob[p], q));
        }
    }
}

/// Changing what stands on one square changes the board hash by the values of the old and
/// the new contents of that square.
proof fn lemma_board_hash_one(ob: [u64; 8], nb: [u64; 8], s: int, pawns: bool)
    requires
        0 <= s < 64,
        forall|q: int| 0 <= q < 64 && q != s ==> #[trigger] cell(nb, q) == cell(ob, q),
    ensures
        board_hash(nb, pawns) == board_hash(ob, pawns) ^ (cell_key(cell(ob, s), s, pawns) ^ cell_key(cell(nb, s), s, pawns)),
{
    let c1 = cells_of(ob);
    let c2 = cells_of(nb);
    assert forall|q: int| 0 <= q < 64 && q != s implies #[trigger] c1(q) == c2(q) by {
        assert(cell(nb, q) == cell(ob, q));
    }
    lemma_fold_hash_one(c1, c2, s, pawns, 64);
}

/// Changing what stands on one square changes the phase by the difference of the weights.
proof fn lemma_board_phase_one(ob: [u64; 8], nb: [u64; 8], s: int)
    requires
        0 <= s < 64,
        forall|q: int| 0 <= q < 64 && q != s ==> #[trigger] cell(nb, q) == cell(ob, q),
    ensures
        board_phase(nb) == board_phase(ob) - phase_val(cell(ob, s) % 8) + phase_val(cell(nb, s) % 8),
{
    let c1 = cells_of(ob);
    let c2 = cells_of(nb);
    assert forall|q: int| 0 <= q < 64 && q != s implies #[trigger] c1(q) == c2(q) by {
        assert(cell(nb, q) == cell(ob, q));
    }
    lemma_fold_phase_one(c1, c2, s, 64);
}

/// The hashing values of an empty square and of a piece of `side` and kind `pc`.
proof fn lemma_toggle_keys(side: int, pc: int, s: int, c1: int, c2: int)
    requires
        0 <= side < 2,
        2 <= pc < 8,
        0 <= s < 64,
        (c1 == 0 && c2 == 8 * side + pc) || (c2 == 0 && c1 == 8 * side + pc),
    ensures
        cell_key(c1, s, false) ^ cell_key(c2, s, false) == zkey(piece_index(side, pc, s) as nat),
        cell_key(c1, s, true) ^ cell_key(c2, s, true) == if pc == 2 {
            zkey(piece_index(side, pc, s) as nat)
        } else {
            0u64
        },
{
    let k = zkey(piece_index(side, pc, s) as nat);
    assert((8 * side + pc) / 8 == side && (8 * side + pc) % 8 == pc);
    lemma_xor_laws(0u64, k, 0u64);
    lemma_xor_laws(k, 0u64, 0u64);
    lemma_xor_laws(0u64, 0u64, 0u64);
    assert(cell_key(0, s, false) == 0u64);
    assert(cell_key(0, s, true) == 0u64);
    assert(cell_key(8 * side + pc, s, false) == k);
}

/// A side has a king exactly when some square holds its king.
proof fn lemma_king_exists(bb: [u64; 8], side: int)
    requires
        board_ok(bb),
        0 <= side < 2,
    ensures
        (bb[7] & bb[side] != 0) == exists|q: int| 0 <= q < 64 && #[trigger] cell(bb, q) == 8 * side + 7,
{
    crate::bits::lemma_bb_empty(bb[7] & bb[side]);
    if bb[7] & bb[side] != 0 {
        let q = choose|q: int| 0 <= q < 64 && on(bb[7] & bb[side], q);
        assert(piece_at(bb, q) == 7);
        assert(cell(bb, q) == 8 * side + 7);
    }
    if exists|q: int| 0 <= q < 64 && #[trigger] cell(bb, q) == 8 * side + 7 {
        let q = choose|q: int| 0 <= q < 64 && #[trigger] cell(bb, q) == 8 * side + 7;
        assert(on(bb[7] & bb[side], q));
    }
}

/// A move that fits the position leaves both kings on the board.
proof fn lemma_kings_after(old: Position, new: Position, m: Move, cs: Castling)
    requires
        old.wf(),
        old.has_kings(),
        move_ok(old, m, cs),
        board_ok(new.bb),
        forall|q: int| 0 <= q < 64 ==> #[trigger] cell(new.bb, q) == after_cell(old, m, cs, q),
    ensures
        new.has_kings(),
{
    let side = stm_of(old);
    lemma_king_exists(old.bb, 0);
    lemma_king_exists(old.bb, 1);
    lemma_king_exists(new.bb, 0);
    lemma_king_exists(new.bb, 1);
    let q0 = choose|q: int| 0 <= q < 64 && #[trigger] cell(old.bb, q) == 8 * 0 + 7;
    let q1 = choose|q: int| 0 <= q < 64 && #[trigger] cell(old.bb, q) == 8 * 1 + 7;
    let t = m.to as int;
    let v = enp_victim(m.to);
    assert(0 <= v < 64) by {
        let x = m.to;
        assert(x < 64 ==> (x ^ 8u8) < 64) by (bit_vector);
    }
    if m.pc == 7 {
        assert(cell(new.bb, t) == 8 * side + 7);
    }
    if side == 0 {
        assert(cell(new.bb, q1) == 15);
        if m.pc != 7 {
            assert(cell(new.bb, q0) == 7);
        }
    } else {
        assert(cell(new.bb, q0) == 7);
        if m.pc != 7 {
            assert(cell(new.bb, q1) == 15);
        }
    }
}

proof fn lemma_u8_bits(a: u8, b: u8, t: u8)
    by (bit_vector)
    ensures
        a & b <= a,
        t < 64 ==> t ^ 8u8 < 64,
{
}

proof fn lemma_and_comm(a: u64, b: u64)
    by (bit_vector)
    ensures
        a & b == b & a,
{
}

/// On a single-square bitboard, `get_pc` names the piece on that square.
pub proof fn lemma_get_pc_sq(bb: [u64; 8], q: int)
    requires
        0 <= q < 64,
    ensures
        piece_at(bb, q) == if bb[2] & sq_bb(q) != 0 {
            2int
        } else if bb[3] & sq_bb(q) != 0 {
            3
        } else if bb[4] & sq_bb(q) != 0 {
            4
        } else if bb[5] & sq_bb(q) != 0 {
            5
        } else if bb[6] & sq_bb(q) != 0 {
            6
        } else if bb[7] & sq_bb(q) != 0 {
            7
        } else {
            0
        },
{
    lemma_and_sq_bb(bb[2], q);
    lemma_and_sq_bb(bb[3], q);
    lemma_and_sq_bb(bb[4], q);
    lemma_and_sq_bb(bb[5], q);
    lemma_and_sq_bb(bb[6], q);
    lemma_and_sq_bb(bb[7], q);
}

impl Position {
    /// Bitboard of the pieces of `side`.
    pub fn side(&self, side: usize) -> (r: u64)
        requires
            side < 2,
        ensures
            r == self.bb[side as int],
    {
        self.bb[side]
    }

    /// Bitboard of the pieces of kind `pc`, of either side.
    pub fn piece(&self, pc: usize) -> (r: u64)
        requires
            pc < 8,
        ensures
            r == self.bb[pc as int],
    {
        self.bb[pc]
    }

    /// All eight bitboards.
    pub fn bitboards(&self) -> (r: [u64; 8])
        ensures
            r == self.bb,
    {
        self.bb
    }

    pub fn halfm(&self) -> (r: usize)
        ensures
            r == self.halfm,
    {
        self.halfm as usize
    }

    /// Side to move: zero for white, one for black.
    pub fn stm(&self) -> (r: usize)
        ensures
            r == stm_of(*self),
    {
        if self.c {
            1
        } else {
            0
        }
    }

    /// The full hash of the position.
    pub fn hash(&self) -> (r: u64)
        ensures
            r == self.full_hash(),
    {
        let mut hash = self.hash;
        if self.enp_sq > 0 {
            hash ^= ZobristVals::en_passant(self.enp_sq);
        }
        hash ^ ZobristVals::castling(self.rights) ^ ZobristVals::side(self.stm())
    }

    /// Hash of the pawns alone.
    pub fn pawnhash(&self) -> (r: u64)
        ensures
            r == self.pawnhash,
    {
        self.pawnhash
    }

    /// Whether `side` has a piece other than pawns and king.
    pub fn has_non_pk(&self, side: usize) -> (r: bool)
        requires
            side < 2,
            board_ok(self.bb),
        ensures
            r == exists|q: int| 0 <= q < 64 && on(self.bb[side as int], q) && 3 <= piece_at(self.bb, q) <= 6,
    {
        let occ = self.bb[Side::WHITE] | self.bb[Side::BLACK];
        let pk = self.bb[Piece::PAWN] | self.bb[Piece::KING];
        let x = self.bb[side] & (occ ^ pk);
        proof {
            crate::bits::lemma_bb_empty(x);
            if x != 0 {
                let q = choose|q: int| 0 <= q < 64 && on(x, q);
                assert(on(self.bb[0], q) || on(self.bb[1], q));
                assert(on(self.bb[side as int], q) && 3 <= piece_at(self.bb, q) <= 6);
            }
            if exists|q: int| 0 <= q < 64 && on(self.bb[side as int], q) && 3 <= piece_at(self.bb, q) <= 6 {
                let q = choose|q: int| 0 <= q < 64 && on(self.bb[side as int], q) && 3 <= piece_at(self.bb, q) <= 6;
                assert(on(self.bb[0], q) || on(self.bb[1], q));
                if on(self.bb[7], q) {
                    assert(piece_at(self.bb, q) == 7);
                }
                assert(on(x, q));
            }
        }
        x > 0
    }

    /// The piece kind of the first of bitboards two to seven that meets `bit`, or zero.
    pub fn get_pc(&self, bit: u64) -> (r: usize)
        ensures
            r == if self.bb[2] & bit != 0 {
                2usize
            } else if self.bb[3] & bit != 0 {
                3
            } else if self.bb[4] & bit != 0 {
                4
            } else if self.bb[5] & bit != 0 {
                5
            } else if self.bb[6] & bit != 0 {
                6
            } else if self.bb[7] & bit != 0 {
                7
            } else {
                0
            },
    {
        let mut pc: usize = 2;
        while pc < 8
            invariant
                2 <= pc <= 8,
                forall|p: int| 2 <= p < pc ==> self.bb[p] & bit == 0,
            decreases 8 - pc,
        {
            proof {
                lemma_and_comm(bit, self.bb[pc as int]);
            }
            if bit & self.bb[pc] > 0 {
                return pc;
            }
            pc += 1;
        }
        0
    }

    /// Whether `sq` is attacked by the opponent of `side`, with occupancy `occ`.
    pub fn sq_attacked(&self, sq: usize, side: usize, occ: u64) -> (r: bool)
        requires
            sq < 64,
            side < 2,
        ensures
            r == attacked_by(self.bb, sq as int, side as int, occ),
    {
        let x = ((Attacks::knight(sq) & self.bb[Piece::KNIGHT])
            | (Attacks::king(sq) & self.bb[Piece::KING])
            | (Attacks::pawn(side, sq) & self.bb[Piece::PAWN])
            | (Attacks::rook(sq, occ) & (self.bb[Piece::ROOK] | self.bb[Piece::QUEEN]))
            | (Attacks::bishop(sq, occ) & (self.bb[Piece::BISHOP] | self.bb[Piece::QUEEN])))
            & self.bb[1 - side];
        proof {
            crate::bits::lemma_bb_empty(x);
            assert forall|t: int| 0 <= t < 64 implies #[trigger] on(x, t) == (on(self.bb[1 - side], t) && attacker(self.bb, sq as int, side as int, occ, t)) by {}
            if x != 0 {
                let t = choose|t: int| 0 <= t < 64 && on(x, t);
                assert(on(self.bb[1 - side], t) && attacker(self.bb, sq as int, side as int, occ, t));
            }
            if attacked_by(self.bb, sq as int, side as int, occ) {
                let t = choose|t: int| 0 <= t < 64 && on(self.bb[1 - side], t) && #[trigger] attacker(self.bb, sq as int, side as int, occ, t);
                assert(on(x, t));
            }
        }
        x > 0
    }

    /// Whether the side to move is in check.
    pub fn in_check(&self) -> (r: bool)
        requires
            self.bb[7] & self.bb[stm_of(*self)] != 0,
        ensures
            r == attacked_by(self.bb, king_sq(self.bb, stm_of(*self)), stm_of(*self), self.bb[0] | self.bb[1]),
    {
        let side = self.stm();
        let kbb = self.bb[Piece::KING] & self.bb[side];
        proof {
            vstd::std_specs::bits::axiom_u64_trailing_zeros(kbb);
        }
        let kidx = kbb.trailing_zeros() as usize;
        self.sq_attacked(kidx, side, self.bb[0] | self.bb[1])
    }

    /// Plays a move. Returns whether the king of the side that moved is attacked afterwards,
    /// that is whether the move was illegal.
    pub fn make(&mut self, mov: Move, castling: &Castling) -> (r: bool)
        requires
            old(self).wf(),
            old(self).has_kings(),
            old(self).halfm < 255,
            castling.wf(),
            move_ok(*old(self), mov, *castling),
        ensures
            final(self).wf(),
            final(self).has_kings(),
            forall|q: int| 0 <= q < 64 ==> #[trigger] cell(final(self).bb, q) == after_cell(*old(self), mov, *castling, q),
            final(self).c == !old(self).c,
            final(self).enp_sq == if mov.flag == 1 { mov.to ^ 8u8 } else { 0u8 },
            final(self).rights == old(self).rights & (castling.castle_mask[mov.to as int] & castling.castle_mask[mov.from as int]),
            final(self).halfm == if mov.pc == 2 || mov.spec_is_capture() { 0 } else { old(self).halfm + 1 },
            final(self).check == old(self).check,
            r == attacked_by(final(self).bb, king_sq(final(self).bb, stm_of(*old(self))), stm_of(*old(self)), final(self).bb[0] | final(self).bb[1]),
    {
        let ghost old_pos = *self;
        let side = self.stm();
        let opp = 1 - side;
        let moved = mov.moved_pc();
        let to = mov.to();
        let from = mov.from();
        proof {
            let fl = mov.flag;
            assert(fl & 4 != 0 <==> (fl == 4 || fl == 5 || fl == 6 || fl == 7 || fl >= 12)) by (bit_vector)
                requires fl < 16;
            assert(fl & 8 != 0 <==> fl >= 8) by (bit_vector)
                requires fl < 16;
            lemma_get_pc_sq(self.bb, to as int);
            assert(sq_bb(to as int) == 1u64 << to);
            lemma_fold_phase_bounds(cells_of(self.bb), 64);
            assert(forall|p: int| 0 <= p < 8 ==> #[trigger] PHASE_VALS[p] == phase_val(p));
        }
        let captured = if mov.is_capture() {
            self.get_pc(1u64 << to)
        } else {
            Piece::EMPTY
        };

        // update state
        self.rights = self.rights & (castling.mask(to) & castling.mask(from));
        self.halfm = self.halfm + 1;
        self.enp_sq = 0;
        self.c = !self.c;
        if moved == Piece::PAWN || mov.is_capture() {
            self.halfm = 0;
        }

        // captures
        if captured != Piece::EMPTY {
            self.remove_piece(opp, captured, to);
            self.phase = self.phase - PHASE_VALS[captured];
        }

        // move piece
        self.remove_piece(side, moved, from);

        let flag = mov.flag();
        if flag == Flag::DBL {
            self.add_piece(side, moved, to);
            self.enp_sq = mov.to ^ 8;
        } else if flag == Flag::KS || flag == Flag::QS {
            let ks: usize = if flag == Flag::KS { 1 } else { 0 };
            let rfr = 56 * side + castling.rook_file(side, ks) as usize;
            let rto = 56 * side + if ks == 1 { 5 } else { 3 };
            self.remove_piece(side, Piece::ROOK, rfr);
            self.add_piece(side, moved, to);
            self.add_piece(side, Piece::ROOK, rto);
        } else if flag == Flag::ENP {
            let victim = (mov.to ^ 8) as usize;
            self.remove_piece(opp, Piece::PAWN, victim);
            self.add_piece(side, moved, to);
        } else if flag >= Flag::PROMO {
            let promo = mov.promo_pc();
            self.phase = self.phase + PHASE_VALS[promo];
            self.add_piece(side, promo, to);
        } else {
            self.add_piece(side, moved, to);
        }

        // validating move
        proof {
            lemma_kings_after(old_pos, *self, mov, *castling);
            lemma_u8_bits(old_pos.rights, castling.castle_mask[to as int] & castling.castle_mask[from as int], mov.to);
            assert(self.rights < 16);
            assert(self.enp_sq < 64);
            assert(self.phase == board_phase(self.bb));
        }
        let kbb = self.bb[Piece::KING] & self.bb[side];
        proof {
            vstd::std_specs::bits::axiom_u64_trailing_zeros(kbb);
        }
        let kidx = kbb.trailing_zeros() as usize;
        self.sq_attacked(kidx, side, self.bb[0] | self.bb[1])
    }
}

} // verus!
