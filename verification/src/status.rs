use vstd::prelude::*;
use crate::attacks::{pawn_att, piece_att, Attacks};
use crate::bits::{bit, group_bits, lemma_pop_lsb, on};
use crate::consts::{Piece, Side};
use crate::moves::Move;
use crate::frc::Castling;
use crate::position::{
    after_cell, attacked_by, board_hash, board_ok, cell, cell_key, cells_of, king_sq, move_ok, piece_at, stm_of, Position,
};
use crate::zobrist::{piece_index, zkey, ZobristVals};

verus! {

broadcast use group_bits;

/// Some square of `set` holds a piece of kind `pc` (knight to king) that attacks `t`.
pub open spec fn set_attacks(set: u64, pc: int, occ: u64, t: int) -> bool {
    exists|s: int| 0 <= s < 64 && on(set, s) && #[trigger] piece_att(pc, s, occ, t)
}

/// Some pawn of `side` in `pawns` attacks `t`.
pub open spec fn pawns_attack(pawns: u64, side: int, t: int) -> bool {
    exists|s: int| 0 <= s < 64 && on(pawns, s) && #[trigger] pawn_att(side, s, t)
}

/// The squares the pieces of `side` attack when the occupied squares are `occ`.
pub open spec fn threat(bb: [u64; 8], side: int, occ: u64, t: int) -> bool {
    let opps = bb[side];
    ||| set_attacks(opps & (bb[5] | bb[6]), 5, occ, t)
    ||| set_attacks(opps & (bb[4] | bb[6]), 4, occ, t)
    ||| set_attacks(opps & bb[3], 3, occ, t)
    ||| set_attacks(opps & bb[7], 7, occ, t)
    ||| pawns_attack(opps & bb[2], side, t)
}

/// The union of the attacks of the pieces of kind `pc` standing on the squares of `set`.
fn set_attacks_of(set: u64, pc: usize, occ: u64) -> (r: u64)
    requires
        3 <= pc <= 7,
    ensures
        forall|t: int| 0 <= t < 64 ==> #[trigger] on(r, t) == set_attacks(set, pc as int, occ, t),
{
    let mut rest = set;
    let mut r: u64 = 0;
    while rest != 0
        invariant
            3 <= pc <= 7,
            forall|s: int| #[trigger] on(rest, s) ==> on(set, s),
            forall|t: int| 0 <= t < 64 ==> #[trigger] on(r, t) == exists|s: int|
                0 <= s < 64 && on(set, s) && !on(rest, s) && #[trigger] piece_att(pc as int, s, occ, t),
        decreases rest,
    {
        proof {
            lemma_pop_lsb(rest);
        }
        let sq = rest.trailing_zeros() as usize;
        let ghost old_rest = rest;
        let ghost old_r = r;
        let att = Attacks::for_piece(pc, sq, occ);
        r = r | att;
        rest = rest & (rest - 1);
        proof {
            assert forall|t: int| 0 <= t < 64 implies #[trigger] on(r, t) == exists|s: int|
                0 <= s < 64 && on(set, s) && !on(rest, s) && #[trigger] piece_att(pc as int, s, occ, t) by {
                if on(r, t) {
                    if on(att, t) {
                        assert(on(set, sq as int) && !on(rest, sq as int) && piece_att(pc as int, sq as int, occ, t));
                    } else {
                        let s = choose|s: int| 0 <= s < 64 && on(set, s) && !on(old_rest, s) && #[trigger] piece_att(pc as int, s, occ, t);
                        assert(!on(rest, s));
                    }
                }
                if exists|s: int| 0 <= s < 64 && on(set, s) && !on(rest, s) && #[trigger] piece_att(pc as int, s, occ, t) {
                    let s = choose|s: int| 0 <= s < 64 && on(set, s) && !on(rest, s) && #[trigger] piece_att(pc as int, s, occ, t);
                    if s != sq {
                        assert(!on(old_rest, s));
                        assert(on(old_r, t));
                    }
                }
            }
        }
    }
    proof {
        assert forall|t: int| 0 <= t < 64 implies #[trigger] on(r, t) == set_attacks(set, pc as int, occ, t) by {
            crate::bits::lemma_on_zero(0);
        }
    }
    r
}

proof fn lemma_pawn_setwise(pawns: u64, t: int)
    requires
        0 <= t < 64,
    ensures
        on(((pawns & !crate::consts::File::A) << 7u64) | ((pawns & !crate::consts::File::H) << 9u64), t) == pawns_attack(pawns, 0, t),
        on(((pawns & !crate::consts::File::A) >> 9u64) | ((pawns & !crate::consts::File::H) >> 7u64), t) == pawns_attack(pawns, 1, t),
{
    crate::attacks::lemma_pawn_setwise_bits(pawns, t as u64);
    if t % 8 < 7 && t >= 7 {
        assert(on(pawns, t - 7) ==> pawn_att(0, t - 7, t));
    }
    if t % 8 > 0 && t >= 9 {
        assert(on(pawns, t - 9) ==> pawn_att(0, t - 9, t));
    }
    if t % 8 < 7 && t + 9 < 64 {
        assert(on(pawns, t + 9) ==> pawn_att(1, t + 9, t));
    }
    if t % 8 > 0 && t + 7 < 64 {
        assert(on(pawns, t + 7) ==> pawn_att(1, t + 7, t));
    }
    if pawns_attack(pawns, 0, t) {
        let s = choose|s: int| 0 <= s < 64 && on(pawns, s) && #[trigger] pawn_att(0, s, t);
        assert(s == t - 7 || s == t - 9);
    }
    if pawns_attack(pawns, 1, t) {
        let s = choose|s: int| 0 <= s < 64 && on(pawns, s) && #[trigger] pawn_att(1, s, t);
        assert(s == t + 7 || s == t + 9);
    }
}

impl Attacks {
    /// Squares attacked by the white pawns of `pawns`.
    pub fn white_pawn_setwise(pawns: u64) -> (r: u64)
        ensures
            forall|t: int| 0 <= t < 64 ==> #[trigger] on(r, t) == pawns_attack(pawns, 0, t),
    {
        let r = ((pawns & !crate::consts::File::A) << 7u64) | ((pawns & !crate::consts::File::H) << 9u64);
        proof {
            assert forall|t: int| 0 <= t < 64 implies #[trigger] on(r, t) == pawns_attack(pawns, 0, t) by {
                lemma_pawn_setwise(pawns, t);
            }
        }
        r
    }

    /// Squares attacked by the black pawns of `pawns`.
    pub fn black_pawn_setwise(pawns: u64) -> (r: u64)
        ensures
            forall|t: int| 0 <= t < 64 ==> #[trigger] on(r, t) == pawns_attack(pawns, 1, t),
    {
        let r = ((pawns & !crate::consts::File::A) >> 9u64) | ((pawns & !crate::consts::File::H) >> 7u64);
        proof {
            assert forall|t: int| 0 <= t < 64 implies #[trigger] on(r, t) == pawns_attack(pawns, 1, t) by {
                lemma_pawn_setwise(pawns, t);
            }
        }
        r
    }
}

/// The position is drawn by the fifty-move rule or by insufficient material: no pawns and at
/// most a minor piece, or one bishop each with both on squares of one colour.
pub open spec fn draw_rule(pos: Position) -> bool {
    pos.halfm >= 100 || (pos.phase <= 2 && pos.bb[2] == 0 && (pos.phase != 2 || {
        let b = pos.bb[4];
        &&& b & pos.bb[0] != b
        &&& b & pos.bb[1] != b
        &&& (b & 0x55AA55AA55AA55AA == b || b & 0xAA55AA55AA55AA55 == b)
    }))
}

/// The fifty-move rule: a half-move clock of a hundred or more draws the position.
pub proof fn lemma_fifty_move_draw(pos: Position)
    requires
        pos.halfm >= 100,
    ensures
        draw_rule(pos),
{
}

/// A position with a pawn on the board is never drawn by lack of material: before the
/// fifty-move rule applies, it is not drawn at all.
pub proof fn lemma_pawns_not_drawn(pos: Position)
    requires
        pos.halfm < 100,
        pos.bb[2] != 0,
    ensures
        !draw_rule(pos),
{
}

/// Pieces worth more than two minor pieces together (a queen, a rook and a minor piece, or
/// three minor pieces) are always enough: such a position is not drawn before the fifty-move
/// rule.
pub proof fn lemma_material_not_drawn(pos: Position)
    requires
        pos.wf(),
        pos.halfm < 100,
        crate::position::board_phase(pos.bb) >= 3,
    ensures
        !draw_rule(pos),
{
}

/// Without pawns and with at most one minor piece besides the kings, the position is drawn.
pub proof fn lemma_bare_draw(pos: Position)
    requires
        pos.wf(),
        pos.bb[2] == 0,
        crate::position::board_phase(pos.bb) <= 1,
    ensures
        draw_rule(pos),
{
}

/// With two minor pieces, a rook, or no bishop on one side, the position is only drawn by lack
/// of material when each side has a bishop: a lone rook, two knights, or both minor pieces on
/// one side are not a draw.
pub proof fn lemma_two_minors_need_bishops(pos: Position)
    requires
        pos.wf(),
        pos.halfm < 100,
        crate::position::board_phase(pos.bb) == 2,
        pos.bb[4] & pos.bb[0] == 0 || pos.bb[4] & pos.bb[1] == 0,
    ensures
        !draw_rule(pos),
{
    let b = pos.bb[4];
    if b & pos.bb[0] == 0 {
        assert(b & pos.bb[1] == b) by {
            assert forall|q: int| 0 <= q < 64 implies #[trigger] on(b & pos.bb[1], q) == on(b, q) by {
                if on(b, q) {
                    assert(crate::position::piece_at(pos.bb, q) != 0);
                    assert(!on(b & pos.bb[0], q));
                }
            }
            crate::bits::lemma_bb_ext(b & pos.bb[1], b);
        }
    } else {
        assert(b & pos.bb[0] == b) by {
            assert forall|q: int| 0 <= q < 64 implies #[trigger] on(b & pos.bb[0], q) == on(b, q) by {
                if on(b, q) {
                    assert(crate::position::piece_at(pos.bb, q) != 0);
                    assert(!on(b & pos.bb[1], q));
                }
            }
            crate::bits::lemma_bb_ext(b & pos.bb[0], b);
        }
    }
}

/// The colour of a square: 0 for the dark squares (a1, c1, ...), 1 for the light ones.
pub open spec fn square_colour(q: int) -> int {
    (q % 8 + q / 8) % 2
}

proof fn lemma_colour_masks(q: u64)
    by (bit_vector)
    requires
        q < 64,
    ensures
        bit(0x55AA55AA55AA55AAu64, q) == ((q % 8 + q / 8) % 2 == 1),
        bit(0xAA55AA55AA55AA55u64, q) == ((q % 8 + q / 8) % 2 == 0),
{
}

/// A bitboard lies within `m` exactly when each of its squares does.
proof fn lemma_within(b: u64, m: u64)
    ensures
        (b & m == b) == (forall|q: int| #[trigger] on(b, q) ==> on(m, q)),
{
    if forall|q: int| #[trigger] on(b, q) ==> on(m, q) {
        assert forall|q: int| 0 <= q < 64 implies #[trigger] on(b & m, q) == on(b, q) by {}
        crate::bits::lemma_bb_ext(b & m, b);
    }
    if b & m == b {
        assert forall|q: int| #[trigger] on(b, q) implies on(m, q) by {
            assert(on(b & m, q));
        }
    }
}

/// With a bishop on each side and no other piece but the kings, the position is drawn exactly
/// when the two bishops stand on squares of one colour.
pub proof fn lemma_bishops_colour(pos: Position, x: int, y: int)
    requires
        pos.wf(),
        pos.halfm < 100,
        pos.bb[2] == 0,
        pos.phase == 2,
        on(pos.bb[4] & pos.bb[0], x),
        on(pos.bb[4] & pos.bb[1], y),
        forall|q: int| #[trigger] on(pos.bb[4], q) ==> q == x || q == y,
    ensures
        draw_rule(pos) == (square_colour(x) == square_colour(y)),
{
    let b = pos.bb[4];
    assert(!(on(pos.bb[0], y) && on(pos.bb[1], y)));
    assert(!(on(pos.bb[0], x) && on(pos.bb[1], x)));
    assert(!on(b & pos.bb[0], y));
    assert(!on(b & pos.bb[1], x));
    assert(b & pos.bb[0] != b);
    assert(b & pos.bb[1] != b);
    let light = 0x55AA55AA55AA55AAu64;
    let dark = 0xAA55AA55AA55AA55u64;
    lemma_colour_masks(x as u64);
    lemma_colour_masks(y as u64);
    lemma_within(b, light);
    lemma_within(b, dark);
    assert(on(light, x) == (square_colour(x) == 1));
    assert(on(light, y) == (square_colour(y) == 1));
    assert(on(dark, x) == (square_colour(x) == 0));
    assert(on(dark, y) == (square_colour(y) == 0));
    assert((b & light == b) == (on(light, x) && on(light, y)));
    assert((b & dark == b) == (on(dark, x) && on(dark, y)));
}

impl Position {
    /// Whether both sides have a king.
    pub fn has_both_kings(&self) -> (r: bool)
        ensures
            r == self.has_kings(),
    {
        self.bb[Piece::KING] & self.bb[Side::WHITE] != 0 && self.bb[Piece::KING] & self.bb[Side::BLACK] != 0
    }

    /// Passes the move to the other side; there is no en passant square afterwards.
    pub fn make_null(&mut self)
        ensures
            *final(self) == (Position { c: !old(self).c, enp_sq: 0, ..*old(self) }),
    {
        self.c = !self.c;
        self.enp_sq = 0;
    }

    /// The squares attacked by the side not to move.
    pub fn threats(&self) -> (r: u64)
        ensures
            forall|t: int| 0 <= t < 64 ==> #[trigger] on(r, t) == threat(self.bb, 1 - stm_of(*self), self.bb[0] | self.bb[1], t),
    {
        let occ = self.bb[Side::WHITE] | self.bb[Side::BLACK];
        let side = self.stm() ^ 1;
        assert(side == 1 - stm_of(*self)) by {
            assert(0usize ^ 1 == 1usize && 1usize ^ 1 == 0usize) by (bit_vector);
        }
        let opps = self.bb[side];
        let queens = self.bb[Piece::QUEEN];
        let rooks = set_attacks_of(opps & (self.bb[Piece::ROOK] | queens), 5, occ);
        let bishops = set_attacks_of(opps & (self.bb[Piece::BISHOP] | queens), 4, occ);
        let knights = set_attacks_of(opps & self.bb[Piece::KNIGHT], 3, occ);
        let kings = set_attacks_of(opps & self.bb[Piece::KING], 7, occ);
        let pawns = opps & self.bb[Piece::PAWN];
        let pawn_threats = if side == Side::WHITE {
            Attacks::white_pawn_setwise(pawns)
        } else {
            Attacks::black_pawn_setwise(pawns)
        };
        rooks | bishops | knights | kings | pawn_threats
    }

    /// Whether the position is drawn by the fifty-move rule or by insufficient material: no
    /// pawns and at most a minor piece, or one bishop each with both on squares of one colour.
    pub fn draw(&self) -> (r: bool)
        ensures
            r == draw_rule(*self),
    {
        if self.halfm >= 100 {
            return true;
        }
        let ph = self.phase;
        let b = self.bb[Piece::BISHOP];
        ph <= 2 && self.bb[Piece::PAWN] == 0 && ((ph != 2) || (b & self.bb[Side::WHITE] != b && b & self.bb[Side::BLACK] != b && (
        b & 0x55AA55AA55AA55AA == b || b & 0xAA55AA55AA55AA55 == b)))
    }

    /// The hash `curr` after `mov`, counting only the side to move, the moving piece and a
    /// piece standing on the destination square.
    pub fn key_after(&self, curr: u64, mov: Move) -> (r: u64)
        requires
            mov.wf(),
            2 <= mov.pc,
        ensures
            r == key_after_of(*self, curr, mov),
    {
        let side = self.stm();
        let opp = 1 - side;
        let mpc = mov.moved_pc();
        let mut key = curr ^ ZobristVals::side(1);
        key = key ^ ZobristVals::piece(side, mpc, mov.from());
        key = key ^ ZobristVals::piece(side, mpc, mov.to());
        if mov.is_capture() {
            proof {
                crate::position::lemma_get_pc_sq(self.bb, mov.to as int);
            }
            let victim = self.get_pc(1u64 << mov.to() as u64);
            if victim != 0 {
                key = key ^ ZobristVals::piece(opp, victim, mov.to());
            }
        }
        key
    }
}

/// `next` is a consistent position whose board is the one `m` leads to from `pos`.
pub open spec fn plays_to(pos: Position, m: Move, cs: Castling, next: Position) -> bool {
    &&& board_ok(next.bb)
    &&& forall|q: int| 0 <= q < 64 ==> #[trigger] cell(next.bb, q) == after_cell(pos, m, cs, q)
}

/// `m` fits `pos` and does not leave the king of the side that plays it attacked.
pub open spec fn legal_move(pos: Position, m: Move, cs: Castling) -> bool {
    let side = stm_of(pos);
    &&& move_ok(pos, m, cs)
    &&& exists|next: Position| #[trigger] plays_to(pos, m, cs, next) && !attacked_by(
        next.bb,
        king_sq(next.bb, side),
        side,
        next.bb[0] | next.bb[1],
    )
}

/// Two boards with the same cells are the same board.
pub proof fn lemma_cells_determine(a: [u64; 8], b: [u64; 8])
    requires
        board_ok(a),
        board_ok(b),
        forall|q: int| 0 <= q < 64 ==> #[trigger] cell(a, q) == cell(b, q),
    ensures
        a == b,
{
    assert forall|k: int, q: int| 0 <= k < 8 && 0 <= q < 64 implies #[trigger] on(a[k], q) == on(b[k], q) by {
        assert(cell(a, q) == cell(b, q));
        assert(on(a[0], q) || on(a[1], q) ==> piece_at(a, q) != 0);
        assert(on(b[0], q) || on(b[1], q) ==> piece_at(b, q) != 0);
        assert(!(on(a[0], q) && on(a[1], q)));
        assert(!(on(b[0], q) && on(b[1], q)));
        if k >= 2 {
            if on(a[k], q) {
                assert(piece_at(a, q) == k);
            }
            if on(b[k], q) {
                assert(piece_at(b, q) == k);
            }
        }
    }
    assert forall|k: int| 0 <= k < 8 implies a[k] == b[k] by {
        crate::bits::lemma_bb_ext(a[k], b[k]);
    }
    assert(a =~= b);
}

/// A move after which the board it leads to leaves the mover's king attacked is not legal.
pub proof fn lemma_not_legal(pos: Position, m: Move, cs: Castling, after: [u64; 8])
    requires
        board_ok(after),
        forall|q: int| 0 <= q < 64 ==> #[trigger] cell(after, q) == after_cell(pos, m, cs, q),
        attacked_by(after, king_sq(after, stm_of(pos)), stm_of(pos), after[0] | after[1]),
    ensures
        !legal_move(pos, m, cs),
{
    if legal_move(pos, m, cs) {
        let next = choose|next: Position| #[trigger] plays_to(pos, m, cs, next) && !attacked_by(
            next.bb,
            king_sq(next.bb, stm_of(pos)),
            stm_of(pos),
            next.bb[0] | next.bb[1],
        );
        lemma_cells_determine(next.bb, after);
    }
}

/// `next` is the position that playing `m` in `pos` leads to: its board, side to move, en
/// passant square, castling rights, half-move clock and check flag, with hashes and phase
/// that match its board.
pub open spec fn made(pos: Position, m: Move, cs: Castling, next: Position) -> bool {
    &&& next.wf()
    &&& forall|q: int| 0 <= q < 64 ==> #[trigger] cell(next.bb, q) == after_cell(pos, m, cs, q)
    &&& next.c == !pos.c
    &&& next.enp_sq == if m.flag == 1 { m.to ^ 8u8 } else { 0u8 }
    &&& next.rights == pos.rights & (cs.castle_mask[m.to as int] & cs.castle_mask[m.from as int])
    &&& next.halfm == if m.pc == 2 || m.spec_is_capture() { 0 } else { pos.halfm + 1 }
    &&& next.check == pos.check
}

/// The king of `side` is attacked on the board of `pos`.
pub open spec fn king_attacked(pos: Position, side: int) -> bool {
    attacked_by(pos.bb, king_sq(pos.bb, side), side, pos.bb[0] | pos.bb[1])
}

/// A move leads to one position only.
pub proof fn lemma_made_unique(pos: Position, m: Move, cs: Castling, a: Position, b: Position)
    requires
        made(pos, m, cs, a),
        made(pos, m, cs, b),
    ensures
        a == b,
{
    lemma_cells_determine(a.bb, b.bb);
}

/// The hash `curr` after `m` in `pos`, counting only the side to move, the moving piece and a
/// piece standing on the destination square.
pub open spec fn key_after_of(pos: Position, curr: u64, m: Move) -> u64 {
    let side = stm_of(pos);
    let base = curr ^ zkey(0) ^ zkey(piece_index(side, m.pc as int, m.from as int) as nat) ^ zkey(
        piece_index(side, m.pc as int, m.to as int) as nat,
    );
    let victim = piece_at(pos.bb, m.to as int);
    if m.spec_is_capture() && victim != 0 {
        base ^ zkey(piece_index(1 - side, victim, m.to as int) as nat)
    } else {
        base
    }
}

/// For a quiet move that keeps the castling rights, from a position without an en passant
/// square, the key predicted before the move is the hash of the position the move leads to.
pub proof fn lemma_key_after_quiet(pos: Position, next: Position, m: Move, cs: Castling)
    requires
        pos.wf(),
        next.wf(),
        move_ok(pos, m, cs),
        m.flag == 0,
        pos.enp_sq == 0,
        next.enp_sq == 0,
        next.c == !pos.c,
        next.rights == pos.rights,
        forall|q: int| 0 <= q < 64 ==> #[trigger] cell(next.bb, q) == after_cell(pos, m, cs, q),
    ensures
        next.full_hash() == key_after_of(pos, pos.full_hash(), m),
{
    let side = stm_of(pos);
    let f = m.from as int;
    let t = m.to as int;
    let c1 = cells_of(pos.bb);
    let c3 = cells_of(next.bb);
    let c2 = |q: int| if q == f { 0int } else { c1(q) };
    assert(f != t) by {
        assert(cell(pos.bb, f) == 8 * side + m.pc);
        assert(cell(pos.bb, t) == 0);
    }
    crate::position::lemma_fold_hash_one(c1, c2, f, false, 64);
    assert forall|q: int| 0 <= q < 64 && q != t implies #[trigger] c2(q) == c3(q) by {
        assert(c3(q) == after_cell(pos, m, cs, q));
    }
    crate::position::lemma_fold_hash_one(c2, c3, t, false, 64);
    let a = zkey(piece_index(side, m.pc as int, f) as nat);
    let b = zkey(piece_index(side, m.pc as int, t) as nat);
    assert(cell_key(c1(f), f, false) == a) by {
        assert((8 * side + m.pc) % 8 == m.pc && (8 * side + m.pc) / 8 == side);
    }
    assert(cell_key(c3(t), t, false) == b) by {
        assert(c3(t) == 8 * side + m.pc);
        assert((8 * side + m.pc) % 8 == m.pc && (8 * side + m.pc) / 8 == side);
    }
    assert(cell_key(0, f, false) == 0u64);
    assert(c2(t) == 0);
    assert(cell_key(0, t, false) == 0u64);
    let h = pos.hash;
    let ck = crate::zobrist::castling_key(pos.rights);
    let z = zkey(0);
    assert(next.hash == (h ^ (a ^ 0u64)) ^ (0u64 ^ b));
    let fl = m.flag;
    assert(fl == 0 ==> fl & 4 == 0) by (bit_vector);
    let cc: bool = pos.c;
    assert(((h ^ (a ^ 0u64)) ^ (0u64 ^ b)) ^ ck ^ (if cc { 0u64 } else { z }) == (h ^ ck ^ (if cc { z } else { 0u64 })) ^ z ^ a ^ b)
        by (bit_vector);
}

/// Castling rights never grow: the rights after a move are a subset of those before it.
pub proof fn lemma_rights_never_grow(before: Position, after: Position, m: Move, cs: Castling)
    requires
        m.wf(),
        after.rights == before.rights & (cs.castle_mask[m.to as int] & cs.castle_mask[m.from as int]),
    ensures
        after.rights & !before.rights == 0,
        after.rights <= before.rights,
{
    let r0 = before.rights;
    let mt = cs.castle_mask[m.to as int];
    let mf = cs.castle_mask[m.from as int];
    assert((r0 & (mt & mf)) & !r0 == 0 && (r0 & (mt & mf)) <= r0) by (bit_vector);
}

impl ZobristVals {
    /// Hashing value of the lowest right in `update`, when `current` holds one of them.
    pub fn castle_hash(&self, current: u8, update: u8) -> (r: u64)
        requires
            current & update != 0 ==> update.trailing_zeros() < 4,
        ensures
            r == if current & update == 0 {
                0u64
            } else {
                self.castle[update.trailing_zeros() as int]
            },
    {
        if current & update == 0 {
            return 0;
        }
        self.castle[update.trailing_zeros() as usize]
    }
}

} // verus!
