use vstd::prelude::*;
use crate::attacks::{pawn_att, piece_att, rank_of, Attacks};
use crate::bits::{btwn, btwn_spec, group_bits, lemma_pop_lsb, lemma_tz_sq_bb, on, sq_bb};
use crate::consts::{Flag, Piece, Rank, Rights, Side};
use crate::frc::Castling;
use crate::moves::{Move, MoveList};
use crate::position::{
    attacked_by, board_ok, cell, enp_victim, king_sq, move_ok, opp_non_king, piece_at, rook_from, rook_to,
    stm_of, Position,
};

verus! {

broadcast use group_bits;

/// Every move of the sequence fits the position.
pub open spec fn all_ok(s: Seq<Move>, pos: Position, cs: Castling) -> bool {
    forall|i: int| 0 <= i < s.len() ==> #[trigger] move_ok(pos, s[i], cs)
}

/// Every move of the sequence is a capture (en passant and capturing promotions included).
pub open spec fn all_captures(s: Seq<Move>) -> bool {
    forall|i: int| 0 <= i < s.len() ==> #[trigger] s[i].spec_is_capture()
}

/// The moves added after index `n` all start on `from` with piece `pc`, carry a flag from `lo`
/// to `hi` and end on a square of `targets`.
pub open spec fn segment_targets(s: Seq<Move>, n: int, from: int, targets: u64, lo: u8, hi: u8, pc: int) -> bool {
    forall|i: int| n <= i < s.len() ==> {
        let m = #[trigger] s[i];
        &&& m.from == from
        &&& m.pc == pc
        &&& lo <= m.flag <= hi
        &&& m.to < 64
        &&& on(targets, m.to as int)
    }
}

/// The move from `from` to `to` with flag `flag` and piece `pc`.
pub open spec fn mv(from: int, to: int, flag: int, pc: int) -> Move {
    Move { from: from as u8, to: to as u8, flag: flag as u8, pc: pc as u8 }
}

/// A list that starts with `a` holds every move that `a` holds.
proof fn lemma_keeps(a: Seq<Move>, b: Seq<Move>)
    requires
        a.len() <= b.len(),
        b.subrange(0, a.len() as int) == a,
    ensures
        forall|m: Move| #[trigger] a.contains(m) ==> b.contains(m),
{
    assert forall|m: Move| #[trigger] a.contains(m) implies b.contains(m) by {
        let i = choose|i: int| 0 <= i < a.len() && a[i] == m;
        assert(b[i] == b.subrange(0, a.len() as int)[i]);
    }
}

/// `m` moves a knight, bishop, rook, queen or king of the side to move to a square it attacks,
/// taking an enemy piece other than the king (capture flag) or, with `quiets`, onto an empty
/// square (quiet flag).
pub open spec fn piece_move(pos: Position, m: Move, quiets: bool) -> bool {
    let side = stm_of(pos);
    let bb = pos.bb;
    let f = m.from as int;
    let t = m.to as int;
    &&& 3 <= m.pc <= 7
    &&& m.from < 64
    &&& m.to < 64
    &&& cell(bb, f) == 8 * side + m.pc
    &&& piece_att(m.pc as int, f, bb[0] | bb[1], t)
    &&& ((m.flag == 4 && opp_non_king(cell(bb, t), 1 - side)) || (quiets && m.flag == 0 && cell(bb, t) == 0))
}

/// The rank from which a pawn of `side` promotes with its next move.
pub open spec fn pen_rank(side: int) -> int {
    if side == 0 {
        6
    } else {
        1
    }
}

/// `m` is a pawn capture of the side to move onto an enemy piece other than the king that the
/// pawn attacks: with the capture flag, or with a capturing promotion flag (12 to 15) from the
/// rank before the last.
pub open spec fn pawn_take(pos: Position, m: Move) -> bool {
    let side = stm_of(pos);
    let f = m.from as int;
    let t = m.to as int;
    &&& m.pc == 2
    &&& m.from < 64
    &&& m.to < 64
    &&& cell(pos.bb, f) == 8 * side + 2
    &&& pawn_att(side, f, t)
    &&& opp_non_king(cell(pos.bb, t), 1 - side)
    &&& if rank_of(f) == pen_rank(side) { 12 <= m.flag <= 15 } else { m.flag == 4 }
}

/// `m` is an en passant capture of the side to move: a pawn takes onto the en passant square,
/// which it attacks, which is empty, and behind which stands an enemy pawn.
pub open spec fn enp_take(pos: Position, m: Move) -> bool {
    let side = stm_of(pos);
    let f = m.from as int;
    let t = m.to as int;
    &&& m.pc == 2
    &&& m.flag == 5
    &&& m.from < 64
    &&& pos.enp_sq > 0
    &&& m.to == pos.enp_sq
    &&& cell(pos.bb, f) == 8 * side + 2
    &&& pawn_att(side, f, t)
    &&& cell(pos.bb, t) == 0
    &&& cell(pos.bb, enp_victim(m.to)) == 8 * (1 - side) + 2
}

/// `m` is a pawn push of the side to move: one square ahead onto an empty square, quiet or,
/// from the rank before the last, promoting (flags 8 to 11); or, from its starting rank, two
/// squares ahead over an empty square onto an empty square (double push flag).
pub open spec fn pawn_push(pos: Position, m: Move) -> bool {
    let side = stm_of(pos);
    let f = m.from as int;
    let t = m.to as int;
    &&& m.pc == 2
    &&& m.from < 64
    &&& m.to < 64
    &&& cell(pos.bb, f) == 8 * side + 2
    &&& {
        ||| (t == ahead(side, f, 8) && cell(pos.bb, t) == 0 && if rank_of(f) == pen_rank(side) {
            8 <= m.flag <= 11
        } else {
            m.flag == 0
        })
        ||| (m.flag == 1 && rank_of(f) == 5 * side + 1 && t == ahead(side, f, 16) && cell(pos.bb, ahead(side, f, 8)) == 0
            && cell(pos.bb, t) == 0)
    }
}

/// The squares a castling piece going from `a` to `b` needs free: those strictly between and
/// `b` itself; none when it stays where it is.
pub open spec fn crossing(a: int, b: int, s: int) -> bool {
    btwn_spec(a, b, s) != (s == b)
}

/// The square the king of `side` castles to, on the king side when `ks` is one.
pub open spec fn castle_to(side: int, ks: int) -> int {
    56 * side + if ks == 1 { 6int } else { 2int }
}

/// The castling right of `side` on the king side (`ks` one) or the queen side.
pub open spec fn castle_right(side: int, ks: int) -> u8 {
    if side == 0 {
        if ks == 1 { 4u8 } else { 8u8 }
    } else {
        if ks == 1 { 1u8 } else { 2u8 }
    }
}

/// The side to move, with its king on `kf`, may castle on the king side (`ks` one) or the
/// queen side: it holds the right, its king is not attacked, its castling rook stands on its
/// square, the squares king and rook need are free but for these two pieces, and the king
/// crosses no attacked square.
pub open spec fn castle_ok(pos: Position, cs: Castling, ks: int, kf: int) -> bool {
    let side = stm_of(pos);
    let kt = castle_to(side, ks);
    let rf = rook_from(cs, side, ks);
    let rt = rook_to(side, ks);
    let occ = pos.bb[0] | pos.bb[1];
    &&& pos.rights & castle_right(side, ks) != 0
    &&& cell(pos.bb, rf) == 8 * side + 5
    &&& forall|s: int| 0 <= s < 64 && s != rf && #[trigger] crossing(kf, kt, s) ==> cell(pos.bb, s) == 0
    &&& forall|s: int| 0 <= s < 64 && s != kf && #[trigger] crossing(rf, rt, s) ==> cell(pos.bb, s) == 0
    &&& forall|s: int| 0 <= s < 64 && #[trigger] btwn_spec(kf, kt, s) ==> !attacked_by(pos.bb, s, side, occ)
}

/// `m` castles: the king of the side to move goes to the castling square of its side
/// (king side flag 2, queen side flag 3), which the position allows and its king is not in
/// check.
pub open spec fn castle_move(pos: Position, cs: Castling, m: Move) -> bool {
    let side = stm_of(pos);
    let ks = if m.flag == 2 { 1int } else { 0int };
    let kf = king_sq(pos.bb, side);
    &&& m.pc == 7
    &&& (m.flag == 2 || m.flag == 3)
    &&& m.from as int == kf
    &&& m.to as int == castle_to(side, ks)
    &&& !attacked_by(pos.bb, kf, side, pos.bb[0] | pos.bb[1])
    &&& castle_ok(pos, cs, ks, kf)
}

/// The occupancy without the piece on `o` misses the squares a piece going from `x` to `y`
/// needs exactly when all of them but `o` are unoccupied.
proof fn lemma_free(occ: u64, o: int, x: int, y: int, path: u64)
    requires
        0 <= o < 64,
        0 <= y < 64,
        on(occ, o),
        forall|s: int| #[trigger] on(path, s) == (0 <= s < 64 && btwn_spec(x, y, s)),
    ensures
        ((occ ^ sq_bb(o)) & (path ^ sq_bb(y)) == 0) == (forall|s: int| 0 <= s < 64 && s != o && #[trigger] crossing(x, y, s) ==> !on(occ, s)),
{
    let f = (occ ^ sq_bb(o)) & (path ^ sq_bb(y));
    crate::bits::lemma_bb_empty(f);
    assert forall|s: int| 0 <= s < 64 implies #[trigger] on(f, s) == ((on(occ, s) != (s == o)) && crossing(x, y, s)) by {}
    if f == 0 {
        assert forall|s: int| 0 <= s < 64 && s != o && #[trigger] crossing(x, y, s) implies !on(occ, s) by {
            assert(!on(f, s));
        }
    } else {
        let t = choose|t: int| 0 <= t < 64 && on(f, t);
        assert(on(f, t));
        assert(t != o);
        assert(crossing(x, y, t) && on(occ, t));
    }
}

/// The rank masks hold the squares of their ranks.
proof fn lemma_rank_masks(s: u64)
    by (bit_vector)
    ensures
        s < 64 ==> (((0xFF000000u64 >> s) & 1u64 == 1u64) == (24 <= s < 32)),
        s < 64 ==> (((0xFF00000000u64 >> s) & 1u64 == 1u64) == (32 <= s < 40)),
        s < 64 ==> (((0xFF000000000000u64 >> s) & 1u64 == 1u64) == (48 <= s < 56)),
        s < 64 ==> (((0xFF00u64 >> s) & 1u64 == 1u64) == (8 <= s < 16)),
{
}

/// The squares of the masks of the ranks a double push lands on are those ranks.
proof fn lemma_dbl(side: int, f: int)
    requires
        0 <= side < 2,
        0 <= f < 64,
    ensures
        on(Rank::DBL[side], f) == (rank_of(f) == side + 3),
{
    lemma_rank_masks(f as u64);
}

/// The squares of the masks of the ranks before the last are those ranks.
proof fn lemma_pen(side: int, f: int)
    requires
        0 <= side < 2,
        0 <= f < 64,
    ensures
        on(Rank::PEN[side], f) == (rank_of(f) == pen_rank(side)),
{
    lemma_rank_masks(f as u64);
}

/// The moves the generator owes the side to move: captures of every kind and, with `quiets`,
/// castling, pawn pushes and quiet piece moves.
pub open spec fn gen_move(pos: Position, cs: Castling, m: Move, quiets: bool) -> bool {
    ||| piece_move(pos, m, quiets)
    ||| pawn_take(pos, m)
    ||| enp_take(pos, m)
    ||| quiets && pawn_push(pos, m)
    ||| quiets && castle_move(pos, cs, m)
}

/// Every move of the sequence is one the generator owes.
pub open spec fn all_gen(s: Seq<Move>, pos: Position, cs: Castling, quiets: bool) -> bool {
    forall|i: int| 0 <= i < s.len() ==> #[trigger] gen_move(pos, cs, s[i], quiets)
}

/// A list that extends one of owed moves with owed moves holds only owed moves.
proof fn lemma_extend_gen(v0: Seq<Move>, v1: Seq<Move>, pos: Position, cs: Castling, q: bool)
    requires
        v0.len() <= v1.len(),
        v1.subrange(0, v0.len() as int) == v0,
        all_gen(v0, pos, cs, q),
        forall|i: int| v0.len() <= i < v1.len() ==> #[trigger] gen_move(pos, cs, v1[i], q),
    ensures
        all_gen(v1, pos, cs, q),
{
    assert forall|i: int| 0 <= i < v1.len() implies #[trigger] gen_move(pos, cs, v1[i], q) by {
        if i < v0.len() {
            assert(v1[i] == v1.subrange(0, v0.len() as int)[i]);
        }
    }
}

/// The moves owed to the side to move can be listed in fewer than 252 entries.
pub open spec fn owed_fit(pos: Position, cs: Castling, quiets: bool) -> bool {
    exists|s: Seq<Move>| s.len() < 252 && forall|m: Move| #[trigger] gen_move(pos, cs, m, quiets) ==> s.contains(m)
}

/// A list of owed moves without repeats is no longer than any list holding all owed moves.
pub proof fn lemma_fit(list: Seq<Move>, pos: Position, cs: Castling, quiets: bool)
    requires
        list.no_duplicates(),
        all_gen(list, pos, cs, quiets),
    ensures
        owed_fit(pos, cs, quiets) ==> list.len() < 252,
{
    if owed_fit(pos, cs, quiets) {
        let s = choose|s: Seq<Move>| s.len() < 252 && forall|m: Move| #[trigger] gen_move(pos, cs, m, quiets) ==> s.contains(m);
        list.unique_seq_to_set();
        s.lemma_cardinality_of_set();
        assert forall|m: Move| #[trigger] list.to_set().contains(m) implies s.to_set().contains(m) by {
            let i = choose|i: int| 0 <= i < list.len() && list[i] == m;
            assert(gen_move(pos, cs, list[i], quiets));
            assert(s.contains(m));
        }
        vstd::set_lib::lemma_len_subset(list.to_set(), s.to_set());
    }
}

/// What the cells say, the bitboards hold.
proof fn lemma_cell_bits(bb: [u64; 8], q: int)
    requires
        board_ok(bb),
        0 <= q < 64,
    ensures
        forall|side: int, p: int| 0 <= side < 2 && 2 <= p < 8 && #[trigger] cell(bb, q) == 8 * side + p
            ==> on(bb[side], q) && on(bb[p], q),
        cell(bb, q) == 0 ==> !on(bb[0] | bb[1], q),
        forall|opp: int| 0 <= opp < 2 && #[trigger] opp_non_king(cell(bb, q), opp)
            ==> on(bb[opp] & !bb[7], q),
{
    assert(on(bb[0], q) || on(bb[1], q) ==> piece_at(bb, q) != 0);
    assert(!(on(bb[0], q) && on(bb[1], q)));
    if on(bb[7], q) {
        assert(piece_at(bb, q) == 7);
    }
}

/// `m` starts on `from` with piece `pc` and carries a flag from `lo` to `hi`.
pub open spec fn same_kind(m: Move, from: int, lo: u8, hi: u8, pc: int) -> bool {
    m.from == from && m.pc == pc && lo <= m.flag <= hi
}

/// `m` moves a pawn and carries a flag from `lo` to `hi`.
pub open spec fn pawn_kind(m: Move, lo: u8, hi: u8) -> bool {
    m.pc == 2 && lo <= m.flag <= hi
}

/// Which part of the generator makes moves like `m`: castling (0), pawn pushes (1), en
/// passant (2), other pawn captures (3), piece moves (4).
pub open spec fn gen_kind(m: Move) -> int {
    if m.pc == 7 && (m.flag == 2 || m.flag == 3) {
        0
    } else if m.pc == 2 && (m.flag == 0 || m.flag == 1 || 8 <= m.flag <= 11) {
        1
    } else if m.pc == 2 && m.flag == 5 {
        2
    } else if m.pc == 2 {
        3
    } else {
        4
    }
}

/// Appending a move that a list without repeats lacks keeps it without repeats.
proof fn lemma_push_nodup(s: Seq<Move>, x: Move)
    requires
        s.no_duplicates(),
        forall|i: int| 0 <= i < s.len() ==> s[i] != x,
    ensures
        s.push(x).no_duplicates(),
{
    let t = s.push(x);
    assert forall|i: int, j: int| 0 <= i < t.len() && 0 <= j < t.len() && i != j implies t[i] != t[j] by {
        if i < s.len() && j < s.len() {
            assert(t[i] == s[i] && t[j] == s[j]);
        }
    }
}

/// Adds, for every square of `targets` (lowest first) and every flag from `lo` to `hi`, the
/// move from `from` to that square; moves that do not fit into the list are dropped.
fn encode(moves: &mut MoveList, targets: u64, from: u8, lo: u8, hi: u8, pc: usize)
    requires
        from < 64,
        lo <= hi < 16,
        2 <= pc < 8,
    ensures
        old(moves)@.no_duplicates() && (forall|i: int| 0 <= i < old(moves)@.len() ==> !same_kind(#[trigger] old(moves)@[i], from as int, lo, hi, pc as int))
            ==> final(moves)@.no_duplicates(),
        old(moves)@.len() <= final(moves)@.len(),
        final(moves)@.subrange(0, old(moves)@.len() as int) == old(moves)@,
        segment_targets(final(moves)@, old(moves)@.len() as int, from as int, targets, lo, hi, pc as int),
        final(moves)@.len() < 252 ==> forall|t: int, fl: int| on(targets, t) && lo <= fl <= hi
            ==> #[trigger] final(moves)@.contains(mv(from as int, t, fl, pc as int)),
{
    let ghost n0 = moves@.len();
    let ghost v0 = moves@;
    let ghost nd = moves@.no_duplicates() && (forall|i: int| 0 <= i < moves@.len() ==> !same_kind(#[trigger] moves@[i], from as int, lo, hi, pc as int));
    let mut bb = targets;
    while bb != 0
        invariant
            from < 64,
            lo <= hi < 16,
            2 <= pc < 8,
            n0 <= moves@.len(),
            moves@.subrange(0, n0 as int) == v0,
            forall|s: int| on(bb, s) ==> on(targets, s),
            segment_targets(moves@, n0 as int, from as int, targets, lo, hi, pc as int),
            moves@.len() < 252 ==> forall|t: int, fl: int| on(targets, t) && !on(bb, t) && lo <= fl <= hi
                ==> #[trigger] moves@.contains(mv(from as int, t, fl, pc as int)),
            nd ==> moves@.no_duplicates(),
            nd ==> forall|i: int| 0 <= i < n0 ==> !same_kind(#[trigger] moves@[i], from as int, lo, hi, pc as int),
            forall|i: int| n0 <= i < moves@.len() ==> !on(bb, #[trigger] moves@[i].to as int),
        decreases bb,
    {
        proof {
            lemma_pop_lsb(bb);
        }
        let ghost pbb = bb;
        let ghost start = moves@;
        let to = bb.trailing_zeros() as u8;
        bb = bb & (bb - 1);
        let mut flag = lo;
        while flag <= hi
            invariant
                from < 64,
                lo <= flag <= hi + 1,
                hi < 16,
                2 <= pc < 8,
                to < 64,
                on(targets, to as int),
                n0 <= moves@.len(),
                moves@.subrange(0, n0 as int) == v0,
                start.len() <= moves@.len(),
                moves@.subrange(0, start.len() as int) == start,
                segment_targets(moves@, n0 as int, from as int, targets, lo, hi, pc as int),
                moves@.len() < 252 ==> forall|fl: int| lo <= fl < flag ==> #[trigger] moves@.contains(mv(from as int, to as int, fl, pc as int)),
                nd ==> moves@.no_duplicates(),
                nd ==> forall|i: int| 0 <= i < n0 ==> !same_kind(#[trigger] moves@[i], from as int, lo, hi, pc as int),
                forall|i: int| n0 <= i < start.len() ==> !on(pbb, #[trigger] moves@[i].to as int),
                forall|i: int| start.len() <= i < moves@.len() ==> (#[trigger] moves@[i]).to == to && moves@[i].flag < flag,
                on(pbb, to as int),
                forall|s: int| on(bb, s) ==> on(pbb, s),
                !on(bb, to as int),
            decreases hi + 1 - flag,
        {
            if moves.len() < 252 {
                let ghost before = moves@;
                proof {
                    if nd {
                        assert forall|i: int| 0 <= i < before.len() implies before[i] != mv(from as int, to as int, flag as int, pc as int) by {
                            if i < n0 {
                                assert(!same_kind(before[i], from as int, lo, hi, pc as int));
                            } else if i < start.len() {
                                assert(!on(pbb, before[i].to as int));
                            } else {
                                assert(before[i].flag < flag);
                            }
                        }
                        lemma_push_nodup(before, mv(from as int, to as int, flag as int, pc as int));
                    }
                }
                moves.push(from, to, flag, pc);
                assert(moves@.subrange(0, n0 as int) =~= before.subrange(0, n0 as int));
                assert(moves@.subrange(0, start.len() as int) =~= before.subrange(0, start.len() as int));
                proof {
                    assert(moves@.subrange(0, before.len() as int) =~= before);
                    assert(moves@[before.len() as int] == mv(from as int, to as int, flag as int, pc as int));
                    assert(moves@.contains(mv(from as int, to as int, flag as int, pc as int)));
                    lemma_keeps(before, moves@);
                    assert forall|fl: int| lo <= fl < flag + 1 implies #[trigger] moves@.contains(mv(from as int, to as int, fl, pc as int)) by {
                        if fl < flag {
                            assert(before.contains(mv(from as int, to as int, fl, pc as int)));
                        }
                    }
                    assert forall|i: int| start.len() <= i < moves@.len() implies (#[trigger] moves@[i]).to == to && moves@[i].flag < flag + 1 by {
                        if i < before.len() {
                            assert(moves@[i] == before[i]);
                        }
                    }
                    assert forall|i: int| n0 <= i < start.len() implies !on(pbb, #[trigger] moves@[i].to as int) by {
                        assert(moves@[i] == before[i]);
                    }
                    if nd {
                        assert forall|i: int| 0 <= i < n0 implies !same_kind(#[trigger] moves@[i], from as int, lo, hi, pc as int) by {
                            assert(moves@[i] == before[i]);
                        }
                    }
                }
            }
            flag += 1;
        }
        proof {
            lemma_keeps(start, moves@);
            assert forall|t: int, fl: int| moves@.len() < 252 && on(targets, t) && !on(bb, t) && lo <= fl <= hi
                implies #[trigger] moves@.contains(mv(from as int, t, fl, pc as int)) by {
                if t != to {
                    assert(!on(pbb, t));
                    assert(start.contains(mv(from as int, t, fl, pc as int)));
                }
            }
            assert forall|i: int| n0 <= i < moves@.len() implies !on(bb, #[trigger] moves@[i].to as int) by {
                if i < start.len() {
                    assert(!on(pbb, moves@[i].to as int));
                }
            }
        }
    }
}

/// The square `dist` squares ahead of `f` for `side`.
pub open spec fn ahead(side: int, f: int, dist: int) -> int {
    if side == 0 {
        f + dist
    } else {
        f - dist
    }
}

/// Adds, for every square of `froms` (lowest first), the pawn move to the square `dist` ranks
/// ahead for `side`, with every flag from `lo` to `hi`; moves that do not fit are dropped.
fn push_pawns(moves: &mut MoveList, froms: u64, side: usize, dist: u8, lo: u8, hi: u8)
    requires
        side < 2,
        dist == 8 || dist == 16,
        lo <= hi < 16,
        forall|s: int| #[trigger] on(froms, s) ==> if side == 0 { s + dist < 64 } else { s >= dist },
    ensures
        old(moves)@.no_duplicates() && (forall|i: int| 0 <= i < old(moves)@.len() ==> !pawn_kind(#[trigger] old(moves)@[i], lo, hi))
            ==> final(moves)@.no_duplicates(),
        old(moves)@.len() <= final(moves)@.len(),
        final(moves)@.subrange(0, old(moves)@.len() as int) == old(moves)@,
        forall|i: int| old(moves)@.len() <= i < final(moves)@.len() ==> {
            let m = #[trigger] final(moves)@[i];
            &&& m.pc == 2
            &&& lo <= m.flag <= hi
            &&& on(froms, m.from as int)
            &&& m.from < 64
            &&& m.to as int == if side == 0 { m.from + dist } else { m.from - dist }
        },
        final(moves)@.len() < 252 ==> forall|f: int, fl: int| on(froms, f) && lo <= fl <= hi
            ==> #[trigger] final(moves)@.contains(mv(f, ahead(side as int, f, dist as int), fl, 2)),
{
    let ghost n0 = moves@.len();
    let ghost v0 = moves@;
    let ghost nd = moves@.no_duplicates() && (forall|i: int| 0 <= i < moves@.len() ==> !pawn_kind(#[trigger] moves@[i], lo, hi));
    let mut bb = froms;
    while bb != 0
        invariant
            side < 2,
            dist == 8 || dist == 16,
            lo <= hi < 16,
            forall|s: int| #[trigger] on(froms, s) ==> if side == 0 { s + dist < 64 } else { s >= dist },
            n0 <= moves@.len(),
            moves@.subrange(0, n0 as int) == v0,
            forall|s: int| on(bb, s) ==> on(froms, s),
            forall|i: int| n0 <= i < moves@.len() ==> {
                let m = #[trigger] moves@[i];
                &&& m.pc == 2
                &&& lo <= m.flag <= hi
                &&& on(froms, m.from as int)
                &&& m.from < 64
                &&& m.to as int == if side == 0 { m.from + dist } else { m.from - dist }
            },
            moves@.len() < 252 ==> forall|f: int, fl: int| on(froms, f) && !on(bb, f) && lo <= fl <= hi
                ==> #[trigger] moves@.contains(mv(f, ahead(side as int, f, dist as int), fl, 2)),
            nd ==> moves@.no_duplicates(),
            nd ==> forall|i: int| 0 <= i < n0 ==> !pawn_kind(#[trigger] moves@[i], lo, hi),
            forall|i: int| n0 <= i < moves@.len() ==> !on(bb, #[trigger] moves@[i].from as int),
        decreases bb,
    {
        proof {
            lemma_pop_lsb(bb);
        }
        let ghost pbb = bb;
        let ghost start = moves@;
        let from = bb.trailing_zeros() as u8;
        bb = bb & (bb - 1);
        assert(on(froms, from as int));
        let to = idx_shift(side, from, dist);
        let mut flag = lo;
        while flag <= hi
            invariant
                side < 2,
                lo <= flag <= hi + 1,
                hi < 16,
                from < 64,
                on(froms, from as int),
                to as int == if side == 0 { from + dist } else { from - dist },
                n0 <= moves@.len(),
                moves@.subrange(0, n0 as int) == v0,
                start.len() <= moves@.len(),
                moves@.subrange(0, start.len() as int) == start,
                forall|i: int| n0 <= i < moves@.len() ==> {
                    let m = #[trigger] moves@[i];
                    &&& m.pc == 2
                    &&& lo <= m.flag <= hi
                    &&& on(froms, m.from as int)
                    &&& m.from < 64
                    &&& m.to as int == if side == 0 { m.from + dist } else { m.from - dist }
                },
                moves@.len() < 252 ==> forall|fl: int| lo <= fl < flag ==> #[trigger] moves@.contains(mv(from as int, to as int, fl, 2)),
                nd ==> moves@.no_duplicates(),
                nd ==> forall|i: int| 0 <= i < n0 ==> !pawn_kind(#[trigger] moves@[i], lo, hi),
                forall|i: int| n0 <= i < start.len() ==> !on(pbb, #[trigger] moves@[i].from as int),
                forall|i: int| start.len() <= i < moves@.len() ==> (#[trigger] moves@[i]).from == from && moves@[i].flag < flag,
                on(pbb, from as int),
                forall|s: int| on(bb, s) ==> on(pbb, s),
                !on(bb, from as int),
            decreases hi + 1 - flag,
        {
            if moves.len() < 252 {
                let ghost before = moves@;
                proof {
                    if nd {
                        assert forall|i: int| 0 <= i < before.len() implies before[i] != mv(from as int, to as int, flag as int, 2) by {
                            if i < n0 {
                                assert(!pawn_kind(before[i], lo, hi));
                            } else if i < start.len() {
                                assert(!on(pbb, before[i].from as int));
                            } else {
                                assert(before[i].flag < flag);
                            }
                        }
                        lemma_push_nodup(before, mv(from as int, to as int, flag as int, 2));
                    }
                }
                moves.push(from, to, flag, Piece::PAWN);
                assert(moves@.subrange(0, n0 as int) =~= before.subrange(0, n0 as int));
                assert(moves@.subrange(0, start.len() as int) =~= before.subrange(0, start.len() as int));
                proof {
                    assert(moves@.subrange(0, before.len() as int) =~= before);
                    assert(moves@[before.len() as int] == mv(from as int, to as int, flag as int, 2));
                    assert(moves@.contains(mv(from as int, to as int, flag as int, 2)));
                    lemma_keeps(before, moves@);
                    assert forall|fl: int| lo <= fl < flag + 1 implies #[trigger] moves@.contains(mv(from as int, to as int, fl, 2)) by {
                        if fl < flag {
                            assert(before.contains(mv(from as int, to as int, fl, 2)));
                        }
                    }
                    assert forall|i: int| start.len() <= i < moves@.len() implies (#[trigger] moves@[i]).from == from && moves@[i].flag < flag + 1 by {
                        if i < before.len() {
                            assert(moves@[i] == before[i]);
                        }
                    }
                    assert forall|i: int| n0 <= i < start.len() implies !on(pbb, #[trigger] moves@[i].from as int) by {
                        assert(moves@[i] == before[i]);
                    }
                    if nd {
                        assert forall|i: int| 0 <= i < n0 implies !pawn_kind(#[trigger] moves@[i], lo, hi) by {
                            assert(moves@[i] == before[i]);
                        }
                    }
                }
            }
            flag += 1;
        }
        proof {
            lemma_keeps(start, moves@);
            assert forall|f: int, fl: int| moves@.len() < 252 && on(froms, f) && !on(bb, f) && lo <= fl <= hi
                implies #[trigger] moves@.contains(mv(f, ahead(side as int, f, dist as int), fl, 2)) by {
                if f != from {
                    assert(!on(pbb, f));
                    assert(start.contains(mv(f, ahead(side as int, f, dist as int), fl, 2)));
                }
            }
            assert forall|i: int| n0 <= i < moves@.len() implies !on(bb, #[trigger] moves@[i].from as int) by {
                if i < start.len() {
                    assert(!on(pbb, moves@[i].from as int));
                }
            }
        }
    }
}

/// A square of the side to move's pieces of kind `p` holds such a piece.
proof fn lemma_cell_own(bb: [u64; 8], side: int, p: int, q: int)
    requires
        board_ok(bb),
        0 <= side < 2,
        2 <= p < 8,
        0 <= q < 64,
        on(bb[side], q),
        on(bb[p], q),
    ensures
        cell(bb, q) == 8 * side + p,
{
    assert(piece_at(bb, q) == p);
}

/// An unoccupied square is empty.
proof fn lemma_cell_empty(bb: [u64; 8], q: int)
    requires
        board_ok(bb),
        0 <= q < 64,
        !on(bb[0], q),
        !on(bb[1], q),
    ensures
        cell(bb, q) == 0,
{
}

/// A square of the opponent's pieces that holds no king holds an enemy piece other than the
/// king.
proof fn lemma_cell_opp(bb: [u64; 8], opp: int, q: int)
    requires
        board_ok(bb),
        0 <= opp < 2,
        0 <= q < 64,
        on(bb[opp], q),
        !on(bb[7], q),
    ensures
        opp_non_king(cell(bb, q), opp),
{
    if piece_at(bb, q) == 7 {
        assert(on(bb[7], q));
    }
    assert(!(on(bb[0], q) && on(bb[1], q)));
}

/// When the occupancy without square `a` misses the path `path` plus square `t`, and `t` is not
/// on the path, then `t` is empty or is `a`.
proof fn lemma_clear(bb: [u64; 8], occ: u64, a: int, path: u64, t: int)
    requires
        board_ok(bb),
        occ == bb[0] | bb[1],
        0 <= a < 64,
        0 <= t < 64,
        !on(path, t),
        (occ ^ sq_bb(a)) & (path ^ sq_bb(t)) == 0,
    ensures
        cell(bb, t) == 0 || t == a,
{
    assert(on(path ^ sq_bb(t), t));
    assert(!on((occ ^ sq_bb(a)) & (path ^ sq_bb(t)), t));
    if t != a {
        lemma_cell_empty(bb, t);
    }
}

/// Square `idx` moved `AMOUNT` ranks' worth of squares forward for `side`.
fn idx_shift(side: usize, idx: u8, amount: u8) -> (r: u8)
    requires
        side < 2,
        side == 0 ==> idx + amount < 256,
        side == 1 ==> idx >= amount,
    ensures
        r == if side == 0 { idx + amount } else { idx - amount },
{
    if side == Side::WHITE {
        idx + amount
    } else {
        idx - amount
    }
}

/// A bitboard moved one rank backwards for `side` (towards its own back rank).
fn shift(side: usize, bb: u64) -> (r: u64)
    requires
        side < 2,
    ensures
        forall|s: int| #[trigger] on(r, s) == if side == 0 { 0 <= s && on(bb, s + 8) } else { s < 64 && on(bb, s - 8) },
{
    if side == Side::WHITE {
        bb >> 8u64
    } else {
        bb << 8u64
    }
}

impl Position {
    /// Generates the pseudo-legal moves: captures (en passant and capturing promotions
    /// included) and, with `QUIETS`, castling, pawn pushes and quiet piece moves. Kings are
    /// never captured, en passant needs the pawn to take, castling needs its rook, and moves
    /// beyond the 252 the list holds are dropped.
    pub fn movegen<const QUIETS: bool>(&self, castling: &Castling) -> (moves: MoveList)
        requires
            self.wf(),
            self.has_kings(),
            castling.wf(),
        ensures
            all_ok(moves@, *self, *castling),
            !QUIETS ==> all_captures(moves@),
            all_gen(moves@, *self, *castling, QUIETS),
            moves@.no_duplicates(),
            moves@.len() < 252 ==> forall|m: Move| #[trigger] gen_move(*self, *castling, m, QUIETS) ==> moves@.contains(m),
            owed_fit(*self, *castling, QUIETS) ==> moves@.len() < 252,
    {
        let mut moves = MoveList::zeroed();
        let side = self.stm();
        let occ = self.bb[0] | self.bb[1];
        let opps = self.bb[1 - side] & !self.bb[Piece::KING];
        let ghost v0 = moves@;
        assert(all_gen(v0, *self, *castling, QUIETS));
        if QUIETS {
            self.gen_castles(&mut moves, occ, castling);
        }
        let ghost v1 = moves@;
        if QUIETS {
            self.gen_pushes(&mut moves, occ, castling);
        }
        let ghost v2 = moves@;
        if self.enp_sq > 0 {
            self.gen_enp(&mut moves, castling);
        }
        let ghost v3 = moves@;
        self.gen_pawn_caps(&mut moves, opps, castling);
        let ghost v4 = moves@;
        self.gen_pieces(&mut moves, occ, opps, QUIETS, castling);
        proof {
            if !QUIETS {
                assert(v1 =~= v0.subrange(0, v0.len() as int));
                assert(v2 =~= v1.subrange(0, v1.len() as int));
            }
            if self.enp_sq == 0 {
                assert(v3 =~= v2.subrange(0, v2.len() as int));
            }
            assert(all_gen(v1, *self, *castling, QUIETS));
            assert(all_gen(v2, *self, *castling, QUIETS));
            assert(all_gen(v3, *self, *castling, QUIETS));
            assert(all_gen(v4, *self, *castling, QUIETS));
            assert(v1.no_duplicates() && forall|i: int| 0 <= i < v1.len() ==> gen_kind(#[trigger] v1[i]) < 1);
            assert(v2.no_duplicates() && forall|i: int| 0 <= i < v2.len() ==> gen_kind(#[trigger] v2[i]) < 2) by {
                assert forall|i: int| 0 <= i < v2.len() implies gen_kind(#[trigger] v2[i]) < 2 by {
                    if i < v1.len() {
                        assert(v2[i] == v2.subrange(0, v1.len() as int)[i]);
                    }
                }
            }
            assert(v3.no_duplicates() && forall|i: int| 0 <= i < v3.len() ==> gen_kind(#[trigger] v3[i]) < 3) by {
                assert forall|i: int| 0 <= i < v3.len() implies gen_kind(#[trigger] v3[i]) < 3 by {
                    if i < v2.len() {
                        assert(v3[i] == v3.subrange(0, v2.len() as int)[i]);
                    }
                }
            }
            assert(v4.no_duplicates() && forall|i: int| 0 <= i < v4.len() ==> gen_kind(#[trigger] v4[i]) < 4) by {
                assert forall|i: int| 0 <= i < v4.len() implies gen_kind(#[trigger] v4[i]) < 4 by {
                    if i < v3.len() {
                        assert(v4[i] == v4.subrange(0, v3.len() as int)[i]);
                    }
                }
            }
            assert(moves@.no_duplicates());
            lemma_fit(moves@, *self, *castling, QUIETS);
            lemma_keeps(v0, v1);
            lemma_keeps(v1, v2);
            lemma_keeps(v2, v3);
            lemma_keeps(v3, v4);
            lemma_keeps(v4, moves@);
            assert forall|m: Move| moves@.len() < 252 && #[trigger] gen_move(*self, *castling, m, QUIETS) implies moves@.contains(m) by {
                if piece_move(*self, m, QUIETS) {
                } else if pawn_take(*self, m) {
                    assert(v4.contains(m));
                } else if enp_take(*self, m) {
                    assert(v3.contains(m));
                } else if QUIETS && pawn_push(*self, m) {
                    assert(v2.contains(m));
                } else {
                    assert(v1.contains(m));
                }
            }
        }
        moves
    }

    /// Adds the castling moves.
    fn gen_castles(&self, moves: &mut MoveList, occ: u64, castling: &Castling)
        requires
            self.wf(),
            self.has_kings(),
            castling.wf(),
            occ == self.bb[0] | self.bb[1],
            all_ok(old(moves)@, *self, *castling),
        ensures
            all_ok(final(moves)@, *self, *castling),
            old(moves)@.len() <= final(moves)@.len(),
            final(moves)@.subrange(0, old(moves)@.len() as int) == old(moves)@,
            final(moves)@.len() < 252 ==> forall|m: Move| #[trigger] castle_move(*self, *castling, m) ==> final(moves)@.contains(m),
            all_gen(old(moves)@, *self, *castling, true) ==> all_gen(final(moves)@, *self, *castling, true),
            old(moves)@.no_duplicates() && (forall|i: int| 0 <= i < old(moves)@.len() ==> gen_kind(#[trigger] old(moves)@[i]) != 0)
                ==> final(moves)@.no_duplicates(),
            forall|i: int| old(moves)@.len() <= i < final(moves)@.len() ==> gen_kind(#[trigger] final(moves)@[i]) == 0,
    {
        let ghost nd0 = moves@.no_duplicates() && (forall|i: int| 0 <= i < moves@.len() ==> gen_kind(#[trigger] moves@[i]) != 0);
        let ghost v0 = moves@;
        let ghost g0 = all_gen(moves@, *self, *castling, true);
        let side = self.stm();
        let wanted = if side == 0 { Rights::WHITE } else { Rights::BLACK };
        let ghost r = self.rights;
        proof {
            assert((r & 4u8 != 0 || r & 8u8 != 0 ==> r & 12u8 > 0) && (r & 1u8 != 0 || r & 2u8 != 0 ==> r & 3u8 > 0)) by (bit_vector);
            assert(moves@.subrange(0, v0.len() as int) =~= v0);
        }
        if self.rights & wanted > 0 && !self.in_check() {
            let kbb = self.bb[Piece::KING] & self.bb[side];
            proof {
                lemma_pop_lsb(kbb);
            }
            let ksq = kbb.trailing_zeros() as u8;
            proof {
                lemma_cell_own(self.bb, side as int, 7, ksq as int);
            }
            let (qs, ks, qto, kto, qrto, krto) = if self.c {
                (Rights::BQS, Rights::BKS, 58u8, 62u8, 59u8, 61u8)
            } else {
                (Rights::WQS, Rights::WKS, 2u8, 6u8, 3u8, 5u8)
            };
            if self.can_castle(qs, occ, ksq, qto, qrto, castling) && moves.len() < 252 {
                let ghost before = moves@;
                proof {
                    if nd0 {
                        assert forall|i: int| 0 <= i < before.len() implies before[i] != mv(ksq as int, qto as int, 3, 7) by {
                            assert(gen_kind(before[i]) != 0);
                        }
                        lemma_push_nodup(before, mv(ksq as int, qto as int, 3, 7));
                    }
                }
                moves.push(ksq, qto, Flag::QS, Piece::KING);
                proof {
                    assert forall|i: int| 0 <= i < moves@.len() implies #[trigger] move_ok(*self, moves@[i], *castling) by {
                        if i < before.len() {
                            assert(moves@[i] == before[i]);
                        }
                    }
                    assert(moves@.subrange(0, before.len() as int) =~= before);
                    assert(moves@[before.len() as int] == mv(ksq as int, qto as int, 3, 7));
                    assert(castle_move(*self, *castling, moves@[before.len() as int]));
                    if g0 {
                        lemma_extend_gen(before, moves@, *self, *castling, true);
                    }
                }
            }
            let ghost mid = moves@;
            assert(forall|i: int| v0.len() <= i < mid.len() ==> (#[trigger] mid[i]).flag == 3 && gen_kind(mid[i]) == 0);
            if self.can_castle(ks, occ, ksq, kto, krto, castling) && moves.len() < 252 {
                let ghost before = moves@;
                proof {
                    if nd0 {
                        assert forall|i: int| 0 <= i < before.len() implies before[i] != mv(ksq as int, kto as int, 2, 7) by {
                            if i < v0.len() {
                                assert(before[i] == before.subrange(0, v0.len() as int)[i]);
                                assert(gen_kind(v0[i]) != 0);
                            } else {
                                assert(before[i].flag == 3);
                            }
                        }
                        lemma_push_nodup(before, mv(ksq as int, kto as int, 2, 7));
                    }
                }
                moves.push(ksq, kto, Flag::KS, Piece::KING);
                proof {
                    assert forall|i: int| 0 <= i < moves@.len() implies #[trigger] move_ok(*self, moves@[i], *castling) by {
                        if i < before.len() {
                            assert(moves@[i] == before[i]);
                        }
                    }
                    assert(moves@.subrange(0, before.len() as int) =~= before);
                    assert(moves@[before.len() as int] == mv(ksq as int, kto as int, 2, 7));
                    assert(castle_move(*self, *castling, moves@[before.len() as int]));
                    if all_gen(before, *self, *castling, true) {
                        lemma_extend_gen(before, moves@, *self, *castling, true);
                    }
                }
            }
            proof {
                if mid.len() == moves@.len() {
                    assert(moves@.subrange(0, mid.len() as int) =~= mid);
                }
                lemma_keeps(mid, moves@);
                assert(moves@.subrange(0, v0.len() as int) =~= v0) by {
                    assert forall|k: int| 0 <= k < v0.len() implies moves@[k] == v0[k] by {
                        assert(moves@[k] == moves@.subrange(0, mid.len() as int)[k]);
                        if mid.len() > v0.len() {
                            assert(mid[k] == mid.subrange(0, v0.len() as int)[k]);
                        }
                    }
                }
                assert forall|m: Move| moves@.len() < 252 && #[trigger] castle_move(*self, *castling, m) implies moves@.contains(m) by {
                    if m.flag == 3 {
                        assert(m == mv(ksq as int, qto as int, 3, 7));
                        assert(mid.contains(m));
                    } else {
                        assert(m == mv(ksq as int, kto as int, 2, 7));
                    }
                }
            }
        } else {
            proof {
                assert forall|m: Move| #[trigger] castle_move(*self, *castling, m) implies false by {
                    assert(self.rights & castle_right(side as int, if m.flag == 2 { 1int } else { 0int }) != 0);
                }
            }
        }
    }

    /// Adds the pawn pushes: single pushes, quiet promotions and double pushes.
    #[verifier::rlimit(40)]
    fn gen_pushes(&self, moves: &mut MoveList, occ: u64, castling: &Castling)
        requires
            self.wf(),
            occ == self.bb[0] | self.bb[1],
            all_ok(old(moves)@, *self, *castling),
        ensures
            all_ok(final(moves)@, *self, *castling),
            old(moves)@.len() <= final(moves)@.len(),
            final(moves)@.subrange(0, old(moves)@.len() as int) == old(moves)@,
            final(moves)@.len() < 252 ==> forall|m: Move| #[trigger] pawn_push(*self, m) ==> final(moves)@.contains(m),
            all_gen(old(moves)@, *self, *castling, true) ==> all_gen(final(moves)@, *self, *castling, true),
            old(moves)@.no_duplicates() && (forall|i: int| 0 <= i < old(moves)@.len() ==> gen_kind(#[trigger] old(moves)@[i]) != 1)
                ==> final(moves)@.no_duplicates(),
            forall|i: int| old(moves)@.len() <= i < final(moves)@.len() ==> gen_kind(#[trigger] final(moves)@[i]) == 1,
    {
        let ghost g0 = all_gen(moves@, *self, *castling, true);
        let ghost nd0 = moves@.no_duplicates() && (forall|i: int| 0 <= i < moves@.len() ==> gen_kind(#[trigger] moves@[i]) != 1);
        let side = self.stm();
        let pawns = self.bb[Piece::PAWN] & self.bb[side];
        let empty = !occ;
        let landing = shift(side, empty & Rank::DBL[side]);
        let dbl = shift(side, landing & empty) & pawns;
        let push = shift(side, empty) & pawns;
        let promo = push & Rank::PEN[side];
        let push = push & !Rank::PEN[side];
        proof {
            assert forall|f: int| #[trigger] on(push, f) implies if side == 0 { f + 8 < 64 } else { f >= 8 } by {}
            assert forall|f: int| #[trigger] on(promo, f) implies if side == 0 { f + 8 < 64 } else { f >= 8 } by {}
            assert forall|f: int| #[trigger] on(dbl, f) implies if side == 0 { f + 16 < 64 } else { f >= 16 } by {}
        }
        let ghost v0 = moves@;
        proof {
            if nd0 {
                assert forall|i: int| 0 <= i < v0.len() implies !pawn_kind(#[trigger] v0[i], 0, 0) by {
                    assert(gen_kind(v0[i]) != 1);
                }
            }
        }
        push_pawns(moves, push, side, 8, Flag::QUIET, Flag::QUIET);
        proof {
            self.lemma_push_segment(v0, moves@, *castling, push, side as int, 8, Flag::QUIET, Flag::QUIET, occ);
        }
        let ghost v1 = moves@;
        proof {
            if nd0 {
                assert forall|i: int| 0 <= i < v1.len() implies !pawn_kind(#[trigger] v1[i], 8, 11) by {
                    if i < v0.len() {
                        assert(v1[i] == v1.subrange(0, v0.len() as int)[i]);
                        assert(gen_kind(v0[i]) != 1);
                    }
                }
            }
            if g0 {
                assert forall|i: int| v0.len() <= i < v1.len() implies #[trigger] gen_move(*self, *castling, v1[i], true) by {
                    let f = v1[i].from as int;
                    lemma_cell_own(self.bb, side as int, 2, f);
                    lemma_cell_empty(self.bb, ahead(side as int, f, 8));
                    lemma_pen(side as int, f);
                    assert(pawn_push(*self, v1[i]));
                }
                lemma_extend_gen(v0, v1, *self, *castling, true);
            }
        }
        push_pawns(moves, promo, side, 8, Flag::PROMO, Flag::QPR);
        proof {
            self.lemma_push_segment(v1, moves@, *castling, promo, side as int, 8, Flag::PROMO, Flag::QPR, occ);
        }
        let ghost v2 = moves@;
        proof {
            if nd0 {
                assert forall|i: int| 0 <= i < v2.len() implies !pawn_kind(#[trigger] v2[i], 1, 1) by {
                    if i < v1.len() {
                        assert(v2[i] == v2.subrange(0, v1.len() as int)[i]);
                        if i < v0.len() {
                            assert(v1[i] == v1.subrange(0, v0.len() as int)[i]);
                            assert(gen_kind(v0[i]) != 1);
                        }
                    }
                }
            }
            if g0 {
                assert forall|i: int| v1.len() <= i < v2.len() implies #[trigger] gen_move(*self, *castling, v2[i], true) by {
                    let f = v2[i].from as int;
                    lemma_cell_own(self.bb, side as int, 2, f);
                    lemma_cell_empty(self.bb, ahead(side as int, f, 8));
                    lemma_pen(side as int, f);
                    assert(pawn_push(*self, v2[i]));
                }
                lemma_extend_gen(v1, v2, *self, *castling, true);
            }
        }
        push_pawns(moves, dbl, side, 16, Flag::DBL, Flag::DBL);
        proof {
            self.lemma_push_segment(v2, moves@, *castling, dbl, side as int, 16, Flag::DBL, Flag::DBL, occ);
            if g0 {
                assert forall|i: int| v2.len() <= i < moves@.len() implies #[trigger] gen_move(*self, *castling, moves@[i], true) by {
                    let f = moves@[i].from as int;
                    let t1 = ahead(side as int, f, 8);
                    lemma_cell_own(self.bb, side as int, 2, f);
                    assert(on(landing & empty, t1));
                    lemma_cell_empty(self.bb, t1);
                    lemma_cell_empty(self.bb, moves@[i].to as int);
                    lemma_dbl(side as int, moves@[i].to as int);
                    assert(pawn_push(*self, moves@[i]));
                }
                lemma_extend_gen(v2, moves@, *self, *castling, true);
            }
            lemma_keeps(v0, v1);
            lemma_keeps(v1, v2);
            lemma_keeps(v2, moves@);
            assert forall|i: int| v0.len() <= i < moves@.len() implies gen_kind(#[trigger] moves@[i]) == 1 by {
                if i < v2.len() {
                    assert(moves@[i] == moves@.subrange(0, v2.len() as int)[i]);
                    if i < v1.len() {
                        assert(v2[i] == v2.subrange(0, v1.len() as int)[i]);
                    }
                }
            }
            assert(moves@.subrange(0, v0.len() as int) =~= v0) by {
                assert(moves@.subrange(0, v1.len() as int) == v1);
                assert(moves@.subrange(0, v2.len() as int) == v2);
                assert(v2.subrange(0, v1.len() as int) == v1);
                assert(v1.subrange(0, v0.len() as int) == v0);
                assert forall|k: int| 0 <= k < v0.len() implies moves@[k] == v0[k] by {
                    assert(moves@[k] == moves@.subrange(0, v2.len() as int)[k]);
                    assert(v2[k] == v2.subrange(0, v1.len() as int)[k]);
                    assert(v1[k] == v1.subrange(0, v0.len() as int)[k]);
                }
            }
            assert forall|m: Move| moves@.len() < 252 && #[trigger] pawn_push(*self, m) implies moves@.contains(m) by {
                let f = m.from as int;
                lemma_cell_bits(self.bb, f);
                lemma_pen(side as int, f);
                let t1 = ahead(side as int, f, 8);
                if 0 <= t1 < 64 {
                    lemma_cell_bits(self.bb, t1);
                }
                if m.flag == 1 && rank_of(f) == 5 * side + 1 && m.to as int == ahead(side as int, f, 16) {
                    lemma_cell_bits(self.bb, m.to as int);
                    lemma_dbl(side as int, m.to as int);
                    assert(on(pawns, f));
                    assert(on(empty, t1));
                    assert(on(empty & Rank::DBL[side as int], m.to as int));
                    assert(on(landing, t1));
                    assert(on(dbl, f));
                    assert(m == mv(f, ahead(side as int, f, 16), 1, 2));
                    assert(moves@.contains(mv(f, ahead(side as int, f, 16), 1, 2)));
                } else if rank_of(f) == pen_rank(side as int) {
                    lemma_cell_bits(self.bb, m.to as int);
                    assert(on(promo, f));
                    assert(m == mv(f, ahead(side as int, f, 8), m.flag as int, 2));
                    assert(v2.contains(mv(f, ahead(side as int, f, 8), m.flag as int, 2)));
                } else {
                    lemma_cell_bits(self.bb, m.to as int);
                    assert(on(push, f));
                    assert(m == mv(f, ahead(side as int, f, 8), 0, 2));
                    assert(v1.contains(mv(f, ahead(side as int, f, 8), 0, 2)));
                }
            }
        }
    }

    /// Pawn pushes from squares of pawns of the side to move to empty squares fit the position.
    proof fn lemma_push_segment(self, v0: Seq<Move>, v1: Seq<Move>, cs: Castling, froms: u64, side: int, dist: int, lo: u8, hi: u8, occ: u64)
        requires
            self.wf(),
            side == stm_of(self),
            occ == self.bb[0] | self.bb[1],
            all_ok(v0, self, cs),
            v0.len() <= v1.len(),
            v1.subrange(0, v0.len() as int) == v0,
            (lo == 0 && hi == 0) || (lo == 1 && hi == 1) || (lo == 8 && hi == 11),
            forall|f: int| #[trigger] on(froms, f) ==> on(self.bb[2], f) && on(self.bb[side], f),
            forall|f: int| #[trigger] on(froms, f) ==> {
                let t = if side == 0 { f + dist } else { f - dist };
                0 <= t < 64 && !on(occ, t)
            },
            forall|i: int| v0.len() <= i < v1.len() ==> {
                let m = #[trigger] v1[i];
                &&& m.pc == 2
                &&& lo <= m.flag <= hi
                &&& on(froms, m.from as int)
                &&& m.from < 64
                &&& m.to as int == if side == 0 { m.from + dist } else { m.from - dist }
            },
        ensures
            all_ok(v1, self, cs),
    {
        assert forall|i: int| 0 <= i < v1.len() implies #[trigger] move_ok(self, v1[i], cs) by {
            if i < v0.len() {
                assert(v1[i] == v1.subrange(0, v0.len() as int)[i]);
            } else {
                let m = v1[i];
                lemma_cell_own(self.bb, side, 2, m.from as int);
                lemma_cell_empty(self.bb, m.to as int);
            }
        }
    }

    /// Adds the en passant captures when the square behind the double-pushed pawn is empty and
    /// that pawn is there.
    fn gen_enp(&self, moves: &mut MoveList, castling: &Castling)
        requires
            self.wf(),
            0 < self.enp_sq,
            all_ok(old(moves)@, *self, *castling),
        ensures
            all_ok(final(moves)@, *self, *castling),
            all_captures(old(moves)@) ==> all_captures(final(moves)@),
            old(moves)@.len() <= final(moves)@.len(),
            final(moves)@.subrange(0, old(moves)@.len() as int) == old(moves)@,
            final(moves)@.len() < 252 ==> forall|m: Move| #[trigger] enp_take(*self, m) ==> final(moves)@.contains(m),
            forall|q: bool| #[trigger] all_gen(old(moves)@, *self, *castling, q) ==> all_gen(final(moves)@, *self, *castling, q),
            old(moves)@.no_duplicates() && (forall|i: int| 0 <= i < old(moves)@.len() ==> gen_kind(#[trigger] old(moves)@[i]) != 2)
                ==> final(moves)@.no_duplicates(),
            forall|i: int| old(moves)@.len() <= i < final(moves)@.len() ==> gen_kind(#[trigger] final(moves)@[i]) == 2,
    {
        let ghost nd0 = moves@.no_duplicates() && (forall|i: int| 0 <= i < moves@.len() ==> gen_kind(#[trigger] moves@[i]) != 2);
        let ghost caps0 = all_captures(moves@);
        let ghost gt = all_gen(moves@, *self, *castling, true);
        let ghost gf = all_gen(moves@, *self, *castling, false);
        let ghost v0 = moves@;
        let side = self.stm();
        let enp = self.enp_sq;
        let victim = enp ^ 8;
        proof {
            crate::bits::lemma_u8_xor8(enp);
        }
        let occ = self.bb[0] | self.bb[1];
        let vbit = 1u64 << victim;
        let ebit = 1u64 << enp;
        if occ & ebit != 0 || self.bb[Piece::PAWN] & self.bb[1 - side] & vbit == 0 {
            proof {
                assert(moves@.subrange(0, v0.len() as int) =~= v0);
                crate::bits::lemma_and_sq_bb(occ, enp as int);
                crate::bits::lemma_and_sq_bb(self.bb[2] & self.bb[1 - side], victim as int);
                lemma_cell_bits(self.bb, enp as int);
                lemma_cell_bits(self.bb, victim as int);
                assert(enp_victim(enp) == victim as int);
                assert forall|m: Move| #[trigger] enp_take(*self, m) implies false by {
                    assert(cell(self.bb, victim as int) == 8 * (1 - side) + 2);
                }
            }
            return;
        }
        proof {
            crate::bits::lemma_and_sq_bb(occ, enp as int);
            crate::bits::lemma_and_sq_bb(self.bb[2] & self.bb[1 - side], victim as int);
            lemma_cell_empty(self.bb, enp as int);
            lemma_cell_own(self.bb, 1 - side, 2, victim as int);
        }
        let pawns = self.bb[Piece::PAWN] & self.bb[side];
        let mut bb = Attacks::pawn(1 - side, enp as usize) & pawns;
        proof {
            assert forall|f: int| on(bb, f) implies pawn_att(side as int, f, enp as int) by {
                assert(pawn_att(1 - side as int, enp as int, f));
            }
            assert forall|m: Move| #[trigger] enp_take(*self, m) implies on(bb, m.from as int) by {
                lemma_cell_bits(self.bb, m.from as int);
                assert(pawn_att(1 - side, enp as int, m.from as int));
            }
        }
        while bb != 0
            invariant
                self.wf(),
                side == stm_of(*self),
                enp == self.enp_sq,
                0 < enp < 64,
                victim == enp ^ 8u8,
                cell(self.bb, enp as int) == 0,
                cell(self.bb, enp_victim(enp)) == 8 * (1 - side) + 2,
                forall|f: int| on(bb, f) ==> on(self.bb[2], f) && on(self.bb[side as int], f),
                all_ok(moves@, *self, *castling),
                caps0 ==> all_captures(moves@),
                v0.len() <= moves@.len(),
                moves@.subrange(0, v0.len() as int) == v0,
                moves@.len() < 252 ==> forall|m: Move| #[trigger] enp_take(*self, m) && !on(bb, m.from as int) ==> moves@.contains(m),
                forall|f: int| on(bb, f) ==> pawn_att(side as int, f, enp as int),
                gt ==> all_gen(moves@, *self, *castling, true),
                gf ==> all_gen(moves@, *self, *castling, false),
                nd0 ==> moves@.no_duplicates(),
                nd0 ==> forall|i: int| 0 <= i < v0.len() ==> gen_kind(#[trigger] v0[i]) != 2,
                forall|i: int| v0.len() <= i < moves@.len() ==> gen_kind(#[trigger] moves@[i]) == 2 && !on(bb, moves@[i].from as int),
            decreases bb,
        {
            proof {
                lemma_pop_lsb(bb);
            }
            let ghost pbb = bb;
            let from = bb.trailing_zeros() as u8;
            bb = bb & (bb - 1);
            if moves.len() < 252 {
                let ghost before = moves@;
                proof {
                    if nd0 {
                        assert forall|i: int| 0 <= i < before.len() implies before[i] != mv(from as int, enp as int, 5, 2) by {
                            if i < v0.len() {
                                assert(before[i] == before.subrange(0, v0.len() as int)[i]);
                            } else {
                                assert(!on(pbb, before[i].from as int));
                            }
                        }
                        lemma_push_nodup(before, mv(from as int, enp as int, 5, 2));
                    }
                }
                moves.push(from, enp, Flag::ENP, Piece::PAWN);
                proof {
                    assert forall|i: int| v0.len() <= i < moves@.len() implies gen_kind(#[trigger] moves@[i]) == 2 && !on(bb, moves@[i].from as int) by {
                        if i < before.len() {
                            assert(moves@[i] == before[i]);
                            assert(!on(pbb, before[i].from as int));
                        }
                    }
                    lemma_cell_own(self.bb, side as int, 2, from as int);
                    assert forall|i: int| 0 <= i < moves@.len() implies #[trigger] move_ok(*self, moves@[i], *castling) by {
                        if i < before.len() {
                            assert(moves@[i] == before[i]);
                        }
                    }
                    assert(5u8 & 4u8 != 0) by (bit_vector);
                    if caps0 {
                        assert forall|i: int| 0 <= i < moves@.len() implies #[trigger] moves@[i].spec_is_capture() by {
                            if i < before.len() {
                                assert(moves@[i] == before[i]);
                            } else {
                                assert(moves@[i].flag == 5);
                            }
                        }
                    }
                    assert(moves@.subrange(0, v0.len() as int) =~= before.subrange(0, v0.len() as int));
                    assert(moves@.subrange(0, before.len() as int) =~= before);
                    lemma_keeps(before, moves@);
                    assert(moves@[before.len() as int] == mv(from as int, enp as int, 5, 2));
                    assert(pawn_att(side as int, from as int, enp as int));
                    assert(enp_take(*self, moves@[before.len() as int]));
                    if gt {
                        lemma_extend_gen(before, moves@, *self, *castling, true);
                    }
                    if gf {
                        lemma_extend_gen(before, moves@, *self, *castling, false);
                    }
                    assert forall|m: Move| moves@.len() < 252 && #[trigger] enp_take(*self, m) && !on(bb, m.from as int)
                        implies moves@.contains(m) by {
                        if m.from == from {
                            assert(m == mv(from as int, enp as int, 5, 2));
                            assert(moves@.contains(mv(from as int, enp as int, 5, 2)));
                        } else {
                            assert(!on(pbb, m.from as int));
                            assert(before.contains(m));
                        }
                    }
                }
            }
        }
    }

    /// The moves of a segment from a piece of the side to move, each to an enemy piece other
    /// than the king (capture flags) or to an empty square (quiet flag), fit the position.
    proof fn lemma_encode_segment(self, v0: Seq<Move>, v1: Seq<Move>, cs: Castling, from: int, targets: u64, lo: u8, hi: u8, pc: int)
        requires
            self.wf(),
            all_ok(v0, self, cs),
            v0.len() <= v1.len(),
            v1.subrange(0, v0.len() as int) == v0,
            0 <= from < 64,
            cell(self.bb, from) == 8 * stm_of(self) + pc,
            2 <= pc < 8,
            (lo == 0 && hi == 0) || (lo == 4 && hi == 4 && pc != 2) || (lo == 4 && hi == 4 && pc == 2) || (lo == 12 && hi == 15 && pc == 2),
            lo == 0 ==> forall|t: int| #[trigger] on(targets, t) ==> cell(self.bb, t) == 0,
            lo != 0 ==> forall|t: int| #[trigger] on(targets, t) ==> opp_non_king(cell(self.bb, t), 1 - stm_of(self)),
            segment_targets(v1, v0.len() as int, from, targets, lo, hi, pc),
        ensures
            all_ok(v1, self, cs),
            lo != 0 && all_captures(v0) ==> all_captures(v1),
    {
        assert forall|fl: u8| 4 <= fl <= 4 || 12 <= fl <= 15 implies fl & 4u8 != 0 by {
            assert(4 <= fl <= 4 || 12 <= fl <= 15 ==> fl & 4u8 != 0) by (bit_vector);
        }
        assert forall|i: int| 0 <= i < v1.len() implies #[trigger] move_ok(self, v1[i], cs) by {
            if i < v0.len() {
                assert(v1[i] == v1.subrange(0, v0.len() as int)[i]);
            }
        }
        if lo != 0 && all_captures(v0) {
            assert forall|i: int| 0 <= i < v1.len() implies #[trigger] v1[i].spec_is_capture() by {
                if i < v0.len() {
                    assert(v1[i] == v1.subrange(0, v0.len() as int)[i]);
                } else {
                    assert(lo <= v1[i].flag <= hi);
                }
            }
        }
    }

    /// Adds the pawn captures, capturing promotions included.
    fn gen_pawn_caps(&self, moves: &mut MoveList, opps: u64, castling: &Castling)
        requires
            self.wf(),
            opps == self.bb[1 - stm_of(*self)] & !self.bb[7],
            all_ok(old(moves)@, *self, *castling),
        ensures
            all_ok(final(moves)@, *self, *castling),
            all_captures(old(moves)@) ==> all_captures(final(moves)@),
            old(moves)@.len() <= final(moves)@.len(),
            final(moves)@.subrange(0, old(moves)@.len() as int) == old(moves)@,
            final(moves)@.len() < 252 ==> forall|m: Move| #[trigger] pawn_take(*self, m) ==> final(moves)@.contains(m),
            forall|q: bool| #[trigger] all_gen(old(moves)@, *self, *castling, q) ==> all_gen(final(moves)@, *self, *castling, q),
            old(moves)@.no_duplicates() && (forall|i: int| 0 <= i < old(moves)@.len() ==> gen_kind(#[trigger] old(moves)@[i]) != 3)
                ==> final(moves)@.no_duplicates(),
            forall|i: int| old(moves)@.len() <= i < final(moves)@.len() ==> gen_kind(#[trigger] final(moves)@[i]) == 3,
    {
        let ghost nd0 = moves@.no_duplicates() && (forall|i: int| 0 <= i < moves@.len() ==> gen_kind(#[trigger] moves@[i]) != 3);
        let ghost gt = all_gen(moves@, *self, *castling, true);
        let ghost gf = all_gen(moves@, *self, *castling, false);
        let side = self.stm();
        let pawns = self.bb[Piece::PAWN] & self.bb[side];
        let ghost caps0 = all_captures(moves@);
        let ghost v0 = moves@;
        let mut attackers = pawns & !Rank::PEN[side];
        let mut promo = pawns & Rank::PEN[side];
        proof {
            assert forall|t: int| #[trigger] on(opps, t) implies opp_non_king(cell(self.bb, t), 1 - side) by {
                lemma_cell_opp(self.bb, 1 - side, t);
            }
        }
        while attackers != 0
            invariant
                self.wf(),
                side == stm_of(*self),
                pawns == self.bb[2] & self.bb[side as int],
                opps == self.bb[1 - side] & !self.bb[7],
                forall|t: int| #[trigger] on(opps, t) ==> opp_non_king(cell(self.bb, t), 1 - side),
                forall|f: int| on(attackers, f) ==> on(self.bb[2], f) && on(self.bb[side as int], f) && !on(Rank::PEN[side as int], f),
                promo == pawns & Rank::PEN[side as int],
                all_ok(moves@, *self, *castling),
                caps0 ==> all_captures(moves@),
                v0.len() <= moves@.len(),
                moves@.subrange(0, v0.len() as int) == v0,
                moves@.len() < 252 ==> forall|m: Move| #[trigger] pawn_take(*self, m)
                    && !on(Rank::PEN[side as int], m.from as int) && !on(attackers, m.from as int) ==> moves@.contains(m),
                gt ==> all_gen(moves@, *self, *castling, true),
                gf ==> all_gen(moves@, *self, *castling, false),
                nd0 ==> moves@.no_duplicates(),
                nd0 ==> forall|i: int| 0 <= i < v0.len() ==> gen_kind(#[trigger] v0[i]) != 3,
                forall|i: int| v0.len() <= i < moves@.len() ==> gen_kind(#[trigger] moves@[i]) == 3
                    && moves@[i].flag == 4 && !on(attackers, moves@[i].from as int),
            decreases attackers,
        {
            proof {
                lemma_pop_lsb(attackers);
            }
            let ghost patt = attackers;
            let from = attackers.trailing_zeros() as u8;
            attackers = attackers & (attackers - 1);
            let targets = Attacks::pawn(side, from as usize) & opps;
            let ghost va = moves@;
            proof {
                if nd0 {
                    assert forall|i: int| 0 <= i < va.len() implies !same_kind(#[trigger] va[i], from as int, 4, 4, 2) by {
                        if i < v0.len() {
                            assert(va[i] == va.subrange(0, v0.len() as int)[i]);
                        } else {
                            assert(!on(patt, va[i].from as int));
                        }
                    }
                }
            }
            encode(moves, targets, from, Flag::CAP, Flag::CAP, Piece::PAWN);
            proof {
                assert forall|i: int| v0.len() <= i < moves@.len() implies gen_kind(#[trigger] moves@[i]) == 3
                    && moves@[i].flag == 4 && !on(attackers, moves@[i].from as int) by {
                    if i < va.len() {
                        assert(moves@[i] == moves@.subrange(0, va.len() as int)[i]);
                    }
                }
                lemma_cell_own(self.bb, side as int, 2, from as int);
                self.lemma_encode_segment(va, moves@, *castling, from as int, targets, 4, 4, 2);
                assert(moves@.subrange(0, v0.len() as int) =~= va.subrange(0, v0.len() as int));
                assert forall|i: int| va.len() <= i < moves@.len() implies #[trigger] pawn_take(*self, moves@[i]) by {
                    assert(on(targets, moves@[i].to as int));
                    lemma_pen(side as int, from as int);
                }
                if gt {
                    lemma_extend_gen(va, moves@, *self, *castling, true);
                }
                if gf {
                    lemma_extend_gen(va, moves@, *self, *castling, false);
                }
                lemma_keeps(va, moves@);
                assert forall|m: Move| moves@.len() < 252 && #[trigger] pawn_take(*self, m)
                    && !on(Rank::PEN[side as int], m.from as int) && !on(attackers, m.from as int) implies moves@.contains(m) by {
                    if m.from == from {
                        lemma_cell_bits(self.bb, m.to as int);
                        lemma_pen(side as int, m.from as int);
                        assert(m == mv(from as int, m.to as int, 4, 2));
                        assert(on(targets, m.to as int));
                    } else {
                        assert(va.contains(m));
                    }
                }
            }
        }
        proof {
            assert forall|m: Move| moves@.len() < 252 && #[trigger] pawn_take(*self, m)
                && !on(Rank::PEN[side as int], m.from as int) implies moves@.contains(m) by {
                assert(!on(attackers, m.from as int));
            }
        }
        let ghost vm = moves@;
        while promo != 0
            invariant
                self.wf(),
                side == stm_of(*self),
                opps == self.bb[1 - side] & !self.bb[7],
                forall|t: int| #[trigger] on(opps, t) ==> opp_non_king(cell(self.bb, t), 1 - side),
                forall|f: int| on(promo, f) ==> on(self.bb[2], f) && on(self.bb[side as int], f) && on(Rank::PEN[side as int], f),
                all_ok(moves@, *self, *castling),
                caps0 ==> all_captures(moves@),
                v0.len() <= moves@.len(),
                moves@.subrange(0, v0.len() as int) == v0,
                moves@.len() < 252 ==> forall|m: Move| #[trigger] pawn_take(*self, m)
                    && (!on(Rank::PEN[side as int], m.from as int) || !on(promo, m.from as int)) ==> moves@.contains(m),
                gt ==> all_gen(moves@, *self, *castling, true),
                gf ==> all_gen(moves@, *self, *castling, false),
                nd0 ==> moves@.no_duplicates(),
                nd0 ==> forall|i: int| 0 <= i < v0.len() ==> gen_kind(#[trigger] v0[i]) != 3,
                v0.len() <= vm.len() <= moves@.len(),
                moves@.subrange(0, vm.len() as int) == vm,
                forall|i: int| v0.len() <= i < vm.len() ==> (#[trigger] vm[i]).flag == 4,
                forall|i: int| v0.len() <= i < moves@.len() ==> gen_kind(#[trigger] moves@[i]) == 3,
                forall|i: int| vm.len() <= i < moves@.len() ==> !on(promo, (#[trigger] moves@[i]).from as int) && 12 <= moves@[i].flag,
            decreases promo,
        {
            proof {
                lemma_pop_lsb(promo);
            }
            let ghost promo_before = promo;
            let from = promo.trailing_zeros() as u8;
            promo = promo & (promo - 1);
            let targets = Attacks::pawn(side, from as usize) & opps;
            let ghost va = moves@;
            let ghost ppro = promo_before;
            proof {
                if nd0 {
                    assert forall|i: int| 0 <= i < va.len() implies !same_kind(#[trigger] va[i], from as int, 12, 15, 2) by {
                        if i < v0.len() {
                            assert(va[i] == va.subrange(0, v0.len() as int)[i]);
                        } else if i < vm.len() {
                            assert(va[i] == va.subrange(0, vm.len() as int)[i]);
                        } else {
                            assert(!on(ppro, va[i].from as int));
                        }
                    }
                }
            }
            encode(moves, targets, from, Flag::NPC, Flag::QPC, Piece::PAWN);
            proof {
                assert(moves@.subrange(0, vm.len() as int) =~= va.subrange(0, vm.len() as int));
                assert forall|i: int| v0.len() <= i < moves@.len() implies gen_kind(#[trigger] moves@[i]) == 3 by {
                    if i < va.len() {
                        assert(moves@[i] == moves@.subrange(0, va.len() as int)[i]);
                    }
                }
                assert forall|i: int| vm.len() <= i < moves@.len() implies !on(promo, (#[trigger] moves@[i]).from as int) && 12 <= moves@[i].flag by {
                    if i < va.len() {
                        assert(moves@[i] == moves@.subrange(0, va.len() as int)[i]);
                    }
                }
                lemma_cell_own(self.bb, side as int, 2, from as int);
                self.lemma_encode_segment(va, moves@, *castling, from as int, targets, 12, 15, 2);
                assert(moves@.subrange(0, v0.len() as int) =~= va.subrange(0, v0.len() as int));
                assert forall|i: int| va.len() <= i < moves@.len() implies #[trigger] pawn_take(*self, moves@[i]) by {
                    assert(on(targets, moves@[i].to as int));
                    lemma_pen(side as int, from as int);
                }
                if gt {
                    lemma_extend_gen(va, moves@, *self, *castling, true);
                }
                if gf {
                    lemma_extend_gen(va, moves@, *self, *castling, false);
                }
                lemma_keeps(va, moves@);
                assert forall|m: Move| moves@.len() < 252 && #[trigger] pawn_take(*self, m)
                    && (!on(Rank::PEN[side as int], m.from as int) || !on(promo, m.from as int)) implies moves@.contains(m) by {
                    if m.from == from && on(Rank::PEN[side as int], m.from as int) {
                        lemma_cell_bits(self.bb, m.to as int);
                        lemma_pen(side as int, m.from as int);
                        assert(m == mv(from as int, m.to as int, m.flag as int, 2));
                        assert(on(targets, m.to as int));
                    } else {
                        assert(va.contains(m));
                    }
                }
            }
        }
        proof {
            assert forall|m: Move| moves@.len() < 252 && #[trigger] pawn_take(*self, m) implies moves@.contains(m) by {
                if on(Rank::PEN[side as int], m.from as int) {
                    assert(!on(promo, m.from as int));
                }
            }
        }
    }

    /// Adds the moves of the piece of kind `pc` on `from`: captures, and quiet moves with
    /// `quiets`.
    fn gen_piece_from(&self, moves: &mut MoveList, pc: usize, from: u8, occ: u64, opps: u64, quiets: bool, castling: &Castling)
        requires
            self.wf(),
            occ == self.bb[0] | self.bb[1],
            opps == self.bb[1 - stm_of(*self)] & !self.bb[7],
            forall|t: int| #[trigger] on(opps, t) ==> opp_non_king(cell(self.bb, t), 1 - stm_of(*self)),
            3 <= pc <= 7,
            from < 64,
            cell(self.bb, from as int) == 8 * stm_of(*self) + pc,
            all_ok(old(moves)@, *self, *castling),
        ensures
            all_ok(final(moves)@, *self, *castling),
            !quiets && all_captures(old(moves)@) ==> all_captures(final(moves)@),
            old(moves)@.len() <= final(moves)@.len(),
            final(moves)@.subrange(0, old(moves)@.len() as int) == old(moves)@,
            final(moves)@.len() < 252 ==> forall|m: Move| #[trigger] piece_move(*self, m, quiets) && m.pc == pc && m.from == from
                ==> final(moves)@.contains(m),
            all_gen(old(moves)@, *self, *castling, quiets) ==> all_gen(final(moves)@, *self, *castling, quiets),
            forall|i: int| old(moves)@.len() <= i < final(moves)@.len() ==> gen_kind(#[trigger] final(moves)@[i]) == 4
                && final(moves)@[i].pc == pc && final(moves)@[i].from == from,
            old(moves)@.no_duplicates() && (forall|i: int| 0 <= i < old(moves)@.len() ==> !(gen_kind(#[trigger] old(moves)@[i]) == 4
                && old(moves)@[i].pc == pc && old(moves)@[i].from == from)) ==> final(moves)@.no_duplicates(),
    {
        let ghost gen0 = all_gen(moves@, *self, *castling, quiets);
        let ghost nd0 = moves@.no_duplicates() && (forall|i: int| 0 <= i < moves@.len() ==> !(gen_kind(#[trigger] moves@[i]) == 4
            && moves@[i].pc == pc && moves@[i].from == from));
        let attacks = Attacks::for_piece(pc, from as usize, occ);
        let caps = attacks & opps;
        let ghost va = moves@;
        proof {
            if nd0 {
                assert forall|i: int| 0 <= i < va.len() implies !same_kind(#[trigger] va[i], from as int, 4, 4, pc as int) by {
                    assert(!(gen_kind(va[i]) == 4 && va[i].pc == pc && va[i].from == from));
                }
            }
        }
        encode(moves, caps, from, Flag::CAP, Flag::CAP, pc);
        proof {
            self.lemma_encode_segment(va, moves@, *castling, from as int, caps, 4, 4, pc as int);
            if gen0 {
                assert forall|i: int| va.len() <= i < moves@.len() implies #[trigger] gen_move(*self, *castling, moves@[i], quiets) by {
                    assert(on(caps, moves@[i].to as int));
                    assert(piece_move(*self, moves@[i], quiets));
                }
                lemma_extend_gen(va, moves@, *self, *castling, quiets);
            }
        }
        let ghost vb = moves@;
        if quiets {
            let quiet = attacks & !occ;
            proof {
                assert forall|t: int| #[trigger] on(quiet, t) implies cell(self.bb, t) == 0 by {
                    lemma_cell_empty(self.bb, t);
                }
                if nd0 {
                    assert forall|i: int| 0 <= i < vb.len() implies !same_kind(#[trigger] vb[i], from as int, 0, 0, pc as int) by {
                        if i < va.len() {
                            assert(vb[i] == vb.subrange(0, va.len() as int)[i]);
                            assert(!(gen_kind(va[i]) == 4 && va[i].pc == pc && va[i].from == from));
                        } else {
                            assert(vb[i].flag == 4);
                        }
                    }
                }
            }
            encode(moves, quiet, from, Flag::QUIET, Flag::QUIET, pc);
            proof {
                self.lemma_encode_segment(vb, moves@, *castling, from as int, quiet, 0, 0, pc as int);
                if gen0 {
                    assert forall|i: int| vb.len() <= i < moves@.len() implies #[trigger] gen_move(*self, *castling, moves@[i], quiets) by {
                        assert(on(quiet, moves@[i].to as int));
                        assert(piece_move(*self, moves@[i], quiets));
                    }
                    lemma_extend_gen(vb, moves@, *self, *castling, quiets);
                }
                assert(moves@.subrange(0, va.len() as int) =~= va) by {
                    assert(moves@.subrange(0, vb.len() as int) == vb);
                    assert(vb.subrange(0, va.len() as int) == va);
                    assert forall|k: int| 0 <= k < va.len() implies moves@[k] == va[k] by {
                        assert(moves@[k] == moves@.subrange(0, vb.len() as int)[k]);
                        assert(vb[k] == vb.subrange(0, va.len() as int)[k]);
                    }
                }
            }
        }
        proof {
            lemma_keeps(va, vb);
            if !quiets {
                assert(moves@.subrange(0, vb.len() as int) =~= vb);
            }
            lemma_keeps(vb, moves@);
            assert forall|i: int| va.len() <= i < moves@.len() implies gen_kind(#[trigger] moves@[i]) == 4
                && moves@[i].pc == pc && moves@[i].from == from by {
                if i < vb.len() {
                    assert(moves@[i] == moves@.subrange(0, vb.len() as int)[i]);
                }
            }
            assert forall|m: Move| moves@.len() < 252 && #[trigger] piece_move(*self, m, quiets) && m.pc == pc && m.from == from
                implies moves@.contains(m) by {
                lemma_cell_bits(self.bb, m.to as int);
                assert(m == mv(from as int, m.to as int, m.flag as int, pc as int));
                if m.flag == 4 {
                    assert(on(caps, m.to as int));
                    assert(vb.contains(m));
                } else {
                    assert(on(attacks & !occ, m.to as int));
                }
            }
        }
    }

    /// Adds the knight, bishop, rook, queen and king moves: captures, and quiet moves with
    /// `quiets`.
    fn gen_pieces(&self, moves: &mut MoveList, occ: u64, opps: u64, quiets: bool, castling: &Castling)
        requires
            self.wf(),
            occ == self.bb[0] | self.bb[1],
            opps == self.bb[1 - stm_of(*self)] & !self.bb[7],
            all_ok(old(moves)@, *self, *castling),
        ensures
            all_ok(final(moves)@, *self, *castling),
            !quiets && all_captures(old(moves)@) ==> all_captures(final(moves)@),
            old(moves)@.len() <= final(moves)@.len(),
            final(moves)@.subrange(0, old(moves)@.len() as int) == old(moves)@,
            final(moves)@.len() < 252 ==> forall|m: Move| #[trigger] piece_move(*self, m, quiets) ==> final(moves)@.contains(m),
            all_gen(old(moves)@, *self, *castling, quiets) ==> all_gen(final(moves)@, *self, *castling, quiets),
            old(moves)@.no_duplicates() && (forall|i: int| 0 <= i < old(moves)@.len() ==> gen_kind(#[trigger] old(moves)@[i]) != 4)
                ==> final(moves)@.no_duplicates(),
            forall|i: int| old(moves)@.len() <= i < final(moves)@.len() ==> gen_kind(#[trigger] final(moves)@[i]) == 4,
    {
        let ghost gen0 = all_gen(moves@, *self, *castling, quiets);
        let ghost nd0 = moves@.no_duplicates() && (forall|i: int| 0 <= i < moves@.len() ==> gen_kind(#[trigger] moves@[i]) != 4);
        let side = self.stm();
        let boys = self.bb[side];
        let ghost caps0 = !quiets && all_captures(moves@);
        let ghost v0 = moves@;
        proof {
            assert forall|t: int| #[trigger] on(opps, t) implies opp_non_king(cell(self.bb, t), 1 - side) by {
                lemma_cell_opp(self.bb, 1 - side, t);
            }
        }
        let mut pc: usize = Piece::KNIGHT;
        while pc <= Piece::KING
            invariant
                self.wf(),
                side == stm_of(*self),
                boys == self.bb[side as int],
                occ == self.bb[0] | self.bb[1],
                opps == self.bb[1 - side] & !self.bb[7],
                forall|t: int| #[trigger] on(opps, t) ==> opp_non_king(cell(self.bb, t), 1 - side),
                3 <= pc <= 8,
                all_ok(moves@, *self, *castling),
                caps0 ==> !quiets && all_captures(moves@),
                v0.len() <= moves@.len(),
                moves@.subrange(0, v0.len() as int) == v0,
                moves@.len() < 252 ==> forall|m: Move| #[trigger] piece_move(*self, m, quiets) && m.pc < pc ==> moves@.contains(m),
                gen0 ==> all_gen(moves@, *self, *castling, quiets),
                nd0 ==> moves@.no_duplicates(),
                nd0 ==> forall|i: int| 0 <= i < v0.len() ==> gen_kind(#[trigger] v0[i]) != 4,
                forall|i: int| v0.len() <= i < moves@.len() ==> gen_kind(#[trigger] moves@[i]) == 4 && moves@[i].pc < pc,
            decreases 8 - pc,
        {
            let mut attackers = boys & self.bb[pc];
            while attackers != 0
                invariant
                    self.wf(),
                    side == stm_of(*self),
                    boys == self.bb[side as int],
                    occ == self.bb[0] | self.bb[1],
                    opps == self.bb[1 - side] & !self.bb[7],
                    forall|t: int| #[trigger] on(opps, t) ==> opp_non_king(cell(self.bb, t), 1 - side),
                    3 <= pc <= 7,
                    forall|f: int| on(attackers, f) ==> on(self.bb[pc as int], f) && on(self.bb[side as int], f),
                    all_ok(moves@, *self, *castling),
                    caps0 ==> !quiets && all_captures(moves@),
                    v0.len() <= moves@.len(),
                    moves@.subrange(0, v0.len() as int) == v0,
                    moves@.len() < 252 ==> forall|m: Move| #[trigger] piece_move(*self, m, quiets)
                        && (m.pc < pc || (m.pc == pc && !on(attackers, m.from as int))) ==> moves@.contains(m),
                    gen0 ==> all_gen(moves@, *self, *castling, quiets),
                    nd0 ==> moves@.no_duplicates(),
                    nd0 ==> forall|i: int| 0 <= i < v0.len() ==> gen_kind(#[trigger] v0[i]) != 4,
                    forall|i: int| v0.len() <= i < moves@.len() ==> gen_kind(#[trigger] moves@[i]) == 4
                        && (moves@[i].pc < pc || (moves@[i].pc == pc && !on(attackers, moves@[i].from as int))),
                decreases attackers,
            {
                proof {
                    lemma_pop_lsb(attackers);
                }
                let ghost patt = attackers;
                let ghost start = moves@;
                let from = attackers.trailing_zeros() as u8;
                attackers = attackers & (attackers - 1);
                proof {
                    lemma_cell_own(self.bb, side as int, pc as int, from as int);
                    if nd0 {
                        assert forall|i: int| 0 <= i < start.len() implies !(gen_kind(#[trigger] start[i]) == 4
                            && start[i].pc == pc && start[i].from == from) by {
                            if i < v0.len() {
                                assert(start[i] == start.subrange(0, v0.len() as int)[i]);
                            } else if start[i].pc == pc {
                                assert(!on(patt, start[i].from as int));
                            }
                        }
                    }
                }
                self.gen_piece_from(moves, pc, from, occ, opps, quiets, castling);
                proof {
                    assert(moves@.subrange(0, v0.len() as int) =~= v0) by {
                        assert forall|k: int| 0 <= k < v0.len() implies moves@[k] == v0[k] by {
                            assert(moves@[k] == moves@.subrange(0, start.len() as int)[k]);
                            assert(start[k] == start.subrange(0, v0.len() as int)[k]);
                        }
                    }
                    lemma_keeps(start, moves@);
                    assert forall|i: int| v0.len() <= i < moves@.len() implies gen_kind(#[trigger] moves@[i]) == 4
                        && (moves@[i].pc < pc || (moves@[i].pc == pc && !on(attackers, moves@[i].from as int))) by {
                        if i < start.len() {
                            assert(moves@[i] == moves@.subrange(0, start.len() as int)[i]);
                        }
                    }
                    assert forall|m: Move| moves@.len() < 252 && #[trigger] piece_move(*self, m, quiets)
                        && (m.pc < pc || (m.pc == pc && !on(attackers, m.from as int))) implies moves@.contains(m) by {
                        if !(m.pc == pc && m.from == from) {
                            assert(start.contains(m));
                        }
                    }
                }
            }
            proof {
                assert forall|m: Move| moves@.len() < 252 && #[trigger] piece_move(*self, m, quiets) && m.pc < pc + 1
                    implies moves@.contains(m) by {
                    if m.pc == pc {
                        assert(!on(attackers, m.from as int));
                    }
                }
            }
            pc += 1;
        }
        proof {
            if nd0 {
                assert(moves@.no_duplicates());
            }
        }
    }

    /// Whether no square of `path` is attacked by the opponent of `side`.
    fn path(&self, side: usize, path: u64, occ: u64) -> (r: bool)
        requires
            side < 2,
        ensures
            r == forall|s: int| 0 <= s < 64 && on(path, s) ==> !attacked_by(self.bb, s, side as int, occ),
    {
        let mut bb = path;
        while bb != 0
            invariant
                side < 2,
                forall|s: int| 0 <= s < 64 && on(path, s) && !on(bb, s) ==> !attacked_by(self.bb, s, side as int, occ),
                forall|s: int| on(bb, s) ==> on(path, s),
            decreases bb,
        {
            proof {
                lemma_pop_lsb(bb);
            }
            let idx = bb.trailing_zeros() as usize;
            if self.sq_attacked(idx, side, occ) {
                return false;
            }
            bb = bb & (bb - 1);
        }
        true
    }

    /// Castling with the right `right` is possible: the right is held, its rook stands on its
    /// square, the squares the king and the rook pass are empty but for these two pieces, and
    /// the king passes no attacked square.
    fn can_castle(&self, right: u8, occ: u64, ksq: u8, kto: u8, rto: u8, castling: &Castling) -> (r: bool)
        requires
            self.wf(),
            castling.wf(),
            ksq < 64,
            cell(self.bb, ksq as int) == 8 * stm_of(*self) + 7,
            occ == self.bb[0] | self.bb[1],
            right == Rights::WQS || right == Rights::WKS || right == Rights::BQS || right == Rights::BKS,
            (right == Rights::BQS || right == Rights::BKS) == self.c,
            kto == 56 * stm_of(*self) + if right == Rights::BKS || right == Rights::WKS { 6int } else { 2int },
            rto == rook_to(stm_of(*self), if right == Rights::BKS || right == Rights::WKS { 1int } else { 0int }),
        ensures
            r == castle_ok(*self, *castling, if right == Rights::BKS || right == Rights::WKS { 1int } else { 0int }, ksq as int),
            r ==> {
                let side = stm_of(*self);
                let ks = if right == Rights::BKS || right == Rights::WKS { 1int } else { 0int };
                let rf = rook_from(*castling, side, ks);
                &&& cell(self.bb, rf) == 8 * side + 5
                &&& (cell(self.bb, kto as int) == 0 || kto == ksq || kto == rf)
                &&& (cell(self.bb, rto as int) == 0 || rto == ksq || rto == rf)
            },
    {
        let side = self.stm();
        let ks: usize = if right == Rights::BKS || right == Rights::WKS { 1 } else { 0 };
        let rsq = 56 * side + castling.rook_file(side, ks) as usize;
        let bit = 1u64 << rsq;
        let kbb = 1u64 << ksq;
        let kto_bb = 1u64 << kto;
        let rto_bb = 1u64 << rto;
        let ghost ksv = ks as int;
        assert(right == castle_right(side as int, ksv));
        assert(rsq as int == rook_from(*castling, side as int, ksv));
        if self.rights & right == 0 {
            return false;
        }
        if self.bb[Piece::ROOK] & self.bb[side] & bit == 0 {
            proof {
                crate::bits::lemma_and_sq_bb(self.bb[5] & self.bb[side as int], rsq as int);
                lemma_cell_bits(self.bb, rsq as int);
            }
            return false;
        }
        let kpath = btwn(kbb, kto_bb, Ghost(ksq as int), Ghost(kto as int));
        let rpath = btwn(bit, rto_bb, Ghost(rsq as int), Ghost(rto as int));
        let free_k = (occ ^ bit) & (kpath ^ kto_bb);
        let free_r = (occ ^ kbb) & (rpath ^ rto_bb);
        proof {
            assert(bit == sq_bb(rsq as int));
            assert(kbb == sq_bb(ksq as int));
            assert(kto_bb == sq_bb(kto as int));
            assert(rto_bb == sq_bb(rto as int));
            crate::bits::lemma_and_sq_bb(self.bb[5] & self.bb[side as int], rsq as int);
            lemma_cell_own(self.bb, side as int, 5, rsq as int);
            lemma_cell_bits(self.bb, ksq as int);
            assert(on(occ, rsq as int));
            assert(on(occ, ksq as int));
            lemma_free(occ, rsq as int, ksq as int, kto as int, kpath);
            lemma_free(occ, ksq as int, rsq as int, rto as int, rpath);
            assert(kto as int == castle_to(side as int, ksv));
            assert forall|s: int| 0 <= s < 64 implies #[trigger] cell(self.bb, s) == 0 <==> !on(occ, s) by {
                lemma_cell_bits(self.bb, s);
                if !on(occ, s) {
                    lemma_cell_empty(self.bb, s);
                }
            }
        }
        if free_k != 0 || free_r != 0 {
            return false;
        }
        proof {
            let rf = rsq as int;
            crate::bits::lemma_and_sq_bb(self.bb[5] & self.bb[side as int], rf);
            lemma_cell_own(self.bb, side as int, 5, rf);
            assert(bit == sq_bb(rf));
            assert(kbb == sq_bb(ksq as int));
            assert(kto_bb == sq_bb(kto as int));
            assert(rto_bb == sq_bb(rto as int));
            if kto != ksq {
                lemma_clear(self.bb, occ, rf, kpath, kto as int);
            }
            if rto as int != rf {
                lemma_clear(self.bb, occ, ksq as int, rpath, rto as int);
            }
        }
        let r = self.path(side, kpath, occ);
        proof {
            assert(kto as int == castle_to(side as int, ksv));
            assert forall|s: int| 0 <= s < 64 && s != rsq as int && #[trigger] crossing(ksq as int, castle_to(side as int, ksv), s)
                implies cell(self.bb, s) == 0 by {
                assert(crossing(ksq as int, kto as int, s));
                assert(!on(occ, s));
            }
            assert forall|s: int| 0 <= s < 64 && s != ksq as int && #[trigger] crossing(rsq as int, rook_to(side as int, ksv), s)
                implies cell(self.bb, s) == 0 by {
                assert(crossing(rsq as int, rto as int, s));
                assert(!on(occ, s));
            }
            if r {
                assert forall|s: int| 0 <= s < 64 && #[trigger] btwn_spec(ksq as int, castle_to(side as int, ksv), s)
                    implies !attacked_by(self.bb, s, side as int, occ) by {
                    assert(on(kpath, s));
                }
            } else {
                let t = choose|t: int| 0 <= t < 64 && on(kpath, t) && attacked_by(self.bb, t, side as int, occ);
                assert(btwn_spec(ksq as int, castle_to(side as int, ksv), t));
            }
        }
        r
    }
}

} // verus!
