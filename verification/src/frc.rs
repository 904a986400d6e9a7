use vstd::prelude::*;
use crate::fen::str_chars;
use crate::position::Position;

verus! {

/// File of the king of `side` as castling reads it: the file of the lowest square of its king
/// bitboard (the a-file when it has none).
pub open spec fn king_file(bb: [u64; 8], side: int) -> int {
    ((bb[7] & bb[side]).trailing_zeros() as int) % 8
}

/// Reading state of the castling field: rights so far, king files of both sides, whether a
/// Chess960 letter was seen, and the rook files (index `2 * side + ks`).
pub type CastleState = (u8, int, int, bool, Seq<int>);

/// The byte a character of the castling field is read as (its code point, truncated).
pub open spec fn castle_byte(c: char) -> int {
    ((c as u32) % 256) as int
}

/// One character of the castling field: `KQkq` grant the standard rights, a file letter
/// (upper case for white) names the file of a castling rook, king side when it lies beyond the
/// king; anything else grants nothing.
pub open spec fn castle_step(st: CastleState, c: char, bb: [u64; 8]) -> CastleState {
    let (rights, k0, k1, c960, rf) = st;
    let b = castle_byte(c);
    if b == 81 {
        ((rights | 8u8) as u8, k0, k1, c960, rf)
    } else if b == 75 {
        ((rights | 4u8) as u8, k0, k1, c960, rf)
    } else if b == 113 {
        ((rights | 2u8) as u8, k0, k1, c960, rf)
    } else if b == 107 {
        ((rights | 1u8) as u8, k0, k1, c960, rf)
    } else if 65 <= b <= 72 {
        let kf = king_file(bb, 0);
        let rook = b - 65;
        let i = if rook > kf { 1int } else { 0int };
        (((rights | (if i == 1 { 4u8 } else { 8u8 })) as u8), kf, k1, true, rf.update(i, rook))
    } else if 97 <= b <= 104 {
        let kf = king_file(bb, 1);
        let rook = b - 97;
        let i = if rook > kf { 1int } else { 0int };
        (((rights | (if i == 1 { 1u8 } else { 2u8 })) as u8), k0, kf, true, rf.update(2 + i, rook))
    } else {
        st
    }
}

/// Reading state after the first `n` characters of the castling field.
pub open spec fn castle_fold(s: Seq<char>, n: int, bb: [u64; 8]) -> CastleState
    decreases n,
{
    if n <= 0 {
        (0u8, 4, 4, false, seq![0int, 7, 0, 7])
    } else {
        castle_step(castle_fold(s, n - 1, bb), s[n - 1], bb)
    }
}

/// A character of the castling field that names a white rook file (`A` to `H`, read as its low
/// byte).
pub open spec fn white_letter(c: char) -> bool {
    65 <= castle_byte(c) <= 72
}

/// A character of the castling field that names a black rook file (`a` to `h`, read as its low
/// byte).
pub open spec fn black_letter(c: char) -> bool {
    97 <= castle_byte(c) <= 104
}

/// Reading the first `n` characters of a castling field turns Chess960 on exactly when one of
/// them names a rook file, and takes a side's king file from the board exactly when one of
/// them names a rook file of that side (the e-file otherwise).
pub proof fn lemma_castle_fold_letters(s: Seq<char>, n: int, bb: [u64; 8])
    requires
        0 <= n <= s.len(),
    ensures
        castle_fold(s, n, bb).3 == exists|i: int| 0 <= i < n && (white_letter(s[i]) || black_letter(s[i])),
        castle_fold(s, n, bb).1 == if exists|i: int| 0 <= i < n && #[trigger] white_letter(s[i]) { king_file(bb, 0) } else { 4 },
        castle_fold(s, n, bb).2 == if exists|i: int| 0 <= i < n && #[trigger] black_letter(s[i]) { king_file(bb, 1) } else { 4 },
    decreases n,
{
    if n > 0 {
        lemma_castle_fold_letters(s, n - 1, bb);
        let c = s[n - 1];
        if white_letter(c) || black_letter(c) {
            assert(0 <= n - 1 < n && (white_letter(s[n - 1]) || black_letter(s[n - 1])));
        } else {
            assert forall|i: int| 0 <= i < n && (white_letter(s[i]) || black_letter(s[i])) implies 0 <= i < n - 1 by {}
        }
        if white_letter(c) {
            assert(0 <= n - 1 < n && white_letter(s[n - 1]));
        } else {
            assert forall|i: int| 0 <= i < n && #[trigger] white_letter(s[i]) implies 0 <= i < n - 1 by {}
            if exists|i: int| 0 <= i < n - 1 && #[trigger] white_letter(s[i]) {
                let i = choose|i: int| 0 <= i < n - 1 && #[trigger] white_letter(s[i]);
                assert(0 <= i < n && white_letter(s[i]));
            }
        }
        if black_letter(c) {
            assert(0 <= n - 1 < n && black_letter(s[n - 1]));
        } else {
            assert forall|i: int| 0 <= i < n && #[trigger] black_letter(s[i]) implies 0 <= i < n - 1 by {}
            if exists|i: int| 0 <= i < n - 1 && #[trigger] black_letter(s[i]) {
                let i = choose|i: int| 0 <= i < n - 1 && #[trigger] black_letter(s[i]);
                assert(0 <= i < n && black_letter(s[i]));
            }
        }
        if exists|i: int| 0 <= i < n - 1 && (white_letter(s[i]) || black_letter(s[i])) {
            let i = choose|i: int| 0 <= i < n - 1 && (white_letter(s[i]) || black_letter(s[i]));
            assert(0 <= i < n && (white_letter(s[i]) || black_letter(s[i])));
        }
    }
}

/// After `parse` read the castling field `s` for the board `bb`, the game is Chess960 exactly
/// when the field names a rook file by its letter; `KQkq` and `-` leave it standard.
pub proof fn lemma_parse_chess960(c: Castling, s: Seq<char>, bb: [u64; 8])
    requires
        c.parsed_from(castle_fold(s, s.len() as int, bb)),
    ensures
        c.chess960 == exists|i: int| 0 <= i < s.len() && (white_letter(s[i]) || black_letter(s[i])),
{
    lemma_castle_fold_letters(s, s.len() as int, bb);
}

/// After `parse` read the castling field `s` for the board `bb`, a move from or to a square
/// keeps exactly the rights that neither start there: the castling rooks' squares clear their
/// own right, the kings' squares (the file the board gives when the field names a rook of
/// that side by letter, the e-file otherwise) clear both of their side's, and every other
/// square keeps all four, when these six squares differ.
pub proof fn lemma_parse_masks(c: Castling, s: Seq<char>, bb: [u64; 8], kw: int, kb: int)
    requires
        c.parsed_from(castle_fold(s, s.len() as int, bb)),
        c.wf(),
        kw == if exists|i: int| 0 <= i < s.len() && #[trigger] white_letter(s[i]) { king_file(bb, 0) } else { 4 },
        kb == if exists|i: int| 0 <= i < s.len() && #[trigger] black_letter(s[i]) { king_file(bb, 1) } else { 4 },
        seq![c.rook_files[0][0] as int, c.rook_files[0][1] as int, kw, 56 + c.rook_files[1][0], 56 + c.rook_files[1][1], 56 + kb].no_duplicates(),
    ensures
        c.castle_mask[c.rook_files[0][0] as int] == 7,
        c.castle_mask[c.rook_files[0][1] as int] == 11,
        c.castle_mask[kw] == 3,
        c.castle_mask[56 + c.rook_files[1][0]] == 13,
        c.castle_mask[56 + c.rook_files[1][1]] == 14,
        c.castle_mask[56 + kb] == 12,
        forall|q: int| 0 <= q < 64 && q != c.rook_files[0][0] && q != c.rook_files[0][1] && q != kw && q != 56 + c.rook_files[1][0]
            && q != 56 + c.rook_files[1][1] && q != 56 + kb ==> #[trigger] c.castle_mask[q] == 15,
{
    let st = castle_fold(s, s.len() as int, bb);
    lemma_castle_fold_letters(s, s.len() as int, bb);
    let sq = seq![c.rook_files[0][0] as int, c.rook_files[0][1] as int, kw, 56 + c.rook_files[1][0], 56 + c.rook_files[1][1], 56 + kb];
    assert(sq[0] != sq[1] && sq[0] != sq[2] && sq[0] != sq[3] && sq[0] != sq[4] && sq[0] != sq[5]);
    assert(sq[1] != sq[2] && sq[1] != sq[3] && sq[1] != sq[4] && sq[1] != sq[5]);
    assert(sq[2] != sq[3] && sq[2] != sq[4] && sq[2] != sq[5]);
    assert(sq[3] != sq[4] && sq[3] != sq[5] && sq[4] != sq[5]);
    assert(c.rook_files[0][0] == st.4[0] && c.rook_files[0][1] == st.4[1]);
    assert(c.rook_files[1][0] == st.4[2] && c.rook_files[1][1] == st.4[3]);
    assert(0 <= king_file(bb, 0) < 8 && 0 <= king_file(bb, 1) < 8);
}

/// Rights kept by a move from or to `q` after the castling field read as `st`: a king square
/// keeps the other side's rights, a rook square keeps all but its own.
pub open spec fn castle_mask_of(st: CastleState, q: int) -> u8 {
    let (_, k0, k1, _, rf) = st;
    if q == k1 + 56 {
        12
    } else if q == k0 {
        3
    } else if q == rf[3] + 56 {
        14
    } else if q == rf[2] + 56 {
        13
    } else if q == rf[1] {
        11
    } else if q == rf[0] {
        7
    } else {
        15
    }
}

proof fn lemma_or_small(a: u8, b: u8)
    requires
        a < 16,
        b < 16,
    ensures
        (a | b) < 16,
        b == 0 ==> (a | b) == a,
{
    assert((a | b) < 16 && (b == 0 ==> (a | b) == a)) by (bit_vector)
        requires
            a < 16,
            b < 16,
    ;
}

/// Castling configuration of the game: whether it is Chess960, the mask of rights that
/// survive a move from or to each square, and the files the rooks castle from.
#[derive(Clone, Copy)]
pub struct Castling {
    pub chess960: bool,
    pub castle_mask: [u8; 64],
    pub rook_files: [[u8; 2]; 2],
}

impl Castling {
    /// The rook files are files.
    pub open spec fn wf(self) -> bool {
        forall|s: int, k: int| 0 <= s < 2 && 0 <= k < 2 ==> #[trigger] self.rook_files[s][k] < 8
    }

    pub fn is_chess960(&self) -> (r: bool)
        ensures
            r == self.chess960,
    {
        self.chess960
    }

    /// Rights kept when a move starts or ends on `sq`.
    pub fn mask(&self, sq: usize) -> (r: u8)
        requires
            sq < 64,
        ensures
            r == self.castle_mask[sq as int],
    {
        self.castle_mask[sq]
    }

    /// File of the rook that castles for `side`, on the king side when `ks` is one.
    pub fn rook_file(&self, side: usize, ks: usize) -> (r: u8)
        requires
            side < 2,
            ks < 2,
        ensures
            r == self.rook_files[side as int][ks as int],
    {
        self.rook_files[side][ks]
    }

    /// Reads the castling field of a FEN for the position `pos`: sets up the rook files, the
    /// Chess960 flag and the masks, and returns the castling rights.
    pub fn parse(&mut self, pos: &Position, rights_str: &str) -> (r: u8)
        ensures
            r == castle_fold(rights_str@, rights_str@.len() as int, pos.bb).0,
            final(self).parsed_from(castle_fold(rights_str@, rights_str@.len() as int, pos.bb)),
            final(self).wf(),
            r < 16,
    {
        let chars = str_chars(rights_str);
        self.parse_chars(pos, &chars)
    }

    /// The configuration that reading the castling field to the state `st` sets up.
    pub open spec fn parsed_from(self, st: CastleState) -> bool {
        &&& self.chess960 == st.3
        &&& forall|s: int, k: int| 0 <= s < 2 && 0 <= k < 2 ==> #[trigger] self.rook_files[s][k] == st.4[2 * s + k]
        &&& forall|q: int| 0 <= q < 64 ==> #[trigger] self.castle_mask[q] == castle_mask_of(st, q)
    }

    /// Reads the castling field given as characters.
    pub(crate) fn parse_chars(&mut self, pos: &Position, s: &Vec<char>) -> (r: u8)
        ensures
            r == castle_fold(s@, s@.len() as int, pos.bb).0,
            final(self).parsed_from(castle_fold(s@, s@.len() as int, pos.bb)),
            final(self).wf(),
            r < 16,
    {
        let mut kings: [usize; 2] = [4, 4];
        self.chess960 = false;
        self.rook_files[0][0] = 0;
        self.rook_files[0][1] = 7;
        self.rook_files[1][0] = 0;
        self.rook_files[1][1] = 7;
        let mut rights: u8 = 0;
        let mut i: usize = 0;
        while i < s.len()
            invariant
                i <= s@.len(),
                rights < 16,
                ({
                    let st = castle_fold(s@, i as int, pos.bb);
                    &&& rights == st.0
                    &&& kings[0] == st.1
                    &&& kings[1] == st.2
                    &&& self.chess960 == st.3
                    &&& st.4.len() == 4
                    &&& forall|a: int, k: int| 0 <= a < 2 && 0 <= k < 2 ==> #[trigger] self.rook_files[a][k] == st.4[2 * a + k]
                }),
                kings[0] < 8,
                kings[1] < 8,
                self.wf(),
            decreases s@.len() - i,
        {
            let ch = s[i];
            let b: u32 = (ch as u32) % 256;
            assert(b == castle_byte(ch));
            let add: u8 = if b == 81 {
                8
            } else if b == 75 {
                4
            } else if b == 113 {
                2
            } else if b == 107 {
                1
            } else if 65 <= b && b <= 72 {
                self.parse_castle(pos, 0, &mut kings, b)
            } else if 97 <= b && b <= 104 {
                self.parse_castle(pos, 1, &mut kings, b)
            } else {
                0
            };
            proof {
                lemma_or_small(rights, add);
            }
            rights = rights | add;
            i += 1;

        }
        let mut q: usize = 0;
        while q < 64
            invariant
                q <= 64,
                forall|a: int| 0 <= a < q ==> #[trigger] self.castle_mask[a] == 15,
                self.wf(),
                self.chess960 == castle_fold(s@, s@.len() as int, pos.bb).3,
                forall|a: int, k: int| 0 <= a < 2 && 0 <= k < 2 ==> #[trigger] self.rook_files[a][k] == castle_fold(s@, s@.len() as int, pos.bb).4[2 * a + k],
            decreases 64 - q,
        {
            self.castle_mask[q] = 15;
            q += 1;
        }
        let f00 = self.rook_files[0][0] as usize;
        let f01 = self.rook_files[0][1] as usize;
        let f10 = self.rook_files[1][0] as usize;
        let f11 = self.rook_files[1][1] as usize;
        self.castle_mask[f00] = 7;
        self.castle_mask[f01] = 11;
        self.castle_mask[f10 + 56] = 13;
        self.castle_mask[f11 + 56] = 14;
        self.castle_mask[kings[0]] = 3;
        self.castle_mask[kings[1] + 56] = 12;
        rights
    }

    /// A file letter of the castling field, as byte `b`, for `side`: records the king file
    /// and the rook file and returns the right it grants.
    fn parse_castle(&mut self, pos: &Position, side: usize, kings: &mut [usize; 2], b: u32) -> (r: u8)
        requires
            side < 2,
            side == 0 ==> 65 <= b <= 72,
            side == 1 ==> 97 <= b <= 104,
            old(self).wf(),
        ensures
            ({
                let kf = king_file(pos.bb, side as int);
                let rook = b - if side == 0 { 65int } else { 97int };
                let i = if rook > kf { 1int } else { 0int };
                &&& final(self).chess960
                &&& final(kings)[side as int] == kf
                &&& final(kings)[1 - side] == old(kings)[1 - side]
                &&& forall|a: int, k: int| 0 <= a < 2 && 0 <= k < 2 ==> #[trigger] final(self).rook_files[a][k] == if a == side && k == i {
                    rook
                } else {
                    old(self).rook_files[a][k] as int
                }
                &&& r == if side == 0 { if i == 1 { 4u8 } else { 8u8 } } else { if i == 1 { 1u8 } else { 2u8 } }
            }),
            final(self).castle_mask == old(self).castle_mask,
            final(self).wf(),
    {
        self.chess960 = true;
        let kbb = pos.bb[7] & pos.bb[side];
        let wkc: u8 = (kbb.trailing_zeros() % 8) as u8;
        kings[side] = wkc as usize;
        let base: u32 = if side == 0 { 65 } else { 97 };
        let rook: u8 = (b - base) as u8;
        let i: usize = if rook > wkc { 1 } else { 0 };
        self.rook_files[side][i] = rook;
        if side == 0 {
            if i == 1 { 4 } else { 8 }
        } else {
            if i == 1 { 1 } else { 2 }
        }
    }
}

impl Default for Castling {
    fn default() -> (r: Self)
        ensures
            !r.chess960,
            forall|q: int| 0 <= q < 64 ==> #[trigger] r.castle_mask[q] == 0,
            forall|s: int, k: int| 0 <= s < 2 && 0 <= k < 2 ==> #[trigger] r.rook_files[s][k] == 0,
    {
        Self { chess960: false, castle_mask: [0; 64], rook_files: [[0; 2]; 2] }
    }
}

} // verus!
