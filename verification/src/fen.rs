use vstd::prelude::*;
use crate::bits::{group_bits, lemma_xor_laws, on};
use crate::consts::{Rights, PHASE_VALS};
use crate::frc::{castle_fold, Castling};
use crate::position::{
    board_hash, board_ok, board_phase, cell, cell_key, cells_of, fold_hash, fold_phase, phase_val, Position,
};

verus! {

broadcast use group_bits;

/// Whitespace as `split_whitespace` sees it in ASCII text.
pub open spec fn is_ws(c: char) -> bool {
    c == ' ' || c == '\t' || c == '\n' || c == '\r' || c == '\x0B' || c == '\x0C'
}

/// The whitespace-separated words of `s` from index `i` on, given the word `cur` being read
/// and the words `acc` already read.
pub open spec fn tokens_from(s: Seq<char>, i: int, cur: Seq<char>, acc: Seq<Seq<char>>) -> Seq<Seq<char>>
    decreases s.len() - i,
{
    if i >= s.len() {
        if cur.len() > 0 {
            acc.push(cur)
        } else {
            acc
        }
    } else if is_ws(s[i]) {
        tokens_from(s, i + 1, Seq::empty(), if cur.len() > 0 { acc.push(cur) } else { acc })
    } else {
        tokens_from(s, i + 1, cur.push(s[i]), acc)
    }
}

/// The whitespace-separated words of `s`.
pub open spec fn tokens(s: Seq<char>) -> Seq<Seq<char>> {
    tokens_from(s, 0, Seq::empty(), Seq::empty())
}

/// The characters of a string.
pub fn str_chars(s: &str) -> (r: Vec<char>)
    ensures
        r@ == s@,
{
    let n = s.unicode_len();
    let mut r: Vec<char> = Vec::new();
    let mut i: usize = 0;
    while i < n
        invariant
            n == s@.len(),
            i <= n,
            r@ == s@.subrange(0, i as int),
        decreases n - i,
    {
        r.push(s.get_char(i));
        i += 1;
        assert(r@ =~= s@.subrange(0, i as int));
    }
    assert(r@ =~= s@);
    r
}

fn char_is_ws(c: char) -> (r: bool)
    ensures
        r == is_ws(c),
{
    c == ' ' || c == '\t' || c == '\n' || c == '\r' || c == '\x0B' || c == '\x0C'
}

/// Splits text into its whitespace-separated words.
pub fn split_whitespace(s: &Vec<char>) -> (r: Vec<Vec<char>>)
    ensures
        r@.len() == tokens(s@).len(),
        forall|i: int| 0 <= i < r@.len() ==> #[trigger] r@[i]@ == tokens(s@)[i],
        forall|i: int| 0 <= i < r@.len() ==> (#[trigger] r@[i]@).len() <= s@.len(),
{
    let mut acc: Vec<Vec<char>> = Vec::new();
    let mut cur: Vec<char> = Vec::new();
    let mut i: usize = 0;
    let ghost mut accv: Seq<Seq<char>> = Seq::empty();
    while i < s.len()
        invariant
            i <= s@.len(),
            acc@.len() == accv.len(),
            forall|j: int| 0 <= j < acc@.len() ==> #[trigger] acc@[j]@ == accv[j],
            forall|j: int| 0 <= j < acc@.len() ==> (#[trigger] acc@[j]@).len() <= s@.len(),
            cur@.len() <= i,
            tokens(s@) == tokens_from(s@, i as int, cur@, accv),
        decreases s@.len() - i,
    {
        let c = s[i];
        if char_is_ws(c) {
            if cur.len() > 0 {
                let ghost cv = cur@;
                acc.push(cur);
                proof {
                    accv = accv.push(cv);
                }
                cur = Vec::new();
            } else {
                cur = Vec::new();
            }
            assert(cur@ =~= Seq::<char>::empty());
        } else {
            cur.push(c);
        }
        i += 1;
    }
    if cur.len() > 0 {
        let ghost cv = cur@;
        acc.push(cur);
        proof {
            accv = accv.push(cv);
        }
    }
    acc
}

/// Value of a string of decimal digits.
pub open spec fn digits_val(s: Seq<char>) -> int
    decreases s.len(),
{
    if s.len() == 0 {
        0
    } else {
        digits_val(s.drop_last()) * 10 + (s.last() as int - '0' as int)
    }
}

/// Every character is a decimal digit.
pub open spec fn all_digits(s: Seq<char>) -> bool {
    forall|i: int| 0 <= i < s.len() ==> '0' <= #[trigger] s[i] <= '9'
}

/// What parsing `s` as a `u8` gives: an optional plus sign and at least one digit, with a value
/// that fits.
pub open spec fn parse_u8_spec(s: Seq<char>) -> Option<u8> {
    let d = if s.len() > 0 && s[0] == '+' { s.drop_first() } else { s };
    if d.len() > 0 && all_digits(d) && digits_val(d) <= 255 {
        Some(digits_val(d) as u8)
    } else {
        None
    }
}

pub(crate) proof fn lemma_digits_grow(s: Seq<char>, i: int)
    requires
        all_digits(s),
        0 <= i <= s.len(),
    ensures
        digits_val(s.take(i)) <= digits_val(s),
        0 <= digits_val(s.take(i)),
    decreases s.len() - i,
{
    if i < s.len() {
        lemma_digits_grow(s, i + 1);
        assert(s.take(i + 1).drop_last() =~= s.take(i));
    } else {
        assert(s.take(i) =~= s);
        lemma_digits_nonneg(s);
    }
}

proof fn lemma_digits_nonneg(s: Seq<char>)
    requires
        all_digits(s),
    ensures
        0 <= digits_val(s),
    decreases s.len(),
{
    if s.len() > 0 {
        assert(all_digits(s.drop_last()));
        lemma_digits_nonneg(s.drop_last());
    }
}

/// Parses a `u8` the way `str::parse` does.
pub fn parse_u8(s: &Vec<char>) -> (r: Option<u8>)
    ensures
        r == parse_u8_spec(s@),
{
    let start: usize = if s.len() > 0 && s[0] == '+' { 1 } else { 0 };
    let ghost d = if s@.len() > 0 && s@[0] == '+' { s@.drop_first() } else { s@ };
    assert(d =~= s@.subrange(start as int, s@.len() as int));
    if start >= s.len() {
        return None;
    }
    let mut v: u32 = 0;
    let mut i: usize = start;
    while i < s.len()
        invariant
            start <= i <= s@.len(),
            d == s@.subrange(start as int, s@.len() as int),
            d == (if s@.len() > 0 && s@[0] == '+' { s@.drop_first() } else { s@ }),
            forall|j: int| 0 <= j < i - start ==> '0' <= #[trigger] d[j] <= '9',
            v == digits_val(d.take(i - start)),
            v <= 255,
        decreases s@.len() - i,
    {
        let c = s[i];
        if c < '0' || c > '9' {
            assert(d[i - start] == c);
            assert(!all_digits(d));
            return None;
        }
        assert(d.take(i + 1 - start).drop_last() =~= d.take(i - start));
        assert(d.take(i + 1 - start).last() == c);
        v = v * 10 + (c as u32 - '0' as u32);
        assert(v == digits_val(d.take(i + 1 - start)));
        i += 1;
        if v > 255 {
            proof {
                if all_digits(d) {
                    lemma_digits_grow(d, i - start);
                }
            }
            return None;
        }
    }
    assert(d.take(i - start) =~= d);
    Some(v as u8)
}

/// Index of a piece letter in `PNBRQKpnbrqk`, or -1.
pub open spec fn piece_code(c: char) -> int {
    if c == 'P' {
        0
    } else if c == 'N' {
        1
    } else if c == 'B' {
        2
    } else if c == 'R' {
        3
    } else if c == 'Q' {
        4
    } else if c == 'K' {
        5
    } else if c == 'p' {
        6
    } else if c == 'n' {
        7
    } else if c == 'b' {
        8
    } else if c == 'r' {
        9
    } else if c == 'q' {
        10
    } else if c == 'k' {
        11
    } else {
        -1
    }
}

fn piece_code_of(c: char) -> (r: i32)
    ensures
        r == piece_code(c),
{
    if c == 'P' {
        0
    } else if c == 'N' {
        1
    } else if c == 'B' {
        2
    } else if c == 'R' {
        3
    } else if c == 'Q' {
        4
    } else if c == 'K' {
        5
    } else if c == 'p' {
        6
    } else if c == 'n' {
        7
    } else if c == 'b' {
        8
    } else if c == 'r' {
        9
    } else if c == 'q' {
        10
    } else if c == 'k' {
        11
    } else {
        -1
    }
}

/// Cell of a piece letter of code `idx`: eight times the side plus the piece kind.
pub open spec fn code_cell(idx: int) -> int {
    let side = if idx > 5 { 1int } else { 0int };
    8 * side + idx + 2 - 6 * side
}

/// Reading state of the piece placement field: rank, file, board and whether it still reads
/// a proper board.
pub type PlaceState = (int, int, Seq<int>, bool);

/// One character of the piece placement field: `/` goes to the start of the rank below, a digit
/// skips that many files, a piece letter puts its piece on the current square (which must be an
/// empty square of the board), anything else is ignored.
pub open spec fn place_step(st: PlaceState, c: char) -> PlaceState {
    let (row, col, cells, ok) = st;
    if !ok {
        st
    } else if c == '/' {
        (row - 1, 0, cells, ok)
    } else if '1' <= c <= '8' {
        (row, col + (c as int - '0' as int), cells, ok)
    } else if piece_code(c) >= 0 {
        let sq = 8 * row + col;
        if 0 <= sq < 64 && cells[sq] == 0 {
            (row, col + 1, cells.update(sq, code_cell(piece_code(c))), ok)
        } else {
            (row, col, cells, false)
        }
    } else {
        st
    }
}

/// Reading state after the first `n` characters of the piece placement field.
pub open spec fn place_fold(s: Seq<char>, n: int) -> PlaceState
    decreases n,
{
    if n <= 0 {
        (7, 0, Seq::new(64, |q: int| 0int), true)
    } else {
        place_step(place_fold(s, n - 1), s[n - 1])
    }
}

proof fn lemma_empty_fold(c: spec_fn(int) -> int, pawns: bool, n: int)
    requires
        0 <= n <= 64,
        forall|q: int| 0 <= q < 64 ==> #[trigger] c(q) == 0,
    ensures
        fold_hash(c, pawns, n) == 0u64,
        fold_phase(c, n) == 0,
    decreases n,
{
    if n > 0 {
        lemma_empty_fold(c, pawns, n - 1);
        lemma_xor_laws(0u64, 0u64, 0u64);
        assert(cell_key(c(n - 1), n - 1, pawns) == 0u64);
    }
}

/// Once the placement field has failed to read as a board, it stays failed.
proof fn lemma_place_fail_stays(s: Seq<char>, m: int, n: int)
    requires
        0 <= m <= n,
        !place_fold(s, m).3,
    ensures
        !place_fold(s, n).3,
    decreases n - m,
{
    if m < n {
        lemma_place_fail_stays(s, m, n - 1);
    }
}

/// Longest FEN read: beyond this the board coordinates could leave the range kept for them.
pub const FEN_MAX_CHARS: usize = 16_000_000;

/// Reads the piece placement field onto an empty position.
fn place_pieces(s: &Vec<char>) -> (r: Option<Position>)
    requires
        s@.len() <= FEN_MAX_CHARS,
    ensures
        (r is Some) == place_fold(s@, s@.len() as int).3,
        r matches Some(p) ==> {
            &&& p.wf()
            &&& forall|q: int| 0 <= q < 64 ==> #[trigger] cell(p.bb, q) == place_fold(s@, s@.len() as int).2[q]
            &&& !p.c
            &&& p.halfm == 0
            &&& p.enp_sq == 0
            &&& p.rights == 0
            &&& !p.check
        },
{
    let mut pos = Position::empty();
    let mut row: i32 = 7;
    let mut col: i32 = 0;
    let mut i: usize = 0;
    proof {
        assert forall|q: int| 0 <= q < 64 implies #[trigger] cell(pos.bb, q) == place_fold(s@, 0).2[q] by {}
    }
    while i < s.len()
        invariant
            s@.len() <= FEN_MAX_CHARS,
            i <= s@.len(),
            pos.wf(),
            !pos.c,
            pos.halfm == 0,
            pos.enp_sq == 0,
            pos.rights == 0,
            !pos.check,
            7 - i <= row <= 7,
            0 <= col <= 8 * i,
            place_fold(s@, i as int).0 == row,
            place_fold(s@, i as int).1 == col,
            place_fold(s@, i as int).2.len() == 64,
            place_fold(s@, i as int).3,
            forall|q: int| 0 <= q < 64 ==> #[trigger] cell(pos.bb, q) == place_fold(s@, i as int).2[q],
        decreases s@.len() - i,
    {
        let ch = s[i];
        let code = piece_code_of(ch);
        let ghost st = place_fold(s@, i as int);
        if ch == '/' {
            row = row - 1;
            col = 0;
        } else if '1' <= ch && ch <= '8' {
            col = col + (ch as u32 - '0' as u32) as i32;
        } else if code >= 0 {
            let sq = 8 * row + col;
            if sq < 0 || sq >= 64 {
                proof {
                    lemma_place_fail_stays(s@, i + 1, s@.len() as int);
                }
                return None;
            }
            let occ = pos.bb[0] | pos.bb[1];
            proof {
                crate::bits::lemma_and_sq_bb(occ, sq as int);
            }
            if occ & (1u64 << sq as u64) != 0 {
                proof {
                    assert(cell(pos.bb, sq as int) != 0);
                    lemma_place_fail_stays(s@, i + 1, s@.len() as int);
                }
                return None;
            }
            let side: usize = if code > 5 { 1 } else { 0 };
            let pc: usize = (code as usize) + 2 - 6 * side;
            proof {
                assert(cell(pos.bb, sq as int) == 0);
            }
            proof {
                assert(forall|p: int| 0 <= p < 8 ==> #[trigger] PHASE_VALS[p] == phase_val(p));
            }
            pos.add_piece(side, pc, sq as usize);
            proof {
                lemma_fold_phase_le(pos.bb);
            }
            pos.phase = pos.phase + PHASE_VALS[pc];
            col = col + 1;
        }
        i += 1;
        proof {
            assert forall|q: int| 0 <= q < 64 implies #[trigger] cell(pos.bb, q) == place_fold(s@, i as int).2[q] by {}
        }
    }
    Some(pos)
}

proof fn lemma_fold_phase_le(bb: [u64; 8])
    ensures
        0 <= board_phase(bb) <= 256,
{
    crate::position::lemma_fold_phase_bounds(cells_of(bb), 64);
}

/// The en passant square a FEN field names: `-` for none (zero), else a square given by a
/// file letter and a rank digit that lies on the board.
pub open spec fn enp_spec(t: Seq<char>) -> Option<u8> {
    if t =~= seq!['-'] {
        Some(0u8)
    } else if t.len() >= 2 && '0' <= t[1] <= '9' {
        let v = 8 * (t[1] as int - '0' as int) + ((t[0] as u32) % 256) as int - 105;
        if 0 <= v < 64 {
            Some(v as u8)
        } else {
            None
        }
    } else {
        None
    }
}

fn parse_enp(t: &Vec<char>) -> (r: Option<u8>)
    ensures
        r == enp_spec(t@),
{
    if t.len() == 1 && t[0] == '-' {
        assert(t@ =~= seq!['-']);
        return Some(0);
    }
    assert(!(t@ =~= seq!['-']));
    if t.len() >= 2 && '0' <= t[1] && t[1] <= '9' {
        let d = (t[1] as u32 - '0' as u32) as i32;
        let f = ((t[0] as u32) % 256) as i32;
        let v = 8 * d + f - 105;
        if 0 <= v && v < 64 {
            Some(v as u8)
        } else {
            None
        }
    } else {
        None
    }
}

/// The text is a FEN that can be read: at least four fields, a piece placement that puts
/// pieces on empty squares of the board, a readable en passant field and, where there is a
/// fifth field, a half-move clock that fits a byte.
pub open spec fn fen_ok(f: Seq<char>) -> bool {
    let t = tokens(f);
    &&& t.len() >= 4
    &&& place_fold(t[0], t[0].len() as int).3
    &&& enp_spec(t[3]) is Some
    &&& (t.len() >= 5 ==> parse_u8_spec(t[4]) is Some)
}

/// `p` and `cs` are the position and castling configuration the FEN `f` describes.
pub open spec fn fen_read(f: Seq<char>, p: Position, cs: Castling) -> bool {
    let t = tokens(f);
    let st = castle_fold(t[2], t[2].len() as int, p.bb);
    &&& p.wf()
    &&& forall|q: int| 0 <= q < 64 ==> #[trigger] cell(p.bb, q) == place_fold(t[0], t[0].len() as int).2[q]
    &&& p.c == (t[1] =~= seq!['b'])
    &&& p.enp_sq == enp_spec(t[3]).unwrap()
    &&& p.halfm == fen_halfm(t)
    &&& p.rights == st.0
    &&& !p.check
    &&& cs.parsed_from(st)
    &&& cs.wf()
}

/// The half-move clock a FEN gives: its fifth field, zero when there is none.
pub open spec fn fen_halfm(t: Seq<Seq<char>>) -> u8 {
    if t.len() >= 5 {
        parse_u8_spec(t[4]).unwrap()
    } else {
        0
    }
}

impl Position {
    /// Reads a position from FEN, setting up `castling` from its castling field.
    pub fn from_fen(fen: &str, castling: &mut Castling) -> (r: Option<Position>)
        requires
            fen@.len() <= FEN_MAX_CHARS,
        ensures
            (r is Some) == fen_ok(fen@),
            r is None ==> *final(castling) == *old(castling),
            r matches Some(p) ==> fen_read(fen@, p, *final(castling)),
    {
        let chars = str_chars(fen);
        Self::from_fen_chars(&chars, castling)
    }

    /// Reads a position from FEN given as characters.
    pub fn from_fen_chars(chars: &Vec<char>, castling: &mut Castling) -> (r: Option<Position>)
        requires
            chars@.len() <= FEN_MAX_CHARS,
        ensures
            (r is Some) == fen_ok(chars@),
            r is None ==> *final(castling) == *old(castling),
            r matches Some(p) ==> fen_read(chars@, p, *final(castling)),
    {
        let toks = split_whitespace(&chars);
        if toks.len() < 4 {
            return None;
        }
        let placed = place_pieces(&toks[0]);
        let mut pos = match placed {
            Some(p) => p,
            None => {
                return None;
            },
        };
        pos.c = toks[1].len() == 1 && toks[1][0] == 'b';
        proof {
            assert(pos.c == (toks@[1]@ =~= seq!['b']));
        }
        pos.enp_sq = match parse_enp(&toks[3]) {
            Some(e) => e,
            None => {
                return None;
            },
        };
        pos.halfm = if toks.len() >= 5 {
            match parse_u8(&toks[4]) {
                Some(h) => h,
                None => {
                    return None;
                },
            }
        } else {
            0
        };
        let rights = castling.parse_chars(&pos, &toks[2]);
        pos.rights = rights;
        Some(pos)
    }

    /// The position with no pieces, white to move and nothing else set.
    pub fn empty() -> (r: Position)
        ensures
            r.wf(),
            forall|q: int| 0 <= q < 64 ==> #[trigger] cell(r.bb, q) == 0,
            !r.c,
            r.halfm == 0,
            r.enp_sq == 0,
            r.rights == 0,
            !r.check,
    {
        let r = Position {
            bb: [0; 8],
            c: false,
            halfm: 0,
            enp_sq: 0,
            rights: 0,
            check: false,
            hash: 0,
            pawnhash: 0,
            phase: 0,
        };
        proof {
            assert forall|q: int| 0 <= q < 64 implies #[trigger] cell(r.bb, q) == 0 by {
                assert(r.bb[0] == 0u64 && r.bb[1] == 0u64);
            }
            assert(board_ok(r.bb)) by {
                assert forall|q: int, p: int| 0 <= q < 64 && 2 <= p < 8 && #[trigger] on(r.bb[p], q) implies crate::position::piece_at(r.bb, q) == p by {
                    assert(r.bb[p] == 0u64);
                }
            }
            lemma_empty_fold(cells_of(r.bb), false, 64);
            lemma_empty_fold(cells_of(r.bb), true, 64);
        }
        r
    }
}

} // verus!
