use vstd::prelude::*;
use crate::consts::Flag;
use crate::frc::Castling;
use crate::position::{piece_at, Position};

verus! {

/// A move: source and destination squares, a four-bit flag and the moving piece kind.
#[derive(Copy, Clone, Debug, PartialEq, Eq, Structural)]
pub struct Move {
    pub from: u8,
    pub to: u8,
    pub flag: u8,
    pub pc: u8,
}

proof fn lemma_short_bits(f: u16, t: u16, g: u16, m: u16)
    by (bit_vector)
    requires
        f < 64,
        t < 64,
        g < 16,
    ensures
        (f << 6u16) | t | (g << 12u16) == f * 64 + t + g * 4096,
        (m >> 6u16) & 63u16 == (m / 64) % 64,
        m & 63u16 == m % 64,
        m >> 12u16 == m / 4096,
{
}

/// The sixteen-bit packing of a move without its piece: destination in bits 0..6, source in
/// bits 6..12, flag in bits 12..16.
pub open spec fn short_of(from: int, to: int, flag: int) -> int {
    to + 64 * from + 4096 * flag
}

impl Move {
    /// The move with every field zero.
    pub open spec fn spec_null() -> Move {
        Move { from: 0, to: 0, flag: 0, pc: 0 }
    }

    /// The null move: every field zero.
    #[verifier::when_used_as_spec(spec_null)]
    pub fn null() -> (r: Move)
        ensures
            r == Move::spec_null(),
    {
        Move { from: 0, to: 0, flag: 0, pc: 0 }
    }

    /// Whether the fields are in range: squares below 64, flag below 16, piece below 8.
    pub open spec fn wf(self) -> bool {
        self.from < 64 && self.to < 64 && self.flag < 16 && self.pc < 8
    }

    pub open spec fn spec_is_capture(self) -> bool {
        self.flag & 4 != 0
    }

    pub open spec fn spec_is_promo(self) -> bool {
        self.flag & 8 != 0
    }

    pub open spec fn spec_promo_pc(self) -> int {
        (self.flag & 3) + 3
    }

    pub fn from(&self) -> (r: usize)
        ensures
            r == self.from,
    {
        self.from as usize
    }

    pub fn to(&self) -> (r: usize)
        ensures
            r == self.to,
    {
        self.to as usize
    }

    pub fn moved_pc(&self) -> (r: usize)
        ensures
            r == self.pc,
    {
        self.pc as usize
    }

    pub fn flag(&self) -> (r: u8)
        ensures
            r == self.flag,
    {
        self.flag
    }

    /// Captures have the capture bit of the flag set (promotion captures and en passant too).
    pub fn is_capture(&self) -> (r: bool)
        ensures
            r == self.spec_is_capture(),
    {
        self.flag & Flag::CAP > 0
    }

    /// Noisy moves are captures and promotions.
    pub fn is_noisy(&self) -> (r: bool)
        ensures
            r == (self.flag >= 4),
    {
        self.flag >= Flag::CAP
    }

    pub fn is_en_passant(&self) -> (r: bool)
        ensures
            r == (self.flag == 5),
    {
        self.flag == Flag::ENP
    }

    pub fn is_promo(&self) -> (r: bool)
        ensures
            r == self.spec_is_promo(),
    {
        self.flag & Flag::PROMO > 0
    }

    /// The piece a promotion turns into: knight, bishop, rook or queen for the two low flag bits.
    pub fn promo_pc(&self) -> (r: usize)
        ensures
            r == self.spec_promo_pc(),
            3 <= r <= 6,
    {
        let f = self.flag;
        assert(f & 3 <= 3) by (bit_vector);
        (self.flag & 3) as usize + 3
    }

    /// Packs the move into sixteen bits; the piece is left out.
    pub fn to_short(&self) -> (r: u16)
        requires
            self.from < 64,
            self.to < 64,
            self.flag < 16,
        ensures
            r == short_of(self.from as int, self.to as int, self.flag as int),
    {
        proof {
            lemma_short_bits(self.from as u16, self.to as u16, self.flag as u16, 0);
        }
        (self.from as u16) << 6u16 | (self.to as u16) | (self.flag as u16) << 12u16
    }

    /// Source square, destination square and flag of a packed move.
    pub fn unpack_short(m: u16) -> (r: (u8, u8, u8))
        ensures
            r.0 == (m / 64) % 64,
            r.1 == m % 64,
            r.2 == m / 4096,
    {
        proof {
            lemma_short_bits(0, 0, 0, m);
        }
        (((m >> 6u16) & 63) as u8, (m & 63) as u8, (m >> 12u16) as u8)
    }
}

/// Appends a character to a string.
pub assume_specification[ String::push ](string: &mut String, ch: char)
    ensures
        final(string)@ == old(string)@.push(ch),
;

/// Coordinates of a square: its file letter and its rank digit.
pub open spec fn sq_name(i: int) -> Seq<char> {
    seq![((i % 8) + 97) as char, ((i / 8) + 49) as char]
}

/// Destination square written for a move: the castling rook's square for a castling move in
/// Chess960, else the destination.
pub open spec fn uci_to(m: Move, cs: Castling) -> int {
    if cs.chess960 && (m.flag == 2 || m.flag == 3) {
        let sf = 56 * (m.to / 56);
        sf + cs.rook_files[if sf > 0 { 1int } else { 0int }][if m.flag == 2 { 1int } else { 0int }]
    } else {
        m.to as int
    }
}

/// The UCI text of a move: source, destination and the promotion piece letter.
pub open spec fn uci_of(m: Move, cs: Castling) -> Seq<char> {
    let promo = if m.flag & 8 != 0 {
        seq![if m.flag & 3 == 0 { 'n' } else if m.flag & 3 == 1 { 'b' } else if m.flag & 3 == 2 { 'r' } else { 'q' }]
    } else {
        Seq::empty()
    };
    sq_name(m.from as int) + sq_name(uci_to(m, cs)) + promo
}

fn push_sq(s: &mut String, i: u8)
    requires
        i < 64,
    ensures
        final(s)@ == old(s)@ + sq_name(i as int),
{
    s.push(((i % 8) + 97) as char);
    s.push(((i / 8) + 49) as char);
    assert(s@ =~= old(s)@ + sq_name(i as int));
}

impl Move {
    /// Unpacks a sixteen-bit move, reading its piece off the source square of `pos`.
    pub fn from_short(m: u16, pos: &Position) -> (r: Move)
        ensures
            r.from == (m / 64) % 64,
            r.to == m % 64,
            r.flag == m / 4096,
            r.pc == piece_at(pos.bb, r.from as int),
            r.wf(),
    {
        let (from, to, flag) = Move::unpack_short(m);
        proof {
            crate::position::lemma_get_pc_sq(pos.bb, from as int);
        }
        let pc = pos.get_pc(1u64 << from as u64);
        Move { from, to, flag, pc: pc as u8 }
    }

    /// The move in UCI notation.
    pub fn to_uci(&self, castling: &Castling) -> (r: String)
        requires
            self.wf(),
            castling.wf(),
        ensures
            r@ == uci_of(*self, *castling),
    {
        let mut s = String::new();
        push_sq(&mut s, self.from);
        let to: u8 = if castling.is_chess960() && (self.flag == Flag::QS || self.flag == Flag::KS) {
            let sf: u8 = 56 * (self.to / 56);
            let side: usize = if sf > 0 { 1 } else { 0 };
            let ks: usize = if self.flag == Flag::KS { 1 } else { 0 };
            sf + castling.rook_file(side, ks)
        } else {
            self.to
        };
        push_sq(&mut s, to);
        if self.flag & 8 > 0 {
            let p = self.flag & 3;
            let c = if p == 0 {
                'n'
            } else if p == 1 {
                'b'
            } else if p == 2 {
                'r'
            } else {
                'q'
            };
            s.push(c);
        }
        proof {
            assert(s@ =~= uci_of(*self, *castling));
        }
        s
    }
}

/// Packing then unpacking a move gives back its squares and flag.
pub proof fn lemma_short_round_trip(from: int, to: int, flag: int)
    requires
        0 <= from < 64,
        0 <= to < 64,
        0 <= flag < 16,
    ensures
        (short_of(from, to, flag) / 64) % 64 == from,
        short_of(from, to, flag) % 64 == to,
        short_of(from, to, flag) / 4096 == flag,
{
    let x = short_of(from, to, flag);
    vstd::arithmetic::div_mod::lemma_fundamental_div_mod_converse(x, 64, from + 64 * flag, to);
    vstd::arithmetic::div_mod::lemma_fundamental_div_mod_converse(from + 64 * flag, 64, flag, from);
    vstd::arithmetic::div_mod::lemma_fundamental_div_mod_converse(x, 4096, flag, to + 64 * from);
}

/// `i` is the first index below `n` holding the largest of the first `n` scores.
pub open spec fn first_max(sc: Seq<i32>, n: int, i: int) -> bool {
    &&& 0 <= i < n
    &&& forall|j: int| 0 <= j < n ==> sc[j] <= sc[i]
    &&& forall|j: int| 0 <= j < i ==> sc[j] < sc[i]
}

/// A list of up to 252 moves.
#[derive(Clone, Copy)]
pub struct MoveList {
    list: [Move; 252],
    len: usize,
}

impl View for MoveList {
    type V = Seq<Move>;

    closed spec fn view(&self) -> Seq<Move> {
        self.list@.subrange(0, self.len as int)
    }
}

impl MoveList {
    #[verifier::type_invariant]
    closed spec fn inv(self) -> bool {
        self.len <= 252
    }

    /// An empty list.
    pub fn zeroed() -> (r: MoveList)
        ensures
            r@ == Seq::<Move>::empty(),
    {
        let r = MoveList { list: [Move::null(); 252], len: 0 };
        assert(r@ =~= Seq::<Move>::empty());
        r
    }

    pub fn len(&self) -> (r: usize)
        ensures
            r == self@.len(),
            r <= 252,
    {
        proof {
            use_type_invariant(self);
        }
        self.len
    }

    /// The move at index `i`.
    pub fn get(&self, i: usize) -> (r: Move)
        requires
            i < self@.len(),
        ensures
            r == self@[i as int],
    {
        proof {
            use_type_invariant(self);
        }
        self.list[i]
    }

    /// Appends a move.
    pub fn add(&mut self, mov: Move)
        requires
            old(self)@.len() < 252,
        ensures
            final(self)@ == old(self)@.push(mov),
    {
        proof {
            use_type_invariant(&*self);
        }
        let ghost old_v = self@;
        let n = self.len;
        let mut list = self.list;
        list[n] = mov;
        *self = MoveList { list, len: n + 1 };
        assert(self@ =~= old_v.push(mov));
    }

    /// Appends the move built from its parts.
    pub fn push(&mut self, from: u8, to: u8, flag: u8, mpc: usize)
        requires
            old(self)@.len() < 252,
        ensures
            final(self)@ == old(self)@.push(Move { from, to, flag, pc: mpc as u8 }),
    {
        self.add(Move { from, to, flag, pc: #[verifier::truncate] (mpc as u8) });
    }

    /// Removes and returns the move with the highest score (the first one among equals),
    /// with its score; the last move and score of the list take its place.
    pub fn pick(&mut self, scores: &mut [i32; 252]) -> (r: Option<(Move, i32)>)
        ensures
            old(self)@.len() == 0 ==> r is None && final(self)@ == old(self)@ && final(scores)@ == old(scores)@,
            old(self)@.len() > 0 ==> exists|i: int| #![trigger first_max(old(scores)@, old(self)@.len() as int, i)] {
                let n = old(self)@.len() as int;
                &&& first_max(old(scores)@, n, i)
                &&& r == Some((old(self)@[i], old(scores)@[i]))
                &&& final(self)@ == old(self)@.update(i, old(self)@[n - 1]).take(n - 1)
                &&& final(scores)@ == old(scores)@.update(i, old(scores)@[n - 1]).update(n - 1, old(scores)@[i])
            },
    {
        proof {
            use_type_invariant(&*self);
        }
        if self.len == 0 {
            return None;
        }
        let n = self.len;
        let mut idx: usize = 0;
        let mut best: i32 = i32::MIN;
        let mut i: usize = 0;
        while i < n
            invariant
                0 < n <= 252,
                i <= n,
                idx < n,
                i == 0 ==> idx == 0 && best == i32::MIN,
                i > 0 ==> best == scores[idx as int] && idx < i,
                forall|j: int| 0 <= j < i ==> scores[j] <= best,
                forall|j: int| 0 <= j < idx ==> scores[j] < best,
            decreases n - i,
        {
            if scores[i] > best {
                best = scores[i];
                idx = i;
            }
            i += 1;
        }
        let ghost old_v = self@;
        let ghost old_sc = scores@;
        assert(first_max(old_sc, n as int, idx as int));
        let last = n - 1;
        let tmp = scores[idx];
        scores[idx] = scores[last];
        scores[last] = tmp;
        let mut list = self.list;
        let m = list[idx];
        list[idx] = list[last];
        list[last] = m;
        *self = MoveList { list, len: last };
        assert(self@ =~= old_v.update(idx as int, old_v[n - 1]).take(n - 1));
        assert(scores@ =~= old_sc.update(idx as int, old_sc[n - 1]).update(n - 1, old_sc[idx as int]));
        Some((m, best))
    }

    /// Makes this list `mov` followed by the moves of `other`.
    pub fn copy_in(&mut self, mov: Move, other: &Self)
        requires
            other@.len() < 252,
        ensures
            final(self)@ == seq![mov] + other@,
    {
        proof {
            use_type_invariant(other);
        }
        let n = other.len;
        let mut list = self.list;
        list[0] = mov;
        let mut i: usize = 0;
        while i < n
            invariant
                n == other@.len(),
                n == other.len,
                n < 252,
                i <= n,
                list[0] == mov,
                forall|j: int| 0 <= j < i ==> list[j + 1] == other@[j],
            decreases n - i,
        {
            assert(other.list[i as int] == other@[i as int]);
            list[i + 1] = other.list[i];
            i += 1;
        }
        *self = MoveList { list, len: n + 1 };
        assert(self@ =~= seq![mov] + other@);
    }

    /// Empties the list.
    pub fn clear(&mut self)
        ensures
            final(self)@ == Seq::<Move>::empty(),
    {
        let list = self.list;
        *self = MoveList { list, len: 0 };
        assert(self@ =~= Seq::<Move>::empty());
    }
}

} // verus!
