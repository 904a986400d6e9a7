use vstd::prelude::*;
use crate::bits::lemma_xor_laws;

verus! {

/// One step of the xor-shift generator.
pub open spec fn xor_shift_spec(seed: u64) -> u64 {
    let a = seed ^ (seed << 13u64);
    let b = a ^ (a >> 7u64);
    b ^ (b << 17u64)
}

/// The seed the generator starts from.
pub open spec fn zobrist_seed() -> u64 {
    180_620_142u64
}

/// The `n`-th hashing value: the generator applied `n + 1` times to the seed.
pub open spec fn zkey(n: nat) -> u64
    decreases n,
{
    if n == 0 {
        xor_shift_spec(zobrist_seed())
    } else {
        xor_shift_spec(zkey((n - 1) as nat))
    }
}

/// The generator takes nonzero values to nonzero values.
pub proof fn lemma_xor_shift_nonzero(x: u64)
    by (bit_vector)
    requires
        x != 0,
    ensures
        xor_shift_spec(x) != 0,
{
}

/// Every hashing value is nonzero.
pub proof fn lemma_zkey_nonzero(n: nat)
    ensures
        zkey(n) != 0,
    decreases n,
{
    if n == 0 {
        lemma_xor_shift_nonzero(zobrist_seed());
    } else {
        lemma_zkey_nonzero((n - 1) as nat);
        lemma_xor_shift_nonzero(zkey((n - 1) as nat));
    }
}

/// Index of the hashing value of a piece of `side` and kind `pc` on `sq`.
/// Value 0 belongs to the side to move; pieces follow, then castling rights, then
/// en passant files.
pub open spec fn piece_index(side: int, pc: int, sq: int) -> int {
    1 + 384 * side + 64 * (pc - 2) + sq
}

/// Index of the hashing value of castling right number `i` (bit `i` of the rights).
pub open spec fn castle_index(i: int) -> int {
    769 + i
}

/// Index of the hashing value of an en passant square on file `f`.
pub open spec fn enp_index(f: int) -> int {
    773 + f
}

/// Simple pseudo-random number generator.
pub fn xor_shift(mut seed: u64) -> (r: u64)
    ensures
        r == xor_shift_spec(seed),
{
    seed ^= seed << 13u64;
    seed ^= seed >> 7u64;
    seed ^= seed << 17u64;
    seed
}

/// The `n`-th hashing value, produced by running the generator from the seed.
pub fn zobrist_key(n: usize) -> (r: u64)
    requires
        n < 781,
    ensures
        r == zkey(n as nat),
{
    let mut seed = xor_shift(180_620_142u64);
    let mut i: usize = 0;
    while i < n
        invariant
            i <= n,
            seed == zkey(i as nat),
        decreases n - i,
    {
        seed = xor_shift(seed);
        i += 1;
    }
    seed
}

/// Hashing value of a set of castling rights: the values of its set bits combined.
pub open spec fn castling_key(rights: u8) -> u64 {
    (if rights & 1 != 0 { zkey(769) } else { 0u64 })
    ^ (if rights & 2 != 0 { zkey(770) } else { 0u64 })
    ^ (if rights & 4 != 0 { zkey(771) } else { 0u64 })
    ^ (if rights & 8 != 0 { zkey(772) } else { 0u64 })
}

/// Holds random hash values for each aspect of the board position
pub struct ZobristVals {
    pub pieces: [[[u64; 64]; 6]; 2],
    pub castle: [u64; 4],
    pub en_passant: [u64; 8],
    pub side: u64,
}

/// The values are those of the generator, in the order of `piece_index`, `castle_index`
/// and `enp_index`.
pub open spec fn zobrist_vals_ok(z: ZobristVals) -> bool {
    &&& z.side == zkey(0)
    &&& forall|s: int, p: int, q: int| 0 <= s < 2 && 0 <= p < 6 && 0 <= q < 64 ==>
        #[trigger] z.pieces[s][p][q] == zkey(piece_index(s, p + 2, q) as nat)
    &&& forall|i: int| 0 <= i < 4 ==> #[trigger] z.castle[i] == zkey(castle_index(i) as nat)
    &&& forall|i: int| 0 <= i < 8 ==> #[trigger] z.en_passant[i] == zkey(enp_index(i) as nat)
}

impl ZobristVals {
    /// Hashing value of a piece of `side` and kind `pc` on `sq`.
    pub fn piece(side: usize, pc: usize, sq: usize) -> (r: u64)
        requires
            side < 2,
            2 <= pc < 8,
            sq < 64,
        ensures
            r == zkey(piece_index(side as int, pc as int, sq as int) as nat),
    {
        zobrist_key(1 + 384 * side + 64 * (pc - 2) + sq)
    }

    /// Hashing value of a set of castling rights.
    pub fn castling(rights: u8) -> (r: u64)
        ensures
            r == castling_key(rights),
    {
        let mut r: u64 = 0;
        if rights & 1 != 0 {
            r = r ^ zobrist_key(769);
        }
        let r1 = r;
        if rights & 2 != 0 {
            r = r ^ zobrist_key(770);
        }
        let r2 = r;
        if rights & 4 != 0 {
            r = r ^ zobrist_key(771);
        }
        let r3 = r;
        if rights & 8 != 0 {
            r = r ^ zobrist_key(772);
        }
        proof {
            let (a, b, c, d) = (
                if rights & 1 != 0 { zkey(769) } else { 0u64 },
                if rights & 2 != 0 { zkey(770) } else { 0u64 },
                if rights & 4 != 0 { zkey(771) } else { 0u64 },
                if rights & 8 != 0 { zkey(772) } else { 0u64 },
            );
            lemma_xor_laws(a, b, c);
            lemma_xor_laws(r1, b, c);
            lemma_xor_laws(r2, c, d);
            lemma_xor_laws(r3, d, d);
            assert(r1 == a);
            assert(r2 == a ^ b);
            assert(r3 == a ^ b ^ c);
        }
        r
    }

    /// Hashing value of an en passant square (only its file counts).
    pub fn en_passant(sq: u8) -> (r: u64)
        ensures
            r == zkey(enp_index((sq & 7) as int) as nat),
    {
        assert(sq & 7 < 8) by (bit_vector);
        zobrist_key(773 + (sq & 7) as usize)
    }

    /// Hashing value of the side to move: zero for white.
    pub fn side(stm: usize) -> (r: u64)
        ensures
            r == if stm == 1 { zkey(0) } else { 0u64 },
    {
        if stm == 1 {
            zobrist_key(0)
        } else {
            0
        }
    }

    /// Initialises the hashing values by running the generator from its seed.
    pub fn init() -> (r: Self)
        ensures
            zobrist_vals_ok(r),
    {
        let mut seed: u64 = 180_620_142;
        seed = xor_shift(seed);
        let mut vals = ZobristVals {
            pieces: [[[0; 64]; 6]; 2],
            castle: [0; 4],
            en_passant: [0; 8],
            side: seed,
        };
        let mut n: usize = 0;
        let mut idx: usize = 0;
        while idx < 2
            invariant
                idx <= 2,
                n == 384 * idx,
                seed == zkey(n as nat),
                vals.side == zkey(0),
                forall|s: int, p: int, q: int| 0 <= s < idx && 0 <= p < 6 && 0 <= q < 64 ==>
                    #[trigger] vals.pieces[s][p][q] == zkey(piece_index(s, p + 2, q) as nat),
            decreases 2 - idx,
        {
            let mut piece: usize = 0;
            while piece < 6
                invariant
                    idx < 2,
                    piece <= 6,
                    n == 384 * idx + 64 * piece,
                    seed == zkey(n as nat),
                    vals.side == zkey(0),
                    forall|s: int, p: int, q: int| 0 <= s < idx && 0 <= p < 6 && 0 <= q < 64 ==>
                        #[trigger] vals.pieces[s][p][q] == zkey(piece_index(s, p + 2, q) as nat),
                    forall|p: int, q: int| 0 <= p < piece && 0 <= q < 64 ==>
                        #[trigger] vals.pieces[idx as int][p][q] == zkey(piece_index(idx as int, p + 2, q) as nat),
                decreases 6 - piece,
            {
                let mut square: usize = 0;
                while square < 64
                    invariant
                        idx < 2,
                        piece < 6,
                        square <= 64,
                        n == 384 * idx + 64 * piece + square,
                        seed == zkey(n as nat),
                        vals.side == zkey(0),
                        forall|s: int, p: int, q: int| 0 <= s < idx && 0 <= p < 6 && 0 <= q < 64 ==>
                            #[trigger] vals.pieces[s][p][q] == zkey(piece_index(s, p + 2, q) as nat),
                        forall|p: int, q: int| 0 <= p < piece && 0 <= q < 64 ==>
                            #[trigger] vals.pieces[idx as int][p][q] == zkey(piece_index(idx as int, p + 2, q) as nat),
                        forall|q: int| 0 <= q < square ==>
                            #[trigger] vals.pieces[idx as int][piece as int][q] == zkey(piece_index(idx as int, piece + 2, q) as nat),
                    decreases 64 - square,
                {
                    seed = xor_shift(seed);
                    n = n + 1;
                    vals.pieces[idx][piece][square] = seed;
                    square += 1;
                }
                piece += 1;
            }
            idx += 1;
        }
        let mut i: usize = 0;
        while i < 4
            invariant
                i <= 4,
                n == 768 + i,
                seed == zkey(n as nat),
                vals.side == zkey(0),
                forall|s: int, p: int, q: int| 0 <= s < 2 && 0 <= p < 6 && 0 <= q < 64 ==>
                    #[trigger] vals.pieces[s][p][q] == zkey(piece_index(s, p + 2, q) as nat),
                forall|j: int| 0 <= j < i ==> #[trigger] vals.castle[j] == zkey(castle_index(j) as nat),
            decreases 4 - i,
        {
            seed = xor_shift(seed);
            n = n + 1;
            vals.castle[i] = seed;
            i += 1;
        }
        let mut i: usize = 0;
        while i < 8
            invariant
                i <= 8,
                n == 772 + i,
                seed == zkey(n as nat),
                vals.side == zkey(0),
                forall|s: int, p: int, q: int| 0 <= s < 2 && 0 <= p < 6 && 0 <= q < 64 ==>
                    #[trigger] vals.pieces[s][p][q] == zkey(piece_index(s, p + 2, q) as nat),
                forall|j: int| 0 <= j < 4 ==> #[trigger] vals.castle[j] == zkey(castle_index(j) as nat),
                forall|j: int| 0 <= j < i ==> #[trigger] vals.en_passant[j] == zkey(enp_index(j) as nat),
            decreases 8 - i,
        {
            seed = xor_shift(seed);
            n = n + 1;
            vals.en_passant[i] = seed;
            i += 1;
        }
        vals
    }
}

} // verus!
