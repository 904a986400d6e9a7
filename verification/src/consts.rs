use vstd::prelude::*;

verus! {

/// Names of the two sides; a side indexes the first two bitboards of a position.
pub struct Side;

impl Side {
    pub const WHITE: usize = 0;
    pub const BLACK: usize = 1;
}

/// Piece kinds; a piece kind indexes bitboards two to seven of a position.
pub struct Piece;

impl Piece {
    pub const EMPTY: usize = 0;
    pub const PAWN: usize = 2;
    pub const KNIGHT: usize = 3;
    pub const BISHOP: usize = 4;
    pub const ROOK: usize = 5;
    pub const QUEEN: usize = 6;
    pub const KING: usize = 7;
}

/// Move flags: the kind of a move, stored in four bits.
pub struct Flag;

impl Flag {
    pub const QUIET: u8 = 0;
    pub const DBL: u8 = 1;
    pub const KS: u8 = 2;
    pub const QS: u8 = 3;
    pub const CAP: u8 = 4;
    pub const ENP: u8 = 5;
    pub const PROMO: u8 = 8;
    pub const QPR: u8 = 11;
    pub const NPC: u8 = 12;
    pub const QPC: u8 = 15;
}

/// Castling rights, one bit each.
pub struct Rights;

impl Rights {
    pub const WQS: u8 = 8;
    pub const WKS: u8 = 4;
    pub const BQS: u8 = 2;
    pub const BKS: u8 = 1;
    pub const WHITE: u8 = 12;
    pub const BLACK: u8 = 3;
}

/// Kind of bound a hash entry records.
pub struct Bound;

impl Bound {
    pub const LOWER: u8 = 0;
    pub const EXACT: u8 = 1;
    pub const UPPER: u8 = 2;
}

/// Score limits.
pub struct Score;

impl Score {
    pub const MAX: i32 = 30000;
    pub const MATE: i32 = 29744;
    pub const DRAW: i32 = 0;
}

/// Move ordering scores.
pub struct MoveScore;

impl MoveScore {
    pub const HASH: i32 = 3000000;
    pub const HISTORY_MAX: i32 = 16384;
    pub const PROMO: i32 = 70000;
    pub const KILLER: i32 = 69000;
    pub const CAPTURE: i32 = 131072;
}

/// File masks.
pub struct File;

impl File {
    pub const A: u64 = 0x101010101010101;
    pub const H: u64 = 0x8080808080808080;
}

/// Rank masks, indexed by side: the rank from which a pawn promotes, and the rank a double
/// push lands on.
pub struct Rank;

impl Rank {
    pub const PEN: [u64; 2] = [0xFF000000000000, 0xFF00];
    pub const DBL: [u64; 2] = [0xFF000000, 0xFF00000000];
}

/// Static exchange values of each piece kind.
pub const SEE_VALS: [i32; 8] = [0, 0, 100, 450, 450, 650, 1250, 0];

/// Game phase weight of each piece kind.
pub const PHASE_VALS: [i32; 8] = [0, 0, 0, 1, 1, 2, 4, 0];

/// Sign of the evaluation for each side.
pub const SIDE: [i32; 2] = [1, -1];

} // verus!
