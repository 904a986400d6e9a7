use vstd::prelude::*;

verus! {

/// Whether bit `s` of `bb` is set.
pub open spec fn bit(bb: u64, s: u64) -> bool {
    (bb >> s) & 1u64 == 1u64
}

/// Whether the bitboard `bb` holds the square `sq` (squares are 0..64, a1 = 0, h8 = 63).
pub open spec fn on(bb: u64, sq: int) -> bool {
    0 <= sq < 64 && bit(bb, sq as u64)
}

/// The bitboard holding exactly the square `sq`.
pub open spec fn sq_bb(sq: int) -> u64 {
    1u64 << (sq as u64)
}

proof fn lemma_bit_ops_u64(a: u64, b: u64, s: u64, t: u64)
    by (bit_vector)
    requires
        s < 64,
        t < 64,
    ensures
        bit(a | b, s) == (bit(a, s) || bit(b, s)),
        bit(a & b, s) == (bit(a, s) && bit(b, s)),
        bit(a ^ b, s) == (bit(a, s) != bit(b, s)),
        bit(!a, s) == !bit(a, s),
        bit(1u64 << t, s) == (s == t),
        bit(0u64, s) == false,
        (a & (1u64 << t) != 0) == bit(a, t),
{
}

/// Exclusive or is associative and commutative, with zero as unit and every value its own
/// inverse.
pub proof fn lemma_xor_laws(a: u64, b: u64, c: u64)
    by (bit_vector)
    ensures
        a ^ 0u64 == a,
        0u64 ^ a == a,
        a ^ a == 0u64,
        a ^ b == b ^ a,
        (a ^ b) ^ c == a ^ (b ^ c),
{
}

/// A bitboard meets the single-square bitboard of `t` exactly when it holds `t`.
pub proof fn lemma_and_sq_bb(a: u64, t: int)
    requires
        0 <= t < 64,
    ensures
        (a & sq_bb(t) != 0) == on(a, t),
{
    lemma_bit_ops_u64(a, a, t as u64, t as u64);
}

pub broadcast proof fn lemma_on_or(a: u64, b: u64, s: int)
    ensures
        #[trigger] on(a | b, s) == (on(a, s) || on(b, s)),
{
    if 0 <= s < 64 {
        lemma_bit_ops_u64(a, b, s as u64, 0);
    }
}

pub broadcast proof fn lemma_on_and(a: u64, b: u64, s: int)
    ensures
        #[trigger] on(a & b, s) == (on(a, s) && on(b, s)),
{
    if 0 <= s < 64 {
        lemma_bit_ops_u64(a, b, s as u64, 0);
    }
}

pub broadcast proof fn lemma_on_xor(a: u64, b: u64, s: int)
    ensures
        #[trigger] on(a ^ b, s) == (on(a, s) != on(b, s)),
{
    if 0 <= s < 64 {
        lemma_bit_ops_u64(a, b, s as u64, 0);
    }
}

pub broadcast proof fn lemma_on_not(a: u64, s: int)
    ensures
        #[trigger] on(!a, s) == (0 <= s < 64 && !on(a, s)),
{
    if 0 <= s < 64 {
        lemma_bit_ops_u64(a, a, s as u64, 0);
    }
}

pub broadcast proof fn lemma_on_sq_bb(t: int, s: int)
    requires
        0 <= t < 64,
    ensures
        #[trigger] on(sq_bb(t), s) == (s == t),
{
    if 0 <= s < 64 {
        lemma_bit_ops_u64(0, 0, s as u64, t as u64);
    }
}

pub broadcast proof fn lemma_on_zero(s: int)
    ensures
        !#[trigger] on(0u64, s),
{
    if 0 <= s < 64 {
        lemma_bit_ops_u64(0, 0, s as u64, 0);
    }
}

proof fn lemma_pop_u64(bb: u64, t: u64)
    by (bit_vector)
    requires
        t < 64,
        (bb >> t) & 1u64 == 1u64,
        bb << ((64 - t) as u64) == 0,
    ensures
        forall|s: u64| s < 64 ==> #[trigger] bit(bb & ((bb - 1) as u64), s) == (bit(bb, s) && s != t),
        bb & ((bb - 1) as u64) < bb,
        bb & ((bb - 1) as u64) == bb ^ (1u64 << t),
        bb & ((!bb + 1) as u64) == (1u64 << t),
{
}

/// The lowest square of a non-empty bitboard, and what clearing it leaves.
pub proof fn lemma_pop_lsb(bb: u64)
    requires
        bb != 0,
    ensures
        0 <= bb.trailing_zeros() < 64,
        on(bb, bb.trailing_zeros() as int),
        forall|s: int| 0 <= s < bb.trailing_zeros() ==> !(#[trigger] on(bb, s)),
        forall|s: int| #[trigger] on(bb & ((bb - 1) as u64), s) == (on(bb, s) && s != bb.trailing_zeros()),
        bb & ((bb - 1) as u64) < bb,
        bb & ((bb - 1) as u64) == bb ^ sq_bb(bb.trailing_zeros() as int),
        bb & ((!bb + 1) as u64) == sq_bb(bb.trailing_zeros() as int),
{
    vstd::std_specs::bits::axiom_u64_trailing_zeros(bb);
    let t = bb.trailing_zeros() as u64;
    lemma_pop_u64(bb, t);
    assert forall|s: int| 0 <= s < bb.trailing_zeros() implies !(#[trigger] on(bb, s)) by {
        assert((bb >> (s as u64)) & 1u64 == 0u64);
    }
    assert forall|s: int| #[trigger] on(bb & ((bb - 1) as u64), s) == (on(bb, s) && s != bb.trailing_zeros()) by {
        if 0 <= s < 64 {
            assert(bit(bb & ((bb - 1) as u64), s as u64) == (bit(bb, s as u64) && s as u64 != t));
        }
    }
}

proof fn lemma_xor_zero(a: u64, b: u64)
    by (bit_vector)
    requires
        a ^ b == 0,
    ensures
        a == b,
{
}

/// Two bitboards that hold the same squares are equal.
pub proof fn lemma_bb_ext(a: u64, b: u64)
    requires
        forall|s: int| 0 <= s < 64 ==> on(a, s) == on(b, s),
    ensures
        a == b,
{
    let x = a ^ b;
    if x != 0 {
        vstd::std_specs::bits::axiom_u64_trailing_zeros(x);
        let t = x.trailing_zeros() as int;
        lemma_on_xor(a, b, t);
        assert(on(a, t) == on(b, t));
        assert(false);
    }
    lemma_xor_zero(a, b);
}

/// The empty bitboard is the one that holds no square.
pub proof fn lemma_bb_empty(a: u64)
    ensures
        a == 0 <==> forall|s: int| 0 <= s < 64 ==> !on(a, s),
{
    if a != 0 {
        vstd::std_specs::bits::axiom_u64_trailing_zeros(a);
        let t = a.trailing_zeros() as int;
        assert(on(a, t));
    } else {
        assert forall|s: int| 0 <= s < 64 implies !on(a, s) by {
            lemma_on_zero(s);
        }
    }
}

proof fn lemma_shift_u64(a: u64, s: u64, k: u64)
    by (bit_vector)
    requires
        s < 64,
        k < 64,
    ensures
        bit(a >> k, s) == (s + k < 64 && bit(a, (s + k) as u64)),
        bit(a << k, s) == (s >= k && bit(a, (s - k) as u64)),
{
}

pub broadcast proof fn lemma_on_shr(a: u64, k: u64, s: int)
    requires
        k < 64,
    ensures
        #[trigger] on(a >> k, s) == (0 <= s && on(a, s + k)),
{
    if 0 <= s < 64 {
        lemma_shift_u64(a, s as u64, k);
    }
}

pub broadcast proof fn lemma_on_shl(a: u64, k: u64, s: int)
    requires
        k < 64,
    ensures
        #[trigger] on(a << k, s) == (s < 64 && on(a, s - k)),
{
    if 0 <= s < 64 {
        lemma_shift_u64(a, s as u64, k);
    }
}

proof fn lemma_btwn_u64(x: u64, y: u64, s: u64)
    by (bit_vector)
    requires
        x < 64,
        y < 64,
        s < 64,
    ensures
        x < y ==> bit((((1u64 << y) - (1u64 << x)) as u64) ^ (1u64 << x), s) == (x < s && s < y),
        y < x ==> bit((((1u64 << x) - (1u64 << y)) as u64) ^ (1u64 << y), s) == (y < s && s < x),
        bit((((1u64 << x) - (1u64 << x)) as u64) ^ (1u64 << x), s) == (s == x),
{
}

/// The squares strictly between two squares on a line of bit indices (the square itself when
/// both are the same).
pub open spec fn btwn_spec(x: int, y: int, s: int) -> bool {
    if x < y {
        x < s < y
    } else if y < x {
        y < s < x
    } else {
        s == x
    }
}

/// The lowest square of the single-square bitboard of `x` is `x`.
pub proof fn lemma_tz_sq_bb(x: int)
    requires
        0 <= x < 64,
    ensures
        sq_bb(x).trailing_zeros() == x,
{
    let b = sq_bb(x);
    vstd::std_specs::bits::axiom_u64_trailing_zeros(b);
    lemma_on_sq_bb(x, x);
    if b.trailing_zeros() < 64 {
        lemma_on_sq_bb(x, b.trailing_zeros() as int);
        assert(on(b, b.trailing_zeros() as int));
    } else {
        assert(b != 0);
    }
    if x < b.trailing_zeros() {
        assert((b >> (x as u64)) & 1u64 == 0u64);
        assert(false);
    }
}

/// Squares strictly between the squares of two single-square bitboards: the larger minus the
/// smaller, without the smaller.
pub(crate) fn btwn(bit1: u64, bit2: u64, Ghost(x): Ghost<int>, Ghost(y): Ghost<int>) -> (r: u64)
    requires
        0 <= x < 64,
        0 <= y < 64,
        bit1 == sq_bb(x),
        bit2 == sq_bb(y),
    ensures
        forall|s: int| #[trigger] on(r, s) == (0 <= s < 64 && btwn_spec(x, y, s)),
{
    proof {
        lemma_sq_bb_order(x, y);
        lemma_sq_bb_inj(x, y);
    }
    let min = if bit1 < bit2 { bit1 } else { bit2 };
    let max = if bit1 < bit2 { bit2 } else { bit1 };
    let r = (max - min) ^ min;
    proof {
        assert forall|s: int| #[trigger] on(r, s) == (0 <= s < 64 && btwn_spec(x, y, s)) by {
            if 0 <= s < 64 {
                lemma_btwn_u64(x as u64, y as u64, s as u64);
            }
        }
    }
    r
}

proof fn lemma_sq_bb_u64(x: u64, y: u64)
    by (bit_vector)
    requires
        x < 64,
        y < 64,
    ensures
        (1u64 << x < 1u64 << y) == (x < y),
        (1u64 << x == 1u64 << y) == (x == y),
{
}

proof fn lemma_sq_bb_order(x: int, y: int)
    requires
        0 <= x < 64,
        0 <= y < 64,
    ensures
        (sq_bb(x) < sq_bb(y)) == (x < y),
{
    lemma_sq_bb_u64(x as u64, y as u64);
}

/// Different squares have different single-square bitboards.
pub proof fn lemma_sq_bb_inj(x: int, y: int)
    requires
        0 <= x < 64,
        0 <= y < 64,
    ensures
        (sq_bb(x) == sq_bb(y)) == (x == y),
{
    lemma_sq_bb_u64(x as u64, y as u64);
}

/// Flipping bit three of a square keeps it on the board.
pub proof fn lemma_u8_xor8(t: u8)
    by (bit_vector)
    ensures
        t < 64 ==> t ^ 8u8 < 64,
{
}

pub broadcast group group_bits {
    lemma_on_or,
    lemma_on_and,
    lemma_on_xor,
    lemma_on_not,
    lemma_on_sq_bb,
    lemma_on_zero,
    lemma_on_shr,
    lemma_on_shl,
}

/// Integer division rounding towards zero, as Rust's `/` does, for a positive divisor.
pub open spec fn tdiv(a: int, b: int) -> int {
    if a >= 0 {
        a / b
    } else {
        -((-a) / b)
    }
}

} // verus!
