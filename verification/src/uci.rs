use vstd::prelude::*;
use crate::fen::{all_digits, digits_val, fen_read, lemma_digits_grow, str_chars};
use crate::frc::Castling;
use crate::movegen::{all_gen, all_ok, gen_move, lemma_fit, owed_fit};
use crate::moves::{uci_of, Move};
use crate::position::{move_ok, stm_of, Position};
use crate::status::{king_attacked, lemma_made_unique, lemma_not_legal, legal_move, made, plays_to};

verus! {

/// The starting position.
pub const STARTPOS: &'static str = "rnbqkbnr/pppppppp/8/8/8/8/PPPPPPPP/RNBQKBNR w KQkq - 0 1";

/// Sum of two counts, stopping at the largest count.
fn add_counts(a: u64, b: u64) -> (r: u64)
    ensures
        r == if a + b <= u64::MAX { a + b } else { u64::MAX as int },
{
    if a <= u64::MAX - b {
        a + b
    } else {
        u64::MAX
    }
}

/// What `perft` needs of a position: consistent, both kings present, and room in the half-move
/// clock for `depth` more moves.
pub open spec fn perft_ok(pos: &Position, castling: &Castling, depth: u8) -> bool {
    &&& pos.wf()
    &&& pos.has_kings()
    &&& castling.wf()
    &&& pos.halfm + (if depth == 0 { 1int } else { depth as int }) <= 255
}

/// The moves owed to the side to move of `pos`, each listed once.
pub open spec fn owed_list(pos: Position, cs: Castling) -> Seq<Move> {
    choose|s: Seq<Move>| s.no_duplicates() && forall|m: Move| #[trigger] s.contains(m) <==> gen_move(pos, cs, m, true)
}

/// The position playing `m` in `pos` leads to.
pub open spec fn after_of(pos: Position, m: Move, cs: Castling) -> Position {
    choose|n: Position| made(pos, m, cs, n)
}

/// Playing `m` in `pos` leads to a position where the king of the side that moved is safe.
pub open spec fn safe_move(pos: Position, m: Move, cs: Castling) -> bool {
    (exists|n: Position| made(pos, m, cs, n)) && !king_attacked(after_of(pos, m, cs), stm_of(pos))
}

/// What `perft` counts below the move `m` of `pos` with `d` plies to go: nothing when the
/// move leaves its king attacked, one on the last ply, else the count of the position it leads
/// to.
pub open spec fn perft_leaf(pos: Position, cs: Castling, m: Move, d: nat) -> int
    decreases d, 0int, 0int,
{
    if safe_move(pos, m, cs) {
        if d <= 1 {
            1
        } else {
            perft_spec(after_of(pos, m, cs), cs, (d - 1) as nat)
        }
    } else {
        0
    }
}

/// The counts below the first `n` moves of `s`, summed.
pub open spec fn leaf_sum(pos: Position, cs: Castling, s: Seq<Move>, d: nat, n: int) -> int
    decreases d, 1int, n,
{
    if n <= 0 {
        0
    } else {
        leaf_sum(pos, cs, s, d, n - 1) + perft_leaf(pos, cs, s[n - 1], d)
    }
}

/// Number of move sequences of `d` plies (at least one) from `pos` in which no move leaves its
/// own king attacked.
pub open spec fn perft_spec(pos: Position, cs: Castling, d: nat) -> int
    decreases d, 2int, 0int,
{
    leaf_sum(pos, cs, owed_list(pos, cs), d, owed_list(pos, cs).len() as int)
}

/// The owed moves of every position up to `d` plies deep fit the generator's list.
pub open spec fn tree_fits(pos: Position, cs: Castling, d: nat) -> bool
    decreases d,
{
    &&& owed_fit(pos, cs, true)
    &&& d > 1 ==> forall|m: Move, n: Position| gen_move(pos, cs, m, true) && #[trigger] made(pos, m, cs, n)
        && !king_attacked(n, stm_of(pos)) ==> tree_fits(n, cs, (d - 1) as nat)
}

/// The counts below the moves of a list are nonnegative.
proof fn lemma_leaf_sum_nonneg(pos: Position, cs: Castling, s: Seq<Move>, d: nat, n: int)
    ensures
        leaf_sum(pos, cs, s, d, n) >= 0,
    decreases d, n,
{
    if n > 0 {
        lemma_leaf_sum_nonneg(pos, cs, s, d, n - 1);
        lemma_leaf_nonneg(pos, cs, s[n - 1], d);
    }
}

/// The count below a move is nonnegative.
proof fn lemma_leaf_nonneg(pos: Position, cs: Castling, m: Move, d: nat)
    ensures
        perft_leaf(pos, cs, m, d) >= 0,
    decreases d, 0int,
{
    if safe_move(pos, m, cs) && d > 1 {
        let n = after_of(pos, m, cs);
        let s = owed_list(n, cs);
        lemma_leaf_sum_nonneg(n, cs, s, (d - 1) as nat, s.len() as int);
    }
}

/// Taking the move at `j` out of a list takes its count out of the sum.
proof fn lemma_leaf_sum_remove(pos: Position, cs: Castling, s: Seq<Move>, d: nat, j: int)
    requires
        0 <= j < s.len(),
    ensures
        leaf_sum(pos, cs, s, d, s.len() as int) == leaf_sum(pos, cs, s.remove(j), d, s.len() - 1) + perft_leaf(pos, cs, s[j], d),
    decreases s.len(),
{
    let t = s.remove(j);
    if j == s.len() - 1 {
        lemma_leaf_sum_prefix(pos, cs, s, t, d, s.len() - 1);
    } else {
        let s1 = s.drop_last();
        lemma_leaf_sum_remove(pos, cs, s1, d, j);
        assert(s1.remove(j) =~= t.drop_last());
        lemma_leaf_sum_prefix(pos, cs, s, s1, d, s.len() - 1);
        lemma_leaf_sum_prefix(pos, cs, t, t.drop_last(), d, t.len() - 1);
        assert(t[t.len() - 1] == s[s.len() - 1]);
    }
}

/// Sums over the first `n` moves of two lists that agree there are equal.
proof fn lemma_leaf_sum_prefix(pos: Position, cs: Castling, a: Seq<Move>, b: Seq<Move>, d: nat, n: int)
    requires
        n <= a.len(),
        n <= b.len(),
        forall|i: int| 0 <= i < n ==> a[i] == b[i],
    ensures
        leaf_sum(pos, cs, a, d, n) == leaf_sum(pos, cs, b, d, n),
    decreases n,
{
    if n > 0 {
        lemma_leaf_sum_prefix(pos, cs, a, b, d, n - 1);
    }
}

/// Two lists without repeats that hold the same moves have the same sum.
proof fn lemma_leaf_sum_perm(pos: Position, cs: Castling, a: Seq<Move>, b: Seq<Move>, d: nat)
    requires
        a.no_duplicates(),
        b.no_duplicates(),
        forall|m: Move| #[trigger] a.contains(m) <==> b.contains(m),
    ensures
        leaf_sum(pos, cs, a, d, a.len() as int) == leaf_sum(pos, cs, b, d, b.len() as int),
    decreases a.len(),
{
    if a.len() == 0 {
        if b.len() > 0 {
            assert(b.contains(b[0]));
            assert(a.contains(b[0]));
        }
        assert(b.len() == 0);
    } else {
        let x = a.last();
        assert(a.contains(x));
        let j = choose|j: int| 0 <= j < b.len() && b[j] == x;
        let a1 = a.drop_last();
        let b1 = b.remove(j);
        assert forall|m: Move| #[trigger] a1.contains(m) <==> b1.contains(m) by {
            if a1.contains(m) {
                let i = choose|i: int| 0 <= i < a1.len() && a1[i] == m;
                assert(a[i] == m);
                assert(a.contains(m));
                assert(b.contains(m));
                let k = choose|k: int| 0 <= k < b.len() && b[k] == m;
                assert(k != j);
                if k < j {
                    assert(b1[k] == m);
                } else {
                    assert(b1[k - 1] == m);
                }
            }
            if b1.contains(m) {
                let k = choose|k: int| 0 <= k < b1.len() && b1[k] == m;
                let kk = if k < j { k } else { k + 1 };
                assert(b[kk] == m);
                assert(kk != j);
                assert(a.contains(m));
                let i = choose|i: int| 0 <= i < a.len() && a[i] == m;
                assert(i != a.len() - 1);
                assert(a1[i] == m);
            }
        }
        assert(b1.no_duplicates()) by {
            assert forall|p: int, q: int| 0 <= p < b1.len() && 0 <= q < b1.len() && p != q implies b1[p] != b1[q] by {
                let pp = if p < j { p } else { p + 1 };
                let qq = if q < j { q } else { q + 1 };
                assert(b1[p] == b[pp] && b1[q] == b[qq]);
            }
        }
        lemma_leaf_sum_perm(pos, cs, a1, b1, d);
        lemma_leaf_sum_remove(pos, cs, b, d, j);
        lemma_leaf_sum_prefix(pos, cs, a, a1, d, a.len() - 1);
        assert(b1.len() == b.len() - 1);
        assert(leaf_sum(pos, cs, a, d, a.len() as int) == leaf_sum(pos, cs, a, d, a.len() - 1) + perft_leaf(pos, cs, x, d));
    }
}

/// Number of move sequences of length `depth` (at least one) from `pos` in which no move
/// leaves its own king attacked, counting each legal move at depth one; counts beyond the
/// largest `u64` stop there. The count is that of the rules whenever the moves of every
/// position on the way fit the generator's list.
pub fn perft(pos: &Position, castling: &Castling, depth: u8) -> (r: u64)
    requires
        perft_ok(pos, castling, depth),
    ensures
        tree_fits(*pos, *castling, depth as nat) ==> r == (if perft_spec(*pos, *castling, depth as nat) <= u64::MAX {
            perft_spec(*pos, *castling, depth as nat)
        } else {
            u64::MAX as int
        }),
    decreases depth,
{
    let ghost fits = tree_fits(*pos, *castling, depth as nat);
    let ghost d = depth as nat;
    let moves = pos.movegen::<true>(castling);
    let n = moves.len();
    let mut positions: u64 = 0;
    let mut i: usize = 0;
    while i < n
        invariant
            n == moves@.len(),
            i <= n,
            perft_ok(pos, castling, depth),
            all_ok(moves@, *pos, *castling),
            all_gen(moves@, *pos, *castling, true),
            d == depth as nat,
            fits == tree_fits(*pos, *castling, d),
            fits ==> positions == (if leaf_sum(*pos, *castling, moves@, d, i as int) <= u64::MAX {
                leaf_sum(*pos, *castling, moves@, d, i as int)
            } else {
                u64::MAX as int
            }),
        decreases n - i,
    {
        let m = moves.get(i);
        proof {
            assert(move_ok(*pos, moves@[i as int], *castling));
        }
        let mut tmp = *pos;
        let illegal = tmp.make(m, castling);
        proof {
            assert(made(*pos, m, *castling, tmp));
            lemma_made_unique(*pos, m, *castling, after_of(*pos, m, *castling), tmp);
            lemma_leaf_sum_nonneg(*pos, *castling, moves@, d, i as int);
            lemma_leaf_nonneg(*pos, *castling, m, d);
            assert(leaf_sum(*pos, *castling, moves@, d, i + 1) == leaf_sum(*pos, *castling, moves@, d, i as int)
                + perft_leaf(*pos, *castling, m, d));
        }
        if !illegal {
            proof {
                if fits && depth > 1 {
                    assert(gen_move(*pos, *castling, moves@[i as int], true));
                    assert(tree_fits(tmp, *castling, (d - 1) as nat));
                }
            }
            let count = if depth > 1 {
                perft(&tmp, castling, depth - 1)
            } else {
                1
            };
            positions = add_counts(positions, count);
        }
        i += 1;
    }
    proof {
        if fits {
            lemma_fit(moves@, *pos, *castling, true);
            assert(forall|m: Move| #[trigger] moves@.contains(m) <==> gen_move(*pos, *castling, m, true)) by {
                assert forall|m: Move| #[trigger] moves@.contains(m) implies gen_move(*pos, *castling, m, true) by {
                    let k = choose|k: int| 0 <= k < moves@.len() && moves@[k] == m;
                    assert(gen_move(*pos, *castling, moves@[k], true));
                }
            }
            let ol = owed_list(*pos, *castling);
            assert(ol.no_duplicates() && forall|m: Move| #[trigger] ol.contains(m) <==> gen_move(*pos, *castling, m, true));
            lemma_leaf_sum_perm(*pos, *castling, moves@, ol, d);
        }
    }
    positions
}

/// The legal moves of `pos` with the `perft` count below each (to depth `depth - 1`, at least
/// one).
#[verifier::rlimit(30)]
pub fn perft_divide(pos: &Position, castling: &Castling, depth: u8) -> (r: Vec<(Move, u64)>)
    requires
        perft_ok(pos, castling, depth),
    ensures
        forall|i: int| 0 <= i < r@.len() ==> legal_move(*pos, (#[trigger] r@[i]).0, *castling) && gen_move(*pos, *castling, r@[i].0, true),
        forall|i: int, j: int| 0 <= i < j < r@.len() ==> (#[trigger] r@[i]).0 != (#[trigger] r@[j]).0,
        owed_fit(*pos, *castling, true) ==> forall|m: Move| #[trigger] gen_move(*pos, *castling, m, true) && legal_move(*pos, m, *castling)
            ==> exists|i: int| 0 <= i < r@.len() && r@[i].0 == m,
        tree_fits(*pos, *castling, depth as nat) ==> forall|i: int| 0 <= i < r@.len() ==> (#[trigger] r@[i]).1 == (if depth > 1 {
            if perft_spec(after_of(*pos, r@[i].0, *castling), *castling, (depth - 1) as nat) <= u64::MAX {
                perft_spec(after_of(*pos, r@[i].0, *castling), *castling, (depth - 1) as nat)
            } else {
                u64::MAX as int
            }
        } else {
            1
        }),
{
    let ghost fits = tree_fits(*pos, *castling, depth as nat);
    let moves = pos.movegen::<true>(castling);
    let n = moves.len();
    let mut out: Vec<(Move, u64)> = Vec::new();
    let mut i: usize = 0;
    while i < n
        invariant
            n == moves@.len(),
            i <= n,
            perft_ok(pos, castling, depth),
            all_ok(moves@, *pos, *castling),
            all_gen(moves@, *pos, *castling, true),
            moves@.no_duplicates(),
            forall|j: int| 0 <= j < out@.len() ==> legal_move(*pos, (#[trigger] out@[j]).0, *castling),
            forall|j: int| 0 <= j < out@.len() ==> exists|k: int| 0 <= k < i && moves@[k] == (#[trigger] out@[j]).0,
            forall|a: int, b: int| 0 <= a < b < out@.len() ==> (#[trigger] out@[a]).0 != (#[trigger] out@[b]).0,
            forall|k: int| 0 <= k < i && legal_move(*pos, #[trigger] moves@[k], *castling) ==> exists|j: int| 0 <= j < out@.len() && out@[j].0 == moves@[k],
            fits == tree_fits(*pos, *castling, depth as nat),
            fits ==> forall|j: int| 0 <= j < out@.len() ==> (#[trigger] out@[j]).1 == (if depth > 1 {
                if perft_spec(after_of(*pos, out@[j].0, *castling), *castling, (depth - 1) as nat) <= u64::MAX {
                    perft_spec(after_of(*pos, out@[j].0, *castling), *castling, (depth - 1) as nat)
                } else {
                    u64::MAX as int
                }
            } else {
                1
            }),
        decreases n - i,
    {
        let m = moves.get(i);
        proof {
            assert(move_ok(*pos, moves@[i as int], *castling));
        }
        let mut tmp = *pos;
        if !tmp.make(m, castling) {
            proof {
                assert(plays_to(*pos, m, *castling, tmp));
                assert(made(*pos, m, *castling, tmp));
                lemma_made_unique(*pos, m, *castling, after_of(*pos, m, *castling), tmp);
                if fits && depth > 1 {
                    assert(gen_move(*pos, *castling, moves@[i as int], true));
                    assert(tree_fits(tmp, *castling, (depth - 1) as nat));
                }
            }
            let count = if depth > 1 {
                perft(&tmp, castling, depth - 1)
            } else {
                1
            };
            let ghost before = out@;
            out.push((m, count));
            proof {
                assert forall|j: int| 0 <= j < out@.len() implies exists|k: int| 0 <= k < i + 1 && moves@[k] == (#[trigger] out@[j]).0 by {
                    if j < before.len() {
                        assert(out@[j] == before[j]);
                    } else {
                        assert(moves@[i as int] == out@[j].0);
                    }
                }
                assert forall|a: int, b: int| 0 <= a < b < out@.len() implies (#[trigger] out@[a]).0 != (#[trigger] out@[b]).0 by {
                    if b == before.len() {
                        assert(out@[a] == before[a]);
                        let k = choose|k: int| 0 <= k < i && moves@[k] == before[a].0;
                    } else {
                        assert(out@[a] == before[a] && out@[b] == before[b]);
                    }
                }
                if fits {
                    assert forall|j: int| 0 <= j < out@.len() implies (#[trigger] out@[j]).1 == (if depth > 1 {
                        if perft_spec(after_of(*pos, out@[j].0, *castling), *castling, (depth - 1) as nat) <= u64::MAX {
                            perft_spec(after_of(*pos, out@[j].0, *castling), *castling, (depth - 1) as nat)
                        } else {
                            u64::MAX as int
                        }
                    } else {
                        1
                    }) by {
                        if j < before.len() {
                            assert(out@[j] == before[j]);
                        }
                    }
                }
                assert forall|k: int| 0 <= k < i + 1 && legal_move(*pos, #[trigger] moves@[k], *castling)
                    implies exists|j: int| 0 <= j < out@.len() && out@[j].0 == moves@[k] by {
                    if k < i {
                        let j = choose|j: int| 0 <= j < before.len() && before[j].0 == moves@[k];
                        assert(out@[j] == before[j]);
                    } else {
                        assert(out@[before.len() as int].0 == moves@[k]);
                    }
                }
            }
        } else {
            proof {
                lemma_not_legal(*pos, m, *castling, tmp.bb);
            }
        }
        i += 1;
    }
    proof {
        if owed_fit(*pos, *castling, true) {
            assert forall|m: Move| #[trigger] gen_move(*pos, *castling, m, true) && legal_move(*pos, m, *castling)
                implies exists|i: int| 0 <= i < out@.len() && out@[i].0 == m by {
                assert(moves@.contains(m));
                let k = choose|k: int| 0 <= k < moves@.len() && moves@[k] == m;
                assert(legal_move(*pos, moves@[k], *castling));
            }
        }
        assert forall|j: int| 0 <= j < out@.len() implies legal_move(*pos, (#[trigger] out@[j]).0, *castling)
            && gen_move(*pos, *castling, out@[j].0, true) by {
            let k = choose|k: int| 0 <= k < n && moves@[k] == out@[j].0;
        }
    }
    out
}

/// What parsing `s` as an `i64` gives: an optional sign and at least one digit, with a value
/// that fits.
pub open spec fn parse_i64_spec(s: Seq<char>) -> Option<i64> {
    let neg = s.len() > 0 && s[0] == '-';
    let d = if s.len() > 0 && (s[0] == '+' || s[0] == '-') { s.drop_first() } else { s };
    let v = if neg { -digits_val(d) } else { digits_val(d) };
    if d.len() > 0 && all_digits(d) && i64::MIN <= v <= i64::MAX {
        Some(v as i64)
    } else {
        None
    }
}

/// Parses an `i64` the way `str::parse` does.
pub fn parse_i64(s: &Vec<char>) -> (r: Option<i64>)
    ensures
        r == parse_i64_spec(s@),
{
    let neg = s.len() > 0 && s[0] == '-';
    let start: usize = if s.len() > 0 && (s[0] == '+' || s[0] == '-') { 1 } else { 0 };
    let ghost d = if s@.len() > 0 && (s@[0] == '+' || s@[0] == '-') { s@.drop_first() } else { s@ };
    assert(d =~= s@.subrange(start as int, s@.len() as int));
    if start >= s.len() {
        return None;
    }
    let limit: i128 = if neg { 0x8000_0000_0000_0000 } else { 0x7FFF_FFFF_FFFF_FFFF };
    let mut v: i128 = 0;
    let mut i: usize = start;
    while i < s.len()
        invariant
            start <= i <= s@.len(),
            d == s@.subrange(start as int, s@.len() as int),
            d == (if s@.len() > 0 && (s@[0] == '+' || s@[0] == '-') { s@.drop_first() } else { s@ }),
            neg == (s@.len() > 0 && s@[0] == '-'),
            forall|j: int| 0 <= j < i - start ==> '0' <= #[trigger] d[j] <= '9',
            v == digits_val(d.take(i - start)),
            0 <= v <= limit,
            limit == if neg { 0x8000_0000_0000_0000int } else { 0x7FFF_FFFF_FFFF_FFFFint },
        decreases s@.len() - i,
    {
        let c = s[i];
        if c < '0' || c > '9' {
            assert(d[i - start] == c);
            assert(!all_digits(d));
            return None;
        }
        assert(d.take(i + 1 - start).drop_last() =~= d.take(i - start));
        assert(d.take(i + 1 - start).last() == c);
        v = v * 10 + (c as u32 - '0' as u32) as i128;
        assert(v == digits_val(d.take(i + 1 - start)));
        i += 1;
        if v > limit {
            proof {
                if all_digits(d) {
                    lemma_digits_grow(d, i - start);
                }
            }
            return None;
        }
    }
    assert(d.take(i - start) =~= d);
    if neg {
        Some((-v) as i64)
    } else {
        Some(v as i64)
    }
}

/// Whether the characters of `a` are those of `b`.
fn chars_are(a: &Vec<char>, b: &[char]) -> (r: bool)
    ensures
        r == (a@ == b@),
{
    if a.len() != b.len() {
        return false;
    }
    let mut i: usize = 0;
    while i < a.len()
        invariant
            a@.len() == b@.len(),
            i <= a@.len(),
            forall|j: int| 0 <= j < i ==> a@[j] == b@[j],
        decreases a@.len() - i,
    {
        if a[i] != b[i] {
            return false;
        }
        i += 1;
    }
    assert(a@ =~= b@);
    true
}

/// Index of a keyword of the `go` command (`go`, `movetime`, `wtime`, `btime`, `movestogo`,
/// `winc`, `binc`, `depth`, `nodes`), or -1.
pub open spec fn go_keyword(t: Seq<char>) -> int {
    if t == seq!['g', 'o'] {
        0
    } else if t == seq!['m', 'o', 'v', 'e', 't', 'i', 'm', 'e'] {
        1
    } else if t == seq!['w', 't', 'i', 'm', 'e'] {
        2
    } else if t == seq!['b', 't', 'i', 'm', 'e'] {
        3
    } else if t == seq!['m', 'o', 'v', 'e', 's', 't', 'o', 'g', 'o'] {
        4
    } else if t == seq!['w', 'i', 'n', 'c'] {
        5
    } else if t == seq!['b', 'i', 'n', 'c'] {
        6
    } else if t == seq!['d', 'e', 'p', 't', 'h'] {
        7
    } else if t == seq!['n', 'o', 'd', 'e', 's'] {
        8
    } else {
        -1
    }
}

fn keyword_of(t: &Vec<char>) -> (r: i32)
    ensures
        r == go_keyword(t@),
{
    let go = ['g', 'o'];
    let movetime = ['m', 'o', 'v', 'e', 't', 'i', 'm', 'e'];
    let wtime = ['w', 't', 'i', 'm', 'e'];
    let btime = ['b', 't', 'i', 'm', 'e'];
    let movestogo = ['m', 'o', 'v', 'e', 's', 't', 'o', 'g', 'o'];
    let winc = ['w', 'i', 'n', 'c'];
    let binc = ['b', 'i', 'n', 'c'];
    let depth = ['d', 'e', 'p', 't', 'h'];
    let nodes = ['n', 'o', 'd', 'e', 's'];
    assert(go@ =~= seq!['g', 'o']);
    assert(movetime@ =~= seq!['m', 'o', 'v', 'e', 't', 'i', 'm', 'e']);
    assert(wtime@ =~= seq!['w', 't', 'i', 'm', 'e']);
    assert(btime@ =~= seq!['b', 't', 'i', 'm', 'e']);
    assert(movestogo@ =~= seq!['m', 'o', 'v', 'e', 's', 't', 'o', 'g', 'o']);
    assert(winc@ =~= seq!['w', 'i', 'n', 'c']);
    assert(binc@ =~= seq!['b', 'i', 'n', 'c']);
    assert(depth@ =~= seq!['d', 'e', 'p', 't', 'h']);
    assert(nodes@ =~= seq!['n', 'o', 'd', 'e', 's']);
    if chars_are(t, &go) {
        0
    } else if chars_are(t, &movetime) {
        1
    } else if chars_are(t, &wtime) {
        2
    } else if chars_are(t, &btime) {
        3
    } else if chars_are(t, &movestogo) {
        4
    } else if chars_are(t, &winc) {
        5
    } else if chars_are(t, &binc) {
        6
    } else if chars_are(t, &depth) {
        7
    } else if chars_are(t, &nodes) {
        8
    } else {
        -1
    }
}

/// Settings of a `go` command: the keyword being read, remaining times and increments of
/// both sides, moves to go, time to allocate, depth and node limits.
#[derive(Clone, Copy)]
pub struct GoState {
    pub token: i32,
    pub wtime: i64,
    pub btime: i64,
    pub mtg: i64,
    pub alloc: i64,
    pub winc: i64,
    pub binc: i64,
    pub depth: i32,
    pub nodes: u64,
}

impl GoState {
    /// Remaining time of `side`.
    pub open spec fn time_of(self, side: int) -> i64 {
        if side == 0 { self.wtime } else { self.btime }
    }

    /// Increment of `side`.
    pub open spec fn inc_of(self, side: int) -> i64 {
        if side == 0 { self.winc } else { self.binc }
    }
}

/// Reading one word of a `go` command: a keyword selects what the numbers after it set.
pub open spec fn go_step(st: GoState, t: Seq<char>) -> GoState {
    let k = go_keyword(t);
    if k >= 0 {
        GoState { token: k as i32, ..st }
    } else {
        match parse_i64_spec(t) {
            Some(v) => {
                if st.token == 1 {
                    GoState { alloc: v, mtg: 1, ..st }
                } else if st.token == 2 {
                    GoState { wtime: if v > 0 { v } else { 0 }, ..st }
                } else if st.token == 3 {
                    GoState { btime: if v > 0 { v } else { 0 }, ..st }
                } else if st.token == 4 {
                    GoState { mtg: v, ..st }
                } else if st.token == 5 {
                    GoState { winc: if v > 0 { v } else { 0 }, ..st }
                } else if st.token == 6 {
                    GoState { binc: if v > 0 { v } else { 0 }, ..st }
                } else if st.token == 7 {
                    GoState { depth: (if v < 0 { 0 } else if v > 64 { 64 } else { v as int }) as i32, ..st }
                } else if st.token == 8 {
                    GoState { nodes: v as u64, ..st }
                } else {
                    st
                }
            },
            None => st,
        }
    }
}

/// Settings after the first `n` words of a `go` command.
pub open spec fn go_fold(words: Seq<Seq<char>>, n: int) -> GoState
    decreases n,
{
    if n <= 0 {
        GoState { token: 0, wtime: 0, btime: 0, mtg: 25, alloc: 1_000_000, winc: 0, binc: 0, depth: 64, nodes: u64::MAX }
    } else {
        go_step(go_fold(words, n - 1), words[n - 1])
    }
}

/// The settings after some words depend on those words alone.
proof fn lemma_go_fold_prefix(a: Seq<Seq<char>>, b: Seq<Seq<char>>, n: int)
    requires
        0 <= n <= a.len(),
        n <= b.len(),
        forall|i: int| 0 <= i < n ==> a[i] == b[i],
    ensures
        go_fold(a, n) == go_fold(b, n),
    decreases n,
{
    if n > 0 {
        lemma_go_fold_prefix(a, b, n - 1);
    }
}

/// A number not below zero, zero for a negative one.
pub open spec fn non_neg(v: i64) -> i64 {
    if v > 0 { v } else { 0 }
}

/// Settings after the words `ws` followed by the keyword `kw` and the number word `w`.
pub open spec fn go_after_pair(ws: Seq<Seq<char>>, kw: Seq<char>, w: Seq<char>) -> GoState {
    go_fold(ws.push(kw).push(w), ws.len() as int + 2)
}

/// A keyword of the `go` command followed by a number sets what the keyword names, and nothing
/// else: `wtime`, `btime`, `winc` and `binc` the clock and increment of White or Black (a
/// negative number counting as zero), `movestogo` the moves to go, `movetime` the time for the
/// move (for a single move), `depth` the depth (between 0 and 64), `nodes` the node limit.
pub proof fn lemma_go_keyword_number(ws: Seq<Seq<char>>, w: Seq<char>, v: i64)
    requires
        go_keyword(w) < 0,
        parse_i64_spec(w) == Some(v),
    ensures
        ({
            let st = go_fold(ws, ws.len() as int);
            &&& go_after_pair(ws, seq!['w', 't', 'i', 'm', 'e'], w) == GoState { token: 2, wtime: non_neg(v), ..st }
            &&& go_after_pair(ws, seq!['b', 't', 'i', 'm', 'e'], w) == GoState { token: 3, btime: non_neg(v), ..st }
            &&& go_after_pair(ws, seq!['w', 'i', 'n', 'c'], w) == GoState { token: 5, winc: non_neg(v), ..st }
            &&& go_after_pair(ws, seq!['b', 'i', 'n', 'c'], w) == GoState { token: 6, binc: non_neg(v), ..st }
            &&& go_after_pair(ws, seq!['m', 'o', 'v', 'e', 's', 't', 'o', 'g', 'o'], w) == GoState { token: 4, mtg: v, ..st }
            &&& go_after_pair(ws, seq!['m', 'o', 'v', 'e', 't', 'i', 'm', 'e'], w) == GoState { token: 1, alloc: v, mtg: 1, ..st }
            &&& go_after_pair(ws, seq!['d', 'e', 'p', 't', 'h'], w) == GoState {
                token: 7,
                depth: (if v < 0 { 0 } else if v > 64 { 64 } else { v as int }) as i32,
                ..st
            }
            &&& go_after_pair(ws, seq!['n', 'o', 'd', 'e', 's'], w) == GoState { token: 8, nodes: v as u64, ..st }
        }),
{
    lemma_go_pair_step(ws, seq!['w', 't', 'i', 'm', 'e'], w);
    lemma_go_pair_step(ws, seq!['b', 't', 'i', 'm', 'e'], w);
    lemma_go_pair_step(ws, seq!['w', 'i', 'n', 'c'], w);
    lemma_go_pair_step(ws, seq!['b', 'i', 'n', 'c'], w);
    lemma_go_pair_step(ws, seq!['m', 'o', 'v', 'e', 's', 't', 'o', 'g', 'o'], w);
    lemma_go_pair_step(ws, seq!['m', 'o', 'v', 'e', 't', 'i', 'm', 'e'], w);
    lemma_go_pair_step(ws, seq!['d', 'e', 'p', 't', 'h'], w);
    lemma_go_pair_step(ws, seq!['n', 'o', 'd', 'e', 's'], w);
    assert(go_keyword(seq!['w', 't', 'i', 'm', 'e']) == 2);
    assert(go_keyword(seq!['b', 't', 'i', 'm', 'e']) == 3);
    assert(go_keyword(seq!['w', 'i', 'n', 'c']) == 5);
    assert(go_keyword(seq!['b', 'i', 'n', 'c']) == 6);
    assert(go_keyword(seq!['m', 'o', 'v', 'e', 's', 't', 'o', 'g', 'o']) == 4);
    assert(go_keyword(seq!['m', 'o', 'v', 'e', 't', 'i', 'm', 'e']) == 1);
    assert(go_keyword(seq!['d', 'e', 'p', 't', 'h']) == 7);
    assert(go_keyword(seq!['n', 'o', 'd', 'e', 's']) == 8);
}

/// The settings after a keyword and a word are two steps from those before them.
proof fn lemma_go_pair_step(ws: Seq<Seq<char>>, kw: Seq<char>, w: Seq<char>)
    ensures
        go_after_pair(ws, kw, w) == go_step(go_step(go_fold(ws, ws.len() as int), kw), w),
{
    let n = ws.len() as int;
    let ws2 = ws.push(kw).push(w);
    lemma_go_fold_prefix(ws2, ws, n);
    assert(ws2[n] == kw && ws2[n + 1] == w);
    assert(go_fold(ws2, n + 1) == go_step(go_fold(ws2, n), kw));
}

/// With Black to move and Black's clock running, the time allocated is Black's remaining time
/// shared over the moves to go plus three quarters of Black's increment, but never more than
/// that remaining time; White's clock and increment play no part.
pub proof fn lemma_go_alloc_black(st: GoState, wtime: i64, winc: i64)
    requires
        st.btime != 0,
    ensures
        go_alloc(st, 1) == go_alloc(GoState { wtime, winc, ..st }, 1),
        go_alloc(st, 1) == if st.btime < tdiv_i(st.btime as int, st.mtg as int) + tdiv_i(3 * st.binc, 4) {
            st.btime as int
        } else {
            tdiv_i(st.btime as int, st.mtg as int) + tdiv_i(3 * st.binc, 4)
        },
{
}

/// With White to move and White's clock running, the time allocated is White's remaining time
/// shared over the moves to go plus three quarters of White's increment, but never more than
/// that remaining time; Black's clock and increment play no part.
pub proof fn lemma_go_alloc_white(st: GoState, btime: i64, binc: i64)
    requires
        st.wtime != 0,
    ensures
        go_alloc(st, 0) == go_alloc(GoState { btime, binc, ..st }, 0),
        go_alloc(st, 0) == if st.wtime < tdiv_i(st.wtime as int, st.mtg as int) + tdiv_i(3 * st.winc, 4) {
            st.wtime as int
        } else {
            tdiv_i(st.wtime as int, st.mtg as int) + tdiv_i(3 * st.winc, 4)
        },
{
}

/// Limits of a search: depth, nodes, and the hard and soft time bounds in milliseconds.
#[derive(Clone, Copy)]
pub struct GoLimits {
    pub depth: i32,
    pub nodes: u64,
    pub hard_bound: u64,
    pub soft_bound: i64,
}

/// Time to allocate: with a clock, the smaller of the remaining time and its share for one
/// move plus three quarters of the increment; without one, the move time. Every quantity is
/// an integer, rounded towards zero.
pub open spec fn go_alloc(st: GoState, side: int) -> int {
    let time = st.time_of(side);
    let inc = st.inc_of(side);
    if time != 0 {
        let share = tdiv_i(time as int, st.mtg as int) + tdiv_i(3 * inc, 4);
        if time < share { time as int } else { share }
    } else {
        st.alloc as int
    }
}

/// Integer division rounding towards zero, for any divisor but zero.
pub open spec fn tdiv_i(a: int, b: int) -> int {
    if b > 0 {
        crate::bits::tdiv(a, b)
    } else {
        -crate::bits::tdiv(a, -b)
    }
}

/// The clock time of the side to move (the move time without a clock).
pub open spec fn go_time(st: GoState, side: int) -> int {
    if st.time_of(side) != 0 { st.time_of(side) as int } else { st.alloc as int }
}

/// The `go` command can be acted on: the moves to go are not zero when there is a clock, and
/// the time arithmetic stays within 64 bits.
pub open spec fn go_ok(st: GoState, side: int) -> bool {
    let time = st.time_of(side);
    let inc = st.inc_of(side);
    let alloc = go_alloc(st, side);
    &&& (time != 0 ==> st.mtg != 0 && 3 * inc <= i64::MAX && tdiv_i(time as int, st.mtg as int) + tdiv_i(3 * inc, 4) <= i64::MAX)
    &&& i64::MIN <= 2 * alloc <= i64::MAX
    &&& i64::MIN <= go_time(st, side) - 10
    &&& (st.mtg != 1 ==> i64::MIN <= 6 * alloc <= i64::MAX)
}

/// The limits a `go` command sets for the side `side` to move.
pub open spec fn go_limits_spec(st: GoState, side: int) -> GoLimits {
    let alloc = go_alloc(st, side);
    let hi = if go_time(st, side) - 10 > 1 { go_time(st, side) - 10 } else { 1 };
    let hard = if 2 * alloc < 1 { 1 } else if 2 * alloc > hi { hi } else { 2 * alloc };
    GoLimits {
        depth: st.depth,
        nodes: st.nodes,
        hard_bound: hard as u64,
        soft_bound: (if st.mtg == 1 { alloc } else { tdiv_i(6 * alloc, 10) }) as i64,
    }
}

/// The limits a `go` command sets: its depth and node limits; a hard bound of twice the
/// allocated time, but at least a millisecond and, when the clock allows it, at most ten
/// milliseconds less than the clock; and a soft bound of six tenths of the allocated time, or
/// all of it when the command gives the time for one move.
pub proof fn lemma_go_bounds(st: GoState, side: int)
    requires
        go_ok(st, side),
    ensures
        go_limits_spec(st, side).depth == st.depth,
        go_limits_spec(st, side).nodes == st.nodes,
        go_limits_spec(st, side).hard_bound >= 1,
        2 * go_alloc(st, side) >= 1 && go_time(st, side) - 10 >= 2 * go_alloc(st, side)
            ==> go_limits_spec(st, side).hard_bound == 2 * go_alloc(st, side),
        go_time(st, side) - 10 > 1 && 2 * go_alloc(st, side) > go_time(st, side) - 10
            ==> go_limits_spec(st, side).hard_bound == go_time(st, side) - 10,
        st.mtg == 1 ==> go_limits_spec(st, side).soft_bound == go_alloc(st, side),
        st.mtg != 1 && go_alloc(st, side) >= 0 ==> go_limits_spec(st, side).soft_bound == 6 * go_alloc(st, side) / 10,
{
}

/// Before any keyword, a `go` command searches to depth 64 with no node limit, shares the
/// clock over 25 moves, and has no clock or increment for either side.
pub proof fn lemma_go_defaults(ws: Seq<Seq<char>>)
    ensures
        go_fold(ws, 0).depth == 64,
        go_fold(ws, 0).nodes == u64::MAX,
        go_fold(ws, 0).mtg == 25,
        go_fold(ws, 0).wtime == 0 && go_fold(ws, 0).btime == 0,
        go_fold(ws, 0).winc == 0 && go_fold(ws, 0).binc == 0,
{
}

/// Reads the limits of a `go` command given as its words, for the side `side` to move: `None`
/// where they cannot be acted on (moves to go of zero with a clock, or times too large).
pub fn go_limits(words: &Vec<Vec<char>>, side: usize) -> (r: Option<GoLimits>)
    requires
        side < 2,
    ensures
        r == (if go_ok(go_fold(words@.map_values(|w: Vec<char>| w@), words@.len() as int), side as int) {
            Some(go_limits_spec(go_fold(words@.map_values(|w: Vec<char>| w@), words@.len() as int), side as int))
        } else {
            None
        }),
{
    let ghost ws = words@.map_values(|w: Vec<char>| w@);
    let mut st = GoState { token: 0, wtime: 0, btime: 0, mtg: 25, alloc: 1_000_000, winc: 0, binc: 0, depth: 64, nodes: u64::MAX };
    let mut i: usize = 0;
    while i < words.len()
        invariant
            i <= words@.len(),
            ws == words@.map_values(|w: Vec<char>| w@),
            st == go_fold(ws, i as int),
            0 <= st.token <= 8,
            st.wtime >= 0,
            st.btime >= 0,
            st.winc >= 0,
            st.binc >= 0,
        decreases words@.len() - i,
    {
        let w = &words[i];
        assert(ws[i as int] == w@);
        let k = keyword_of(w);
        if k >= 0 {
            st.token = k;
        } else {
            match parse_i64(w) {
                Some(v) => {
                    if st.token == 1 {
                        st.alloc = v;
                        st.mtg = 1;
                    } else if st.token == 2 {
                        st.wtime = if v > 0 { v } else { 0 };
                    } else if st.token == 3 {
                        st.btime = if v > 0 { v } else { 0 };
                    } else if st.token == 4 {
                        st.mtg = v;
                    } else if st.token == 5 {
                        st.winc = if v > 0 { v } else { 0 };
                    } else if st.token == 6 {
                        st.binc = if v > 0 { v } else { 0 };
                    } else if st.token == 7 {
                        st.depth = if v < 0 { 0 } else if v > 64 { 64 } else { v as i32 };
                    } else if st.token == 8 {
                        st.nodes = #[verifier::truncate] (v as u64);
                    }
                },
                None => {},
            }
        }
        i += 1;

    }
    let time = if side == 0 { st.wtime } else { st.btime };
    let inc = if side == 0 { st.winc } else { st.binc };
    let alloc: i64;
    if time != 0 {
        if st.mtg == 0 || inc > i64::MAX / 3 {
            return None;
        }
        let q: i64 = if st.mtg > 0 {
            time / st.mtg
        } else if st.mtg == i64::MIN {
            0
        } else {
            -(time / (-st.mtg))
        };
        proof {
            let t = time as int;
            let m = st.mtg as int;
            assert(t >= 0);
            if m > 0 {
                assert(0 <= t / m <= t) by (nonlinear_arith)
                    requires
                        t >= 0,
                        m >= 1;
            } else {
                assert(0 <= t / (-m) <= t) by (nonlinear_arith)
                    requires
                        t >= 0,
                        -m >= 1;
            }
            if m == i64::MIN {
                vstd::arithmetic::div_mod::lemma_basic_div(t, -m);
            }
            assert(q == tdiv_i(t, m));
        }
        let share128 = q as i128 + ((3 * inc) / 4) as i128;
        if share128 > i64::MAX as i128 {
            return None;
        }
        let share = share128 as i64;
        alloc = if time < share { time } else { share };
    } else {
        alloc = st.alloc;
    }
    let clock: i64 = if time != 0 { time } else { st.alloc };
    if alloc > i64::MAX / 2 || alloc < i64::MIN / 2 || clock < i64::MIN + 10 {
        return None;
    }
    if st.mtg != 1 && (alloc > i64::MAX / 6 || alloc < i64::MIN / 6) {
        return None;
    }
    let hi: i64 = if clock - 10 > 1 { clock - 10 } else { 1 };
    let hard: i64 = if alloc * 2 < 1 { 1 } else if alloc * 2 > hi { hi } else { alloc * 2 };
    let soft: i64 = if st.mtg == 1 { alloc } else { alloc * 6 / 10 };
    Some(GoLimits { depth: st.depth, nodes: st.nodes, hard_bound: hard as u64, soft_bound: soft })
}

/// Whether `name` spells the characters `m`.
fn spells(name: &String, m: &Vec<char>) -> (r: bool)
    ensures
        r == (name@ == m@),
{
    let s = name.as_str();
    let n = s.unicode_len();
    if n != m.len() {
        return false;
    }
    let mut i: usize = 0;
    while i < n
        invariant
            n == s@.len(),
            s@ == name@,
            n == m@.len(),
            i <= n,
            forall|j: int| 0 <= j < i ==> s@[j] == m@[j],
        decreases n - i,
    {
        if s.get_char(i) != m[i] {
            return false;
        }
        i += 1;
    }
    assert(s@ =~= m@);
    true
}

/// Whether a word of a `position` command is one of the words that are not part of the FEN.
pub open spec fn position_keyword(w: Seq<char>) -> bool {
    w == seq!['p', 'o', 's', 'i', 't', 'i', 'o', 'n'] || w == seq!['s', 't', 'a', 'r', 't', 'p', 'o', 's'] || w == seq!['f', 'e', 'n']
}

/// Index of the first `moves` word from `i` on, or the number of words.
pub open spec fn moves_index(words: Seq<Seq<char>>, i: int) -> int
    decreases words.len() - i,
{
    if i >= words.len() {
        words.len() as int
    } else if words[i] == seq!['m', 'o', 'v', 'e', 's'] {
        i
    } else {
        moves_index(words, i + 1)
    }
}

/// The FEN of a `position` command: its first `n` words other than the keywords, each
/// followed by a space.
pub open spec fn fen_words(words: Seq<Seq<char>>, n: int) -> Seq<char>
    decreases n,
{
    if n <= 0 {
        Seq::empty()
    } else if position_keyword(words[n - 1]) {
        fen_words(words, n - 1)
    } else {
        fen_words(words, n - 1) + words[n - 1] + seq![' ']
    }
}

/// The FEN a `position` command sets up: the one it gives, or the starting position.
pub open spec fn position_fen(words: Seq<Seq<char>>) -> Seq<char> {
    let f = fen_words(words, moves_index(words, 0));
    if f.len() == 0 {
        STARTPOS@
    } else {
        f
    }
}

/// The index of the first move word of a `position` command: the one after `moves`, or the
/// end when there is none.
pub open spec fn moves_start(ws: Seq<Seq<char>>) -> int {
    if moves_index(ws, 0) < ws.len() {
        moves_index(ws, 0) + 1
    } else {
        ws.len() as int
    }
}

/// A move can be played in `p`: both kings are on the board and the half-move clock can
/// still rise.
pub open spec fn playable(p: Position) -> bool {
    p.has_kings() && p.halfm < 255
}

/// The move word `w` takes `p` to `q`: a move the rules give the side to move and that `w`
/// names is played, or, when none is found, the position stays as it was (and then, when the
/// moves of `p` fit the generator's list, no such move exists).
pub open spec fn word_step(p: Position, cs: Castling, w: Seq<char>, q: Position) -> bool {
    ||| exists|m: Move| #[trigger] gen_move(p, cs, m, true) && uci_of(m, cs) == w && made(p, m, cs, q)
    ||| (q == p && (owed_fit(p, cs, true) ==> forall|m: Move| #[trigger] gen_move(p, cs, m, true) ==> uci_of(m, cs) != w))
}

/// `trace` starts with the position read from the FEN of the command and follows its move
/// words, from the word at `from`, one step each.
pub open spec fn words_trace(ws: Seq<Seq<char>>, from: int, cs: Castling, trace: Seq<Position>) -> bool {
    &&& trace.len() >= 1
    &&& fen_read(position_fen(ws), trace[0], cs)
    &&& from + trace.len() - 1 <= ws.len()
    &&& forall|k: int| 0 <= k < trace.len() - 1 ==> #[trigger] word_step(trace[k], cs, ws[from + k], trace[k + 1])
}

/// Sets up the position of a `position` command given as its words: the FEN after `fen` (the
/// starting position without one), then the moves after `moves`, each played when a move the
/// generator lists for the position has that UCI name (whether or not it leaves its king
/// attacked), with the hash of each position before a move kept in `stack`. Returns `false`
/// (leaving the position and castling configuration as they were) when the FEN cannot be read,
/// and `false` also, leaving the position reached, when a move is to be played in a position
/// without both kings or with an exhausted half-move clock.
pub fn set_position(words: &Vec<Vec<char>>, pos: &mut Position, stack: &mut Vec<u64>, castling: &mut Castling) -> (r: bool)
    requires
        old(pos).wf(),
        old(castling).wf(),
    ensures
        final(pos).wf(),
        final(castling).wf(),
        ({
            let ws = words@.map_values(|w: Vec<char>| w@);
            let f = position_fen(ws);
            &&& (f.len() > crate::fen::FEN_MAX_CHARS || !crate::fen::fen_ok(f)) ==> !r && *final(pos) == *old(pos) && *final(castling) == *old(castling)
            &&& r ==> f.len() <= crate::fen::FEN_MAX_CHARS && crate::fen::fen_ok(f)
            &&& r ==> final(stack)@.len() == (if moves_index(ws, 0) < ws.len() { ws.len() - moves_index(ws, 0) - 1 } else { 0 })
            &&& r ==> exists|trace: Seq<Position>| #[trigger] words_trace(ws, moves_start(ws), *final(castling), trace)
                && trace.len() == final(stack)@.len() + 1 && trace.last() == *final(pos)
                && (forall|k: int| 0 <= k < trace.len() - 1 ==> #[trigger] playable(trace[k]))
                && forall|k: int| 0 <= k < final(stack)@.len() ==> #[trigger] final(stack)@[k] == trace[k].full_hash()
            &&& (!r && f.len() <= crate::fen::FEN_MAX_CHARS && crate::fen::fen_ok(f)) ==> exists|trace: Seq<Position>| #[trigger] words_trace(
                ws,
                moves_start(ws),
                *final(castling),
                trace,
            ) && moves_start(ws) + trace.len() - 1 < ws.len() && trace.last() == *final(pos) && !playable(trace.last())
                && final(stack)@.len() == trace.len()
                && forall|k: int| 0 <= k < final(stack)@.len() ==> #[trigger] final(stack)@[k] == trace[k].full_hash()
        }),
{
    let ghost ws = words@.map_values(|w: Vec<char>| w@);
    let keyword_position = ['p', 'o', 's', 'i', 't', 'i', 'o', 'n'];
    let keyword_startpos = ['s', 't', 'a', 'r', 't', 'p', 'o', 's'];
    let keyword_fen = ['f', 'e', 'n'];
    let keyword_moves = ['m', 'o', 'v', 'e', 's'];
    assert(keyword_position@ =~= seq!['p', 'o', 's', 'i', 't', 'i', 'o', 'n']);
    assert(keyword_startpos@ =~= seq!['s', 't', 'a', 'r', 't', 'p', 'o', 's']);
    assert(keyword_fen@ =~= seq!['f', 'e', 'n']);
    assert(keyword_moves@ =~= seq!['m', 'o', 'v', 'e', 's']);
    let mut fen: Vec<char> = Vec::new();
    let mut found = false;
    let mut i: usize = 0;
    while i < words.len() && !found
        invariant
            ws == words@.map_values(|w: Vec<char>| w@),
            i <= words@.len(),
            found ==> i >= 1 && moves_index(ws, 0) == i - 1 && fen@ == fen_words(ws, i - 1),
            !found ==> moves_index(ws, 0) == moves_index(ws, i as int) && fen@ == fen_words(ws, i as int),
            keyword_position@ == seq!['p', 'o', 's', 'i', 't', 'i', 'o', 'n'],
            keyword_startpos@ == seq!['s', 't', 'a', 'r', 't', 'p', 'o', 's'],
            keyword_fen@ == seq!['f', 'e', 'n'],
            keyword_moves@ == seq!['m', 'o', 'v', 'e', 's'],
        decreases words@.len() - i,
    {
        let w = &words[i];
        assert(ws[i as int] == w@);
        if chars_are(w, &keyword_moves) {
            assert(moves_index(ws, i as int) == i);
            found = true;
        } else {
            assert(moves_index(ws, i as int) == moves_index(ws, i + 1));
            if !chars_are(w, &keyword_position) && !chars_are(w, &keyword_startpos) && !chars_are(w, &keyword_fen) {
                let ghost before = fen@;
                let mut k: usize = 0;
                while k < w.len()
                    invariant
                        k <= w@.len(),
                        fen@ == before + w@.subrange(0, k as int),
                    decreases w@.len() - k,
                {
                    fen.push(w[k]);
                    k += 1;
                    assert(fen@ =~= before + w@.subrange(0, k as int));
                }
                fen.push(' ');
                assert(w@.subrange(0, w@.len() as int) =~= w@);
                assert(fen@ =~= fen_words(ws, i + 1));
            }
        }
        i += 1;
    }
    let moves_from = i;
    assert(moves_index(ws, words@.len() as int) == words@.len());
    assert(fen@ == fen_words(ws, moves_index(ws, 0)));
    assert(moves_from == (if moves_index(ws, 0) < words@.len() { moves_index(ws, 0) + 1 } else { words@.len() as int }));
    if fen.len() == 0 {
        fen = str_chars(STARTPOS);
    }
    assert(fen@ == position_fen(ws));
    if fen.len() > crate::fen::FEN_MAX_CHARS {
        return false;
    }
    let mut cs = *castling;
    let read = Position::from_fen_chars(&fen, &mut cs);
    match read {
        Some(p) => {
            *pos = p;
            *castling = cs;
        },
        None => {
            return false;
        },
    }
    stack.clear();
    let ghost mut trace: Seq<Position> = seq![*pos];
    let mut j: usize = moves_from;
    while j < words.len()
        invariant
            pos.wf(),
            castling.wf(),
            moves_from <= j <= words@.len(),
            stack@.len() == j - moves_from,
            ws == words@.map_values(|w: Vec<char>| w@),
            moves_from == (if moves_index(ws, 0) < words@.len() { moves_index(ws, 0) + 1 } else { words@.len() as int }),
            position_fen(ws).len() <= crate::fen::FEN_MAX_CHARS,
            crate::fen::fen_ok(position_fen(ws)),
            words_trace(ws, moves_from as int, *castling, trace),
            trace.len() == j - moves_from + 1,
            trace.last() == *pos,
            forall|k: int| 0 <= k < trace.len() - 1 ==> #[trigger] playable(trace[k]),
            forall|k: int| 0 <= k < stack@.len() ==> #[trigger] stack@[k] == trace[k].full_hash(),
        decreases words@.len() - j,
    {
        let ghost stack_before = stack@;
        stack.push(pos.hash());
        assert forall|k: int| 0 <= k < stack@.len() implies #[trigger] stack@[k] == trace[k].full_hash() by {
            if k < stack_before.len() {
                assert(stack@[k] == stack_before[k]);
            }
        }
        if !pos.has_both_kings() || pos.halfm >= 255 {
            proof {
                assert(moves_from == moves_start(ws));
                assert(words_trace(ws, moves_start(ws), *castling, trace));
            }
            return false;
        }
        let ghost before = *pos;
        let list = pos.movegen::<true>(castling);
        let n = list.len();
        let mut l: usize = 0;
        let mut played = false;
        assert(ws[j as int] == words@[j as int]@);
        while l < n && !played
            invariant
                n == list@.len(),
                l <= n,
                j < words@.len(),
                pos.wf(),
                castling.wf(),
                before.wf(),
                before.has_kings(),
                before.halfm < 255,
                all_ok(list@, before, *castling),
                all_gen(list@, before, *castling, true),
                list@.len() < 252 ==> forall|m: Move| #[trigger] gen_move(before, *castling, m, true) ==> list@.contains(m),
                owed_fit(before, *castling, true) ==> list@.len() < 252,
                ws[j as int] == words@[j as int]@,
                !played ==> *pos == before,
                !played ==> forall|k: int| 0 <= k < l ==> uci_of(#[trigger] list@[k], *castling) != ws[j as int],
                played ==> word_step(before, *castling, ws[j as int], *pos),
            decreases n - l,
        {
            let mov = list.get(l);
            proof {
                assert(move_ok(*pos, list@[l as int], *castling));
            }
            let name = mov.to_uci(castling);
            if spells(&name, &words[j]) {
                pos.make(mov, castling);
                played = true;
                proof {
                    assert(gen_move(before, *castling, list@[l as int], true));
                    assert(made(before, mov, *castling, *pos));
                }
            }
            l += 1;
        }
        proof {
            if !played {
                if owed_fit(before, *castling, true) {
                    assert forall|m: Move| #[trigger] gen_move(before, *castling, m, true) implies uci_of(m, *castling) != ws[j as int] by {
                        assert(list@.contains(m));
                        let k = choose|k: int| 0 <= k < list@.len() && list@[k] == m;
                        assert(uci_of(list@[k], *castling) != ws[j as int]);
                    }
                }
                assert(word_step(before, *castling, ws[j as int], *pos));
            }
            let old_trace = trace;
            trace = trace.push(*pos);
            assert forall|k: int| 0 <= k < stack@.len() implies #[trigger] stack@[k] == trace[k].full_hash() by {
                assert(trace[k] == old_trace[k]);
            }
            assert forall|k: int| 0 <= k < trace.len() - 1 implies #[trigger] playable(trace[k]) by {
                if k < old_trace.len() - 1 {
                    assert(trace[k] == old_trace[k]);
                } else {
                    assert(trace[k] == before);
                }
            }
            assert forall|k: int| 0 <= k < trace.len() - 1 implies #[trigger] word_step(trace[k], *castling, ws[moves_from + k], trace[k + 1]) by {
                if k < old_trace.len() - 1 {
                    assert(trace[k] == old_trace[k] && trace[k + 1] == old_trace[k + 1]);
                } else {
                    assert(trace[k] == before);
                }
            }
        }
        j += 1;
    }
    proof {
        assert(moves_from == moves_start(ws));
        assert(words_trace(ws, moves_start(ws), *castling, trace));
    }
    true
}

} // verus!
