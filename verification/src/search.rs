use vstd::prelude::*;
use crate::consts::{Bound, MoveScore, Piece, Score};
use crate::movegen::{all_captures, all_ok, gen_move, owed_fit};
use crate::moves::{first_max, Move, MoveList};
use crate::position::{piece_at, Position};
use crate::tables::{gravity, hist_index, lemma_probe_after_push, HashTable, HistoryEntry, NodeTable, PlyEntry};
use crate::see::see_spec;
use crate::evaluate::nnue_eval;
use crate::status::{draw_rule, legal_move, plays_to};
use crate::position::{after_cell, attacked_by, king_sq, move_ok, stm_of};
use crate::frc::Castling;
use crate::thread::rep_count;
use crate::thread::{elapsed_ms, now, DepthReport, ThreadData, LMR_SIZE};

verus! {

/// Most valuable victim, least valuable attacker: eight times the piece taken less the piece
/// taking.
fn mvv_lva(mov: Move, pos: &Position) -> (r: i32)
    requires
        mov.wf(),
    ensures
        r == 8 * piece_at(pos.bb, mov.to as int) - mov.pc,
{
    proof {
        crate::position::lemma_get_pc_sq(pos.bb, mov.to as int);
    }
    8 * pos.get_pc(1u64 << mov.to() as u64) as i32 - mov.moved_pc() as i32
}

/// One more, stopping at the largest count.
fn bump(n: u64) -> (r: u64)
    ensures
        r == if n < u64::MAX { n + 1 } else { n as int },
{
    if n < u64::MAX {
        n + 1
    } else {
        n
    }
}

/// Nodes and quiescence nodes together, stopping at the largest count.
fn total_nodes(eng: &ThreadData) -> (r: u64)
    ensures
        r == if eng.nodes + eng.qnodes <= u64::MAX { eng.nodes + eng.qnodes } else { u64::MAX as int },
{
    if eng.nodes <= u64::MAX - eng.qnodes {
        eng.nodes + eng.qnodes
    } else {
        u64::MAX
    }
}

/// Scores the moves of `moves` for capture search: most valuable victim first.
fn score_captures(moves: &MoveList, pos: &Position, scores: &mut [i32; 252])
    requires
        forall|i: int| 0 <= i < moves@.len() ==> (#[trigger] moves@[i]).wf(),
    ensures
        forall|i: int| 0 <= i < moves@.len() ==> #[trigger] final(scores)[i] == 8 * piece_at(pos.bb, moves@[i].to as int) - moves@[i].pc,
        forall|i: int| moves@.len() <= i < 252 ==> #[trigger] final(scores)[i] == old(scores)[i],
{
    let n = moves.len();
    let mut i: usize = 0;
    while i < n
        invariant
            n == moves@.len(),
            i <= n,
            n <= 252,
            forall|j: int| 0 <= j < moves@.len() ==> (#[trigger] moves@[j]).wf(),
            forall|j: int| 0 <= j < i ==> #[trigger] scores[j] == 8 * piece_at(pos.bb, moves@[j].to as int) - moves@[j].pc,
            forall|j: int| i <= j < 252 ==> #[trigger] scores[j] == old(scores)[j],
        decreases n - i,
    {
        let m = moves.get(i);
        scores[i] = mvv_lva(m, pos);
        i += 1;
    }
}

/// Picking a move off a list of moves that fit the position leaves such a list, and the
/// picked move fits too.
proof fn lemma_pick_keeps(old_l: Seq<Move>, new_l: Seq<Move>, i: int, pos: Position, cs: crate::frc::Castling)
    requires
        all_ok(old_l, pos, cs),
        0 <= i < old_l.len(),
        new_l == old_l.update(i, old_l[old_l.len() - 1]).take(old_l.len() - 1),
    ensures
        all_ok(new_l, pos, cs),
        crate::position::move_ok(pos, old_l[i], cs),
        all_captures(old_l) ==> all_captures(new_l) && old_l[i].spec_is_capture(),
{
    let n = old_l.len() as int;
    assert(crate::position::move_ok(pos, old_l[i], cs));
    assert forall|j: int| 0 <= j < new_l.len() implies #[trigger] crate::position::move_ok(pos, new_l[j], cs) by {
        if j == i {
            assert(new_l[j] == old_l[n - 1]);
        } else {
            assert(new_l[j] == old_l[j]);
        }
    }
    if all_captures(old_l) {
        assert(old_l[i].spec_is_capture());
        assert forall|j: int| 0 <= j < new_l.len() implies #[trigger] new_l[j].spec_is_capture() by {
            if j == i {
                assert(new_l[j] == old_l[n - 1]);
            } else {
                assert(new_l[j] == old_l[j]);
            }
        }
    }
}

/// What the capture search needs of a position: consistent, both kings on the board, and a
/// half-move clock that a move can still raise.
pub open spec fn searchable(pos: &Position) -> bool {
    &&& pos.wf()
    &&& pos.has_kings()
    &&& pos.halfm < 255
}

/// The hash table of `eng` holds an entry for `pos` at the current ply, and its score is `r`.
pub open spec fn tt_says(eng: ThreadData, pos: Position, r: int) -> bool {
    match eng.tt.probed(pos.full_hash(), eng.ply) {
        Some(e) => r == e.score,
        None => false,
    }
}

/// Quiescence search: stands pat on the static evaluation (or a hash entry that settles the
/// window), then tries the captures that do not lose material, best victims first.
fn qs(pos: &Position, eng: &mut ThreadData, alpha: i32, beta: i32) -> (r: i32)
    requires
        old(eng).wf(),
        searchable(pos),
        0 <= old(eng).ply <= 95,
        -i32::MAX <= alpha <= i32::MAX - 1,
        -i32::MAX + 1 <= beta,
    ensures
        final(eng).wf(),
        final(eng).ply == old(eng).ply,
        final(eng).stack@ == old(eng).stack@,
        final(eng).castling == old(eng).castling,
        final(eng).net == old(eng).net,
        final(eng).best_move == old(eng).best_move,
        final(eng).tt.age == old(eng).tt.age,
        final(eng).reports@ == old(eng).reports@,
        -i32::MAX <= r,
        nnue_eval(*pos, old(eng).net) >= beta ==> r == nnue_eval(*pos, old(eng).net),
        r >= nnue_eval(*pos, old(eng).net) || tt_says(*old(eng), *pos, r as int),
        r > nnue_eval(*pos, old(eng).net) ==> tt_says(*old(eng), *pos, r as int) || exists|m: Move|
            #[trigger] legal_move(*pos, m, old(eng).castling) && m.spec_is_capture() && see_spec(*pos, m, 1),
    decreases 96 - old(eng).ply,
{
    let mut alpha = alpha;
    if eng.seldepth < eng.ply {
        eng.seldepth = eng.ply;
    }
    let mut eval = pos.eval(eng.net, &mut eng.cache);
    if eval >= beta {
        return eval;
    }
    if alpha < eval {
        alpha = eval;
    }
    let hash = pos.hash();
    match eng.tt.probe(hash, eng.ply) {
        Some(entry) => {
            let tt_score = entry.score();
            let bound = entry.bound();
            if (bound == Bound::LOWER && tt_score >= beta) || (bound == Bound::UPPER && tt_score <= alpha) || (bound != Bound::LOWER
                && bound != Bound::UPPER) {
                return tt_score;
            }
        },
        None => {},
    }
    if eng.ply >= 95 {
        return eval;
    }
    let mut caps = pos.movegen::<false>(&eng.castling);
    let mut scores = [0i32; 252];
    proof {
        assert forall|i: int| 0 <= i < caps@.len() implies (#[trigger] caps@[i]).wf() by {
            assert(crate::position::move_ok(*pos, caps@[i], eng.castling));
        }
    }
    score_captures(&caps, pos, &mut scores);
    eng.ply = eng.ply + 1;
    let mut bm = Move::null();
    let ghost ply0 = old(eng).ply;
    let ghost stack0 = old(eng).stack@;
    while caps.len() > 0
        invariant_except_break
            eval < beta,
        invariant
            eng.wf(),
            searchable(pos),
            eng.ply == ply0 + 1,
            ply0 == old(eng).ply,
            0 <= ply0 < 95,
            eng.castling == old(eng).castling,
            eng.net == old(eng).net,
            eng.stack@ == stack0,
            eng.best_move == old(eng).best_move,
            eng.tt.age == old(eng).tt.age,
            eng.reports@ == old(eng).reports@,
            eval >= nnue_eval(*pos, old(eng).net),
            eval > nnue_eval(*pos, old(eng).net) ==> exists|m: Move| #[trigger] legal_move(*pos, m, old(eng).castling) && m.spec_is_capture()
                && see_spec(*pos, m, 1),
            all_ok(caps@, *pos, eng.castling),
            all_captures(caps@),
            bm.wf(),
            -i32::MAX <= eval,
            -i32::MAX <= alpha <= i32::MAX - 1,
            -i32::MAX + 1 <= beta,
        decreases caps@.len(),
    {
        let ghost old_caps = caps@;
        let ghost old_scores = scores@;
        let picked = caps.pick(&mut scores);
        let mov = match picked {
            Some(p) => p.0,
            None => {
                break;
            },
        };
        proof {
            let i = choose|i: int| #![trigger first_max(old_scores, old_caps.len() as int, i)] {
                let n = old_caps.len() as int;
                &&& first_max(old_scores, n, i)
                &&& picked == Some((old_caps[i], old_scores[i]))
                &&& caps@ == old_caps.update(i, old_caps[n - 1]).take(n - 1)
            };
            lemma_pick_keeps(old_caps, caps@, i, *pos, eng.castling);
            assert(mov.spec_is_capture());
        }
        if !pos.see(mov, 1) {
            continue;
        }
        let mut new = *pos;
        if new.make(mov, &eng.castling) {
            continue;
        }
        proof {
            assert(plays_to(*pos, mov, eng.castling, new));
            assert(legal_move(*pos, mov, old(eng).castling));
        }
        eng.qnodes = bump(eng.qnodes);
        let score = -qs(&new, eng, -beta, -alpha);
        if score <= eval {
            continue;
        }
        eval = score;
        bm = mov;
        if eval >= beta {
            break;
        }
        if alpha < eval {
            alpha = eval;
        }
    }
    eng.ply = eng.ply - 1;
    let bound = if eval >= beta { Bound::LOWER } else { Bound::UPPER };
    eng.tt.push(hash, bm, 0, bound, eval, eng.ply);
    eval
}

/// The window a search gets: `alpha` below the largest score, `beta` above the smallest.
pub open spec fn window_ok(alpha: int, beta: int) -> bool {
    &&& -i32::MAX <= alpha <= i32::MAX - 1
    &&& -i32::MAX + 1 <= beta <= i32::MAX
}

/// What the search keeps of the thread: the path and ply it was given, the castling
/// configuration and network, the age of the hash table and the depth reports.
pub open spec fn keeps_thread(a: &ThreadData, b: &ThreadData) -> bool {
    &&& b.wf()
    &&& b.ply == a.ply
    &&& b.stack@ == a.stack@
    &&& b.castling == a.castling
    &&& b.net == a.net
    &&& b.tt.age == a.tt.age
    &&& b.reports@ == a.reports@
}

/// The ordering score of `mov` in the main search: the hash move first, then en passant,
/// captures (a large bonus when the exchange does not lose) by victim and attacker,
/// promotions by kind, killers, the counter move, and the rest by history `h`.
pub open spec fn move_score(
    mov: Move,
    pos: Position,
    h: Seq<HistoryEntry>,
    tt_move: Move,
    killers: [Move; 2],
    counter_mov: Move,
    stm: int,
) -> int {
    if mov == tt_move {
        3000000int
    } else if mov.flag == 5 {
        131088int
    } else if mov.spec_is_capture() {
        131072 * (if see_spec(pos, mov, 0) { 1int } else { 0int }) + 8 * piece_at(pos.bb, mov.to as int) - mov.pc
    } else if mov.spec_is_promo() {
        70000 + (mov.flag & 7u8) as int
    } else if killers[0] == mov || killers[1] == mov {
        69001int
    } else if mov == counter_mov {
        69000int
    } else {
        h[hist_index(stm, mov.pc as int, mov.to as int)].score as int
    }
}

/// The history scores after `mov` of `stm` gets `bonus`.
pub open spec fn hist_push(h: Seq<HistoryEntry>, mov: Move, stm: int, bonus: int) -> Seq<HistoryEntry> {
    let i = hist_index(stm, mov.pc as int, mov.to as int);
    h.update(i, HistoryEntry { score: gravity(h[i].score as int, bonus) as i32, ..h[i] })
}

/// The history scores after each of the first `n` moves of `quiets` gets `bonus`.
pub open spec fn hist_push_all(h: Seq<HistoryEntry>, quiets: Seq<Move>, stm: int, bonus: int, n: int) -> Seq<HistoryEntry>
    decreases n,
{
    if n <= 0 {
        h
    } else {
        hist_push(hist_push_all(h, quiets, stm, bonus, n - 1), quiets[n - 1], stm, bonus)
    }
}

/// Scores the moves for the main search: the hash move first, then en passant, captures that
/// win material by victim and attacker, promotions, killers, the counter move, and the rest by
/// history.
fn score_moves(
    moves: &MoveList,
    pos: &Position,
    eng: &ThreadData,
    scores: &mut [i32; 252],
    tt_move: Move,
    killers: [Move; 2],
    counter_mov: Move,
    stm: usize,
)
    requires
        eng.wf(),
        stm < 2,
        forall|i: int| 0 <= i < moves@.len() ==> (#[trigger] moves@[i]).wf() && 2 <= moves@[i].pc,
    ensures
        forall|i: int| 0 <= i < moves@.len() ==> #[trigger] final(scores)[i]
            == move_score(moves@[i], *pos, eng.htable.table@, tt_move, killers, counter_mov, stm as int),
        forall|i: int| moves@.len() <= i < 252 ==> #[trigger] final(scores)[i] == old(scores)[i],
{
    let n = moves.len();
    let mut i: usize = 0;
    while i < n
        invariant
            n == moves@.len(),
            i <= n,
            n <= 252,
            eng.wf(),
            stm < 2,
            forall|j: int| 0 <= j < moves@.len() ==> (#[trigger] moves@[j]).wf() && 2 <= moves@[j].pc,
            forall|j: int| 0 <= j < i ==> #[trigger] scores[j]
                == move_score(moves@[j], *pos, eng.htable.table@, tt_move, killers, counter_mov, stm as int),
            forall|j: int| i <= j < 252 ==> #[trigger] scores[j] == old(scores)[j],
        decreases n - i,
    {
        let mov = moves.get(i);
        scores[i] = if mov == tt_move {
            MoveScore::HASH
        } else if mov.is_en_passant() {
            MoveScore::CAPTURE + 16
        } else if mov.is_capture() {
            MoveScore::CAPTURE * (if pos.see(mov, 0) { 1 } else { 0 }) + mvv_lva(mov, pos)
        } else if mov.is_promo() {
            MoveScore::PROMO + (mov.flag() & 7) as i32
        } else if killers[0] == mov || killers[1] == mov {
            MoveScore::KILLER + 1
        } else if mov == counter_mov {
            MoveScore::KILLER
        } else {
            eng.htable.get_score(stm, mov)
        };
        i += 1;
    }
}

/// Rewards the quiet move that caused a cutoff with `bonus` and punishes the quiet moves tried
/// before it by as much (the last move of `quiets` is the cutoff move itself).
fn reward_quiets(htable: &mut crate::tables::HistoryTable, quiets: &MoveList, mov: Move, stm: usize, bonus: i32)
    requires
        old(htable).wf(),
        stm < 2,
        mov.wf(),
        0 <= bonus <= 1600,
        quiets@.len() >= 1,
        forall|j: int| 0 <= j < quiets@.len() ==> (#[trigger] quiets@[j]).wf(),
    ensures
        final(htable).wf(),
        final(htable).table@ == hist_push_all(
            hist_push(old(htable).table@, mov, stm as int, bonus as int),
            quiets@,
            stm as int,
            -bonus,
            quiets@.len() - 1,
        ),
{
    htable.push(mov, stm, bonus);
    let ghost h0 = htable.table@;
    let nq = quiets.len();
    let mut q: usize = 0;
    while q + 1 < nq
        invariant
            nq == quiets@.len(),
            1 <= nq <= 252,
            q <= 252,
            q < nq,
            htable.wf(),
            stm < 2,
            0 <= bonus <= 1600,
            forall|j: int| 0 <= j < quiets@.len() ==> (#[trigger] quiets@[j]).wf(),
            h0 == hist_push(old(htable).table@, mov, stm as int, bonus as int),
            htable.table@ == hist_push_all(h0, quiets@, stm as int, -bonus, q as int),
        decreases nq - q,
    {
        let quiet = quiets.get(q);
        htable.push(quiet, stm, -bonus);
        q += 1;
    }
}

/// Late move reduction for `depth` and move number `legal`, from the table.
fn lmr_at(eng: &ThreadData, depth: i32, legal: i32) -> (r: i32)
    requires
        eng.wf(),
        depth >= 0,
        legal >= 0,
    ensures
        0 <= r <= 64,
        r == eng.lmr@[(if depth < 255 { depth as int } else { 255int }) * 256 + (if legal < 255 { legal as int } else { 255int })],
{
    let d: usize = if depth < 255 { depth as usize } else { 255 };
    let l: usize = if legal < 255 { legal as usize } else { 255 };
    eng.lmr[d * LMR_SIZE + l]
}

/// Whether a search that has run `elapsed` milliseconds over `nodes` nodes has reached its
/// limits of `max_time` milliseconds or `max_nodes` nodes.
pub fn limits_hit(elapsed: u64, max_time: u64, nodes: u64, max_nodes: u64) -> (r: bool)
    ensures
        r == (elapsed >= max_time || nodes >= max_nodes),
{
    elapsed >= max_time || nodes >= max_nodes
}

/// `m` is a move as a hash entry for `pos` gives it back: squares and flag as sixteen bits
/// hold them, and for piece the one standing on its from-square.
pub open spec fn stored_move(pos: Position, m: Move) -> bool {
    &&& m.from < 64
    &&& m.to < 64
    &&& m.flag < 16
    &&& m.pc == piece_at(pos.bb, m.from as int)
}

/// What the root search may report as its best move: none, a legal move of `pos`, or the
/// hash move it started from when no move raised the score.
pub open spec fn root_move(pos: Position, cs: Castling, m: Move) -> bool {
    ||| m == Move::null()
    ||| legal_move(pos, m, cs)
    ||| stored_move(pos, m)
}

/// The hash table holds an entry for `hash` at the root whose score is `r`.
pub open spec fn root_recorded(tt: HashTable, hash: u64, r: int) -> bool {
    tt.probed(hash, 0) is Some && tt.probed(hash, 0).unwrap().score == r
}

/// Taking the picked move off a list keeps every other move on it.
proof fn lemma_pick_keeps_other(old_l: Seq<Move>, new_l: Seq<Move>, k: int, x: Move)
    requires
        0 <= k < old_l.len(),
        new_l == old_l.update(k, old_l[old_l.len() - 1]).take(old_l.len() - 1),
        old_l.contains(x),
        old_l[k] != x,
    ensures
        new_l.contains(x),
{
    let n = old_l.len() as int;
    let j = choose|j: int| 0 <= j < n && old_l[j] == x;
    if j == n - 1 {
        assert(new_l[k] == x);
    } else {
        assert(new_l[j] == x);
    }
}

/// The side to move in `pos` has no legal move: mated when in check, else stalemated.
pub open spec fn stuck(pos: Position, cs: Castling) -> bool {
    forall|m: Move| !#[trigger] legal_move(pos, m, cs)
}

/// The lower end of a search window below the root: no worse than being mated at this ply.
pub open spec fn pvs_lo(alpha: int, ply: int) -> int {
    if ply > 0 && alpha < ply - 30000 { ply - 30000 } else { alpha }
}

/// The upper end of a search window below the root: no better than mating at the next ply.
pub open spec fn pvs_hi(beta: int, ply: int) -> int {
    if ply > 0 && beta > 30000 - ply - 1 { 30000 - ply - 1 } else { beta }
}

/// Principal variation search of `pos` to `depth` in the window (`alpha`, `beta`), with
/// null move pruning allowed when `null`, after the move `prev`.
#[verifier::rlimit(100)]
#[verifier::spinoff_prover]
fn pvs(pos: &Position, eng: &mut ThreadData, alpha: i32, beta: i32, draft: i32, null: bool, prev: Move) -> (r: i32)
    requires
        old(eng).wf(),
        pos.wf(),
        pos.has_kings(),
        old(eng).ply == 0 ==> pos.halfm < 255,
        0 <= old(eng).ply <= 95,
        window_ok(alpha as int, beta as int),
        draft <= 46000 + old(eng).ply,
        prev.wf(),
    ensures
        keeps_thread(&*old(eng), &*final(eng)),
        -i32::MAX <= r,
        old(eng).abort ==> r == 0 && *final(eng) == *old(eng),
        old(eng).ply > 0 ==> final(eng).best_move == old(eng).best_move,
        old(eng).ply == 0 ==> final(eng).best_move == old(eng).best_move || root_move(*pos, old(eng).castling, final(eng).best_move),
        old(eng).ply == 0 && !final(eng).abort && draft > 0 && beta > alpha + 1 && old(eng).plied.table@[0].singular == Move::null()
            && owed_fit(*pos, old(eng).castling, true) && (exists|m: Move| #[trigger] gen_move(*pos, old(eng).castling, m, true)
            && legal_move(*pos, m, old(eng).castling)) && -0x7FFF <= r <= 0x7FFF ==> root_recorded(final(eng).tt, pos.full_hash(), r as int),
        old(eng).ply == 0 && !final(eng).abort && draft > 0 && beta > alpha + 1 && owed_fit(*pos, old(eng).castling, true)
            && (exists|m: Move| #[trigger] gen_move(*pos, old(eng).castling, m, true) && legal_move(*pos, m, old(eng).castling))
            && r > alpha && r > -30000 ==> legal_move(*pos, final(eng).best_move, old(eng).castling),
        ({
            let ply = old(eng).ply;
            let lo = pvs_lo(alpha as int, ply as int);
            let hi = pvs_hi(beta as int, ply as int);
            let drawn = draw_rule(*pos) || (old(eng).stack@.len() >= 6
                && rep_count(old(eng).stack@, pos.full_hash(), pos.halfm as int, old(eng).stack@.len() as int) >= 1);
            let d = if ply > 0 && pos.check { draft + 1 } else { draft as int };
            !old(eng).abort && old(eng).nodes & 1023 != 0 ==> {
                &&& ply > 0 && drawn ==> r == 0
                &&& ply > 0 && !drawn && lo >= hi ==> r == lo
                &&& (ply == 0 || (!drawn && lo < hi)) && (d <= 0 || ply == 95) && nnue_eval(*pos, old(eng).net) >= hi
                    ==> r == nnue_eval(*pos, old(eng).net)
                &&& (ply == 0 || (!drawn && lo < hi)) && d > 0 && ply < 95 && hi > lo + 1 && stuck(*pos, old(eng).castling)
                    ==> r == if pos.check { ply - 30000 } else { 0int }
            }
        }),
    decreases 96 - old(eng).ply, if draft > 0 { draft as int } else { 0int },
{
    let mut alpha = alpha;
    let mut beta = beta;
    let mut depth = draft;
    if eng.abort {
        return 0;
    }
    if eng.nodes & 1023 == 0 && limits_hit(elapsed_ms(&eng.timing), eng.max_time, total_nodes(eng), eng.max_nodes) {
        eng.abort = true;
        return 0;
    }
    let hash = pos.hash();
    let ply = eng.ply;
    let pi = ply as usize;
    let e = eng.plied.table[pi];
    let mut cleared = e.pv_line;
    cleared.clear();
    eng.plied.table.set(pi, PlyEntry { pv_line: cleared, ..e });
    if ply > 0 {
        if pos.draw() || eng.repetition(pos, hash, false) {
            return Score::DRAW;
        }
        if alpha < ply - Score::MAX {
            alpha = ply - Score::MAX;
        }
        if beta > Score::MAX - ply - 1 {
            beta = Score::MAX - ply - 1;
        }
        if alpha >= beta {
            return alpha;
        }
        if pos.check {
            depth = depth + 1;
        }
    }
    if depth <= 0 || ply == 95 {
        return qs(pos, eng, alpha, beta);
    }
    let pv_node = beta > alpha + 1;
    let s_mov = eng.plied.table[pi].singular;
    let singular = s_mov != Move::null();
    let mut eval = pos.eval(eng.net, &mut eng.cache);
    let mut tt_move = Move::null();
    let mut tt_score = -Score::MAX;
    let mut try_singular = !singular && depth >= 8 && ply > 0;
    match eng.tt.probe(hash, ply) {
        Some(entry) => {
            let bound = entry.bound();
            tt_move = entry.best_move(pos);
            assert(stored_move(*pos, tt_move));
            tt_score = entry.score();
            try_singular = try_singular && entry.depth() >= depth - 3 && bound != Bound::UPPER && -Score::MATE < tt_score
                && tt_score < Score::MATE;
            if !singular && !pv_node && depth <= entry.depth() && ((bound == Bound::LOWER && tt_score >= beta) || (bound
                == Bound::UPPER && tt_score <= alpha) || (bound != Bound::LOWER && bound != Bound::UPPER)) {
                return tt_score;
            }
            if !((eval > tt_score && bound == Bound::LOWER) || (eval < tt_score && bound == Bound::UPPER)) {
                eval = tt_score;
            }
        },
        None => {},
    }
    let e = eng.plied.table[pi];
    eng.plied.table.set(pi, PlyEntry { eval, ..e });
    let improving = ply > 1 && eval > eng.plied.table[pi - 2].eval;
    let mut can_prune = !pv_node && !pos.check;
    if can_prune && -Score::MATE < beta && beta < Score::MATE {
        let div = if improving { 2 } else { 1 };
        if depth <= 8 && eval >= beta + 80 * depth / div {
            return eval;
        }
        if depth <= 2 && eval + 400 * depth < alpha {
            let qeval = qs(pos, eng, alpha, beta);
            if qeval < alpha {
                return qeval;
            }
        }
        if null && depth >= 3 && pos.phase > 2 && eval >= beta {
            let mut new = *pos;
            let r = 3 + depth / 3;
            eng.push(hash);
            new.make_null();
            let nw = -pvs(&new, eng, -beta, -alpha, depth - r, false, Move::null());
            eng.pop();
            assert(eng.stack@ =~= old(eng).stack@);
            if nw >= Score::MATE {
                return beta;
            }
            if nw >= beta {
                return nw;
            }
        }
    }
    if depth >= 4 && tt_move == Move::null() {
        depth = depth - 1;
    }
    let mut moves = pos.movegen::<true>(&eng.castling);
    let mut scores = [0i32; 252];
    let killers = eng.plied.table[pi].killers;
    let stm = pos.stm();
    let counter_mov = if prev != Move::null() {
        eng.htable.get_counter(stm, prev)
    } else {
        Move::null()
    };
    proof {
        assert forall|i: int| 0 <= i < moves@.len() implies (#[trigger] moves@[i]).wf() && 2 <= moves@[i].pc by {
            assert(crate::position::move_ok(*pos, moves@[i], eng.castling));
        }
    }
    score_moves(&moves, pos, eng, &mut scores, tt_move, killers, counter_mov, stm);
    let mut legal: i32 = 0;
    let mut bound = Bound::UPPER;
    let mut best_score = -Score::MAX;
    let mut best_move = tt_move;
    let mut quiets_tried = MoveList::zeroed();
    let can_lmr = depth > 1 && ply > 0 && !pos.check;
    can_prune = can_prune && eng.mloop;
    let listed = moves.len();
    assert(listed <= 252);
    assert(try_singular ==> depth >= 7 && ply > 0);
    assert(tt_move == Move::null() || stored_move(*pos, tt_move));
    assert(pv_node ==> !eng.abort && !can_prune);
    assert(depth <= draft + 1);
    eng.push(hash);
    let ghost eng0 = *old(eng);
    let ghost m0 = choose|m: Move| #[trigger] gen_move(*pos, eng0.castling, m, true) && legal_move(*pos, m, eng0.castling);
    let ghost have = ply == 0 && pv_node && s_mov == Move::null() && owed_fit(*pos, eng0.castling, true)
        && gen_move(*pos, eng0.castling, m0, true) && legal_move(*pos, m0, eng0.castling);
    assert(have ==> moves@.contains(m0));
    let ghost alpha0 = alpha;
    while moves.len() > 0
        invariant_except_break
            window_ok(alpha as int, beta as int),
        invariant
            eng.wf(),
            eng.ply == ply + 1,
            ply == eng0.ply,
            ply == old(eng).ply,
            pi == ply,
            try_singular ==> depth >= 7 && ply > 0,
            depth <= draft + 1,
            eng.best_move == eng0.best_move,
            eng.tt.age == eng0.tt.age,
            eng.reports@ == eng0.reports@,
            stuck(*pos, eng0.castling) && pv_node ==> legal == 0 && !eng.abort && !can_prune,
            have ==> ply == 0 && pv_node && !can_prune && s_mov == Move::null() && legal_move(*pos, m0, eng0.castling),
            have && legal == 0 ==> moves@.contains(m0),
            alpha >= alpha0,
            best_score > alpha0 && best_score > -30000 ==> alpha > alpha0,
            alpha > alpha0 ==> legal_move(*pos, best_move, eng0.castling),
            tt_move == Move::null() || stored_move(*pos, tt_move),
            best_move == tt_move || legal_move(*pos, best_move, eng0.castling),
            0 <= ply < 95,
            eng.stack@ == eng0.stack@.push(hash),
            eng.castling == eng0.castling,
            eng.net == eng0.net,
            pos.wf(),
            pos.has_kings(),
            ply == 0 ==> pos.halfm < 255,
            ply > 0 ==> pos.halfm < 100,
            all_ok(moves@, *pos, eng.castling),
            best_move.wf(),
            tt_move.wf(),
            prev.wf(),
            stm < 2,
            stm == crate::position::stm_of(*pos),
            1 <= depth <= 46001 + ply,
            0 <= legal,
            legal + moves@.len() <= 252,
            moves@.len() + quiets_tried@.len() <= 252,
            forall|j: int| 0 <= j < quiets_tried@.len() ==> (#[trigger] quiets_tried@[j]).wf(),
            -i32::MAX <= best_score,
            -i32::MAX + 1 <= beta <= i32::MAX,
            bound < 4,
            -0x8000 <= tt_score <= 0x8000,
        ensures
            have ==> legal >= 1,
        decreases moves@.len(),
    {
        let ghost old_moves = moves@;
        let ghost old_scores = scores@;
        let picked = moves.pick(&mut scores);
        let (mov, ms) = match picked {
            Some(p) => p,
            None => {
                break;
            },
        };
        proof {
            let k = choose|k: int| #![trigger first_max(old_scores, old_moves.len() as int, k)] {
                let n = old_moves.len() as int;
                &&& first_max(old_scores, n, k)
                &&& picked == Some((old_moves[k], old_scores[k]))
                &&& moves@ == old_moves.update(k, old_moves[n - 1]).take(n - 1)
            };
            lemma_pick_keeps(old_moves, moves@, k, *pos, eng.castling);
            if have && legal == 0 && old_moves[k] != m0 {
                lemma_pick_keeps_other(old_moves, moves@, k, m0);
            }
        }
        if mov == s_mov {
            continue;
        }
        if can_prune && -Score::MATE < best_score && best_score < Score::MATE {
            assert(0 <= depth * depth <= 46096 * 46096) by (nonlinear_arith)
                requires
                    1 <= depth <= 46096;
            if ms < MoveScore::KILLER && legal > 2 + depth * depth / (if improving { 1 } else { 2 }) {
                break;
            }
            let margin = if mov.is_capture() { -90 } else { -50 };
            if depth < 7 && ms < MoveScore::CAPTURE && !pos.see(mov, margin * depth) {
                continue;
            }
        }
        let mut new = *pos;
        if new.make(mov, &eng.castling) {
            proof {
                crate::status::lemma_not_legal(*pos, mov, eng.castling, new.bb);
            }
            continue;
        }
        proof {
            assert(plays_to(*pos, mov, eng.castling, new));
            assert(legal_move(*pos, mov, eng0.castling));
        }
        new.check = new.in_check();
        eng.nodes = bump(eng.nodes);
        legal = legal + 1;
        if !mov.is_noisy() {
            quiets_tried.add(mov);
        }
        let ext: i32 = if try_singular && mov == tt_move {
            let s_beta = tt_score - depth * 2;
            eng.pop();
            let se = eng.plied.table[pi];
            eng.plied.table.set(pi, PlyEntry { singular: mov, ..se });
            assert(eng.ply == old(eng).ply);
            assert(0 <= (depth - 1) / 2 < draft);
            let s_score = pvs(pos, eng, s_beta - 1, s_beta, (depth - 1) / 2, false, prev);
            let se = eng.plied.table[pi];
            eng.plied.table.set(pi, PlyEntry { singular: Move::null(), ..se });
            eng.push(hash);
            if s_score < s_beta {
                1
            } else if tt_score >= beta {
                -1
            } else {
                0
            }
        } else {
            0
        };
        let reduce: i32 = if can_lmr && ms < MoveScore::KILLER {
            let mut r = lmr_at(eng, depth, legal);
            if pv_node {
                r = r - 1;
            }
            if new.check {
                r = r - 1;
            }
            if eng.plied.table[pi + 1].cutoffs < 4 {
                r = r - 1;
            }
            if ms <= MoveScore::HISTORY_MAX {
                r = r - ms / 8192;
            }
            if r < 0 {
                0
            } else {
                r
            }
        } else {
            0
        };
        let pre_nodes = total_nodes(eng);
        let score = if legal == 1 {
            -pvs(&new, eng, -beta, -alpha, depth + ext - 1, false, mov)
        } else {
            let zw = -pvs(&new, eng, -alpha - 1, -alpha, depth - 1 - reduce, true, mov);
            if zw > alpha && (pv_node || reduce > 0) {
                -pvs(&new, eng, -beta, -alpha, depth - 1, false, mov)
            } else {
                zw
            }
        };
        if eng.ply == 1 {
            let cur = total_nodes(eng);
            let spent = if cur >= pre_nodes { cur - pre_nodes } else { 0 };
            eng.ntable.update(mov, spent);
        }
        if score > best_score {
            best_score = score;
        }
        if score <= alpha {
            continue;
        }
        best_move = mov;
        alpha = score;
        bound = Bound::EXACT;
        if pv_node {
            let sub_line = eng.plied.table[pi + 1].pv_line;
            let pe = eng.plied.table[pi];
            let mut line = pe.pv_line;
            line.copy_in(mov, &sub_line);
            eng.plied.table.set(pi, PlyEntry { pv_line: line, ..pe });
        }
        if score < beta {
            continue;
        }
        bound = Bound::LOWER;
        let ce = eng.plied.table[pi];
        let cutoffs = if ce.cutoffs < i32::MAX { ce.cutoffs + 1 } else { ce.cutoffs };
        eng.plied.table.set(pi, PlyEntry { cutoffs, ..ce });
        if mov.is_noisy() || eng.abort {
            break;
        }
        eng.plied.push_killer(mov, eng.ply);
        let bonus = if 350 * (depth - 1) < 1600 { 350 * (depth - 1) } else { 1600 };
        reward_quiets(&mut eng.htable, &quiets_tried, mov, stm, bonus);
        eng.htable.push_counter(stm, prev, mov);
        break;
    }
    eng.pop();
    assert(eng.stack@ =~= old(eng).stack@);
    if eng.abort {
        return 0;
    }
    if ply == 0 {
        eng.best_move = best_move;
    }
    if legal == 0 {
        return (if pos.check { 1 } else { 0 }) * (ply - Score::MAX);
    }
    let ghost t0 = eng.tt;
    eng.tt.push(hash, best_move, #[verifier::truncate] (depth as i8), bound, best_score, ply);
    proof {
        if ply == 0 && -0x7FFF <= best_score <= 0x7FFF {
            lemma_probe_after_push(t0, eng.tt, hash, best_move, #[verifier::truncate] (depth as i8), bound, best_score, ply);
        }
    }
    best_score
}

/// Searches to `max_depth` in a window around the previous `score` that widens on each
/// failure: a fail low widens it downwards and restarts at full depth, a fail high widens it
/// upwards, records the best move so far and searches one ply shallower.
fn aspiration(pos: &Position, eng: &mut ThreadData, score: i32, max_depth: i32, best_move: &mut Move, prev: Move) -> (r: i32)
    requires
        old(eng).wf(),
        old(eng).ply == 0,
        pos.wf(),
        pos.has_kings(),
        pos.halfm < 255,
        -i32::MAX <= score,
        1 <= max_depth <= 46000,
        prev.wf(),
        old(best_move).wf(),
        root_move(*pos, old(eng).castling, old(eng).best_move),
        root_move(*pos, old(eng).castling, *old(best_move)),
    ensures
        keeps_thread(&*old(eng), &*final(eng)),
        final(best_move).wf(),
        root_move(*pos, old(eng).castling, final(eng).best_move),
        root_move(*pos, old(eng).castling, *final(best_move)),
        -i32::MAX <= r,
        old(eng).abort ==> r == 0 && *final(eng) == *old(eng) && *final(best_move) == *old(best_move),
        final(eng).abort ==> r == 0,
{
    let mut delta: i64 = 25;
    let mut alpha: i64 = if score as i64 - delta > -Score::MAX as i64 { score as i64 - delta } else { -Score::MAX as i64 };
    let mut beta: i64 = if (score as i64) + delta < Score::MAX as i64 { score as i64 + delta } else { Score::MAX as i64 };
    let mut depth = max_depth;
    let mut score = score;
    let ghost eng0 = *old(eng);
    while delta < 0x4000_0000
        invariant
            keeps_thread(&eng0, &*eng),
            eng0 == *old(eng),
            eng.ply == 0,
            pos.wf(),
            pos.has_kings(),
            pos.halfm < 255,
            prev.wf(),
            best_move.wf(),
            root_move(*pos, eng0.castling, eng.best_move),
            root_move(*pos, eng0.castling, *best_move),
            -Score::MAX <= alpha <= i32::MAX - 1,
            -i32::MAX + 1 <= beta <= i32::MAX,
            depth <= 46000,
            depth >= -delta,
            1 <= max_depth <= 46000,
            25 <= delta < 0x8000_0000,
            -i32::MAX <= score,
            delta == 25 ==> *eng == eng0 && *best_move == *old(best_move),
            delta > 25 ==> !eng.abort,
            eng0.abort ==> delta == 25,
        decreases 0x8000_0000 - delta,
    {
        score = pvs(pos, eng, alpha as i32, beta as i32, depth, false, prev);
        if eng.abort {
            return 0;
        }
        if (score as i64) <= alpha {
            beta = (alpha + beta) / 2;
            alpha = if alpha - delta > -Score::MAX as i64 { alpha - delta } else { -Score::MAX as i64 };
            depth = max_depth;
        } else if (score as i64) >= beta {
            beta = if beta + delta < Score::MAX as i64 { beta + delta } else { Score::MAX as i64 };
            *best_move = eng.best_move;
            depth = depth - 1;
        } else {
            return score;
        }
        delta = delta * 2;
    }
    score
}

/// Iterative deepening from `start` up to `max_depth`: each iteration searches one ply deeper
/// (with an aspiration window from depth seven on), records what it found in the reports and
/// keeps its best move, until the search is stopped, the node budget `soft_nodes` is spent, or
/// the time spent passes `soft_bound` milliseconds (scaled after depth eight by how much of
/// the effort went to the best move). Returns the best move and its score.
pub fn go(start: &Position, eng: &mut ThreadData, max_depth: i32, soft_bound: u64, soft_nodes: u64) -> (r: (Move, i32))
    requires
        old(eng).wf(),
        start.wf(),
        start.has_kings(),
        start.halfm < 255,
        max_depth <= 46000,
    ensures
        final(eng).wf(),
        final(eng).ply == 0,
        final(eng).stack@ == old(eng).stack@,
        final(eng).castling == old(eng).castling,
        r.0.wf(),
        root_move(*start, old(eng).castling, r.0),
        -i32::MAX <= r.1,
        final(eng).tt.age == if old(eng).tt.age < 63 { old(eng).tt.age + 1 } else { 63 },
        final(eng).reports@.len() >= old(eng).reports@.len(),
        final(eng).reports@.len() > old(eng).reports@.len() ==> r.1 == final(eng).reports@.last().score,
        final(eng).reports@.len() == old(eng).reports@.len() ==> r.1 == 0,
        !final(eng).abort && max_depth >= 1 ==> final(eng).reports@.len() > old(eng).reports@.len(),
        !final(eng).abort && max_depth >= 1 && final(eng).reports@.last().depth < 7 && r.1 > -30000
            && owed_fit(*start, old(eng).castling, true)
            && (exists|m: Move| #[trigger] gen_move(*start, old(eng).castling, m, true) && legal_move(*start, m, old(eng).castling))
            ==> legal_move(*start, r.0, old(eng).castling),
{
    eng.ntable = NodeTable::fresh();
    eng.plied.clear_killers();
    eng.htable.age();
    eng.timing = now();
    eng.nodes = 0;
    eng.qnodes = 0;
    eng.ply = 0;
    eng.best_move = Move::null();
    eng.abort = false;
    eng.seldepth = 0;
    let mut best_move = Move::null();
    let mut pos = *start;
    let mut eval: i32 = 0;
    let mut score: i32 = 0;
    pos.check = pos.in_check();
    let ghost eng0 = *old(eng);
    let mut d: i32 = 1;
    while d <= max_depth
        invariant_except_break
            d == 1 ==> eng.nodes == 0 && eng.qnodes == 0,
        invariant
            eng.wf(),
            eng.ply == 0,
            eng.stack@ == eng0.stack@,
            eng.castling == eng0.castling,
            eng0 == *old(eng),
            pos.wf(),
            pos.has_kings(),
            pos.halfm < 255,
            pos.bb == start.bb,
            pos.c == start.c,
            pos == (Position { check: pos.check, ..*start }),
            d > 1 ==> eng.reports@.len() > eng0.reports@.len(),
            !eng.abort && eng.reports@.len() > eng0.reports@.len() && eng.reports@.last().depth < 7 && score > -30000
                && owed_fit(pos, eng0.castling, true)
                && (exists|m: Move| #[trigger] gen_move(pos, eng0.castling, m, true) && legal_move(pos, m, eng0.castling))
                ==> legal_move(pos, best_move, eng0.castling),
            eng.tt.age == eng0.tt.age,
            eng.reports@.len() >= eng0.reports@.len(),
            eng.reports@.len() > eng0.reports@.len() ==> score == eng.reports@.last().score,
            eng.reports@.len() == eng0.reports@.len() ==> score == 0,
            best_move.wf(),
            root_move(pos, eng0.castling, best_move),
            root_move(pos, eng0.castling, eng.best_move),
            -i32::MAX <= eval,
            -i32::MAX <= score,
            max_depth <= 46000,
            1 <= d,
            d <= max_depth + 1 || d == 1,
        ensures
            !eng.abort && max_depth >= 1 ==> eng.reports@.len() > eng0.reports@.len(),
        decreases max_depth + 1 - d,
    {
        if total_nodes(eng) > soft_nodes {
            break;
        }
        eval = if d < 7 {
            pvs(&pos, eng, -Score::MAX, Score::MAX, d, false, Move::null())
        } else {
            aspiration(&pos, eng, eval, d, &mut best_move, Move::null())
        };
        if eng.abort {
            break;
        }
        best_move = eng.best_move;
        score = eval;
        let nodes = total_nodes(eng);
        let time = elapsed_ms(&eng.timing);
        eng.reports.push(DepthReport {
            depth: d,
            seldepth: eng.seldepth,
            score: eval,
            time,
            nodes,
            pv: eng.plied.table[0].pv_line,
        });
        if nodes > 0 {
            let factor: u128 = if d > 8 {
                let spent = (eng.ntable.get(best_move) as u128) * 1000 / (nodes as u128);
                if spent < 1500 { (1500 - spent) * 135 / 100 } else { 0 }
            } else {
                1000
            };
            assert(factor <= 2025);
            assert((soft_bound as u128) * factor <= 0xFFFF_FFFF_FFFF_FFFFu128 * 2025) by (nonlinear_arith)
                requires
                    factor <= 2025;
            if (time as u128) * 1000 >= (soft_bound as u128) * factor {
                break;
            }
        }
        d = d + 1;
    }
    eng.tt.age_up();
    proof {
        lemma_root_move_board(pos, *start, eng0.castling, best_move);
        lemma_gen_board(pos, *start, eng0.castling);
        lemma_legal_board(pos, *start, eng0.castling, best_move);
        if exists|m: Move| #[trigger] gen_move(*start, eng0.castling, m, true) && legal_move(*start, m, eng0.castling) {
            let m = choose|m: Move| #[trigger] gen_move(*start, eng0.castling, m, true) && legal_move(*start, m, eng0.castling);
            lemma_legal_board(pos, *start, eng0.castling, m);
            assert(gen_move(pos, eng0.castling, m, true) && legal_move(pos, m, eng0.castling));
        }
    }
    (best_move, score)
}

/// Whether a move is legal depends on the board and the side to move alone.
proof fn lemma_legal_board(p: Position, q: Position, cs: Castling, m: Move)
    requires
        p.bb == q.bb,
        p.c == q.c,
    ensures
        legal_move(p, m, cs) == legal_move(q, m, cs),
{
    lemma_root_move_board(p, q, cs, m);
    assert(move_ok(p, m, cs) == move_ok(q, m, cs));
    assert forall|next: Position| #[trigger] plays_to(p, m, cs, next) == plays_to(q, m, cs, next) by {
        assert forall|x: int| 0 <= x < 64 implies #[trigger] after_cell(p, m, cs, x) == after_cell(q, m, cs, x) by {}
    }
    let side = stm_of(p);
    if legal_move(p, m, cs) {
        let next = choose|next: Position| #[trigger] plays_to(p, m, cs, next) && !attacked_by(
            next.bb,
            king_sq(next.bb, side),
            side,
            next.bb[0] | next.bb[1],
        );
        assert(plays_to(q, m, cs, next));
    }
    if legal_move(q, m, cs) {
        let next = choose|next: Position| #[trigger] plays_to(q, m, cs, next) && !attacked_by(
            next.bb,
            king_sq(next.bb, side),
            side,
            next.bb[0] | next.bb[1],
        );
        assert(plays_to(p, m, cs, next));
    }
}

/// The moves the generator owes do not depend on the check flag of the position.
proof fn lemma_gen_board(p: Position, q: Position, cs: Castling)
    requires
        p == (Position { check: p.check, ..q }),
    ensures
        forall|m: Move| #[trigger] gen_move(p, cs, m, true) == gen_move(q, cs, m, true),
        owed_fit(p, cs, true) == owed_fit(q, cs, true),
{
    assert forall|m: Move| #[trigger] gen_move(p, cs, m, true) == gen_move(q, cs, m, true) by {}
    if owed_fit(p, cs, true) {
        let s = choose|s: Seq<Move>| s.len() < 252 && forall|m: Move| #[trigger] gen_move(p, cs, m, true) ==> s.contains(m);
        assert forall|m: Move| #[trigger] gen_move(q, cs, m, true) implies s.contains(m) by {
            assert(gen_move(p, cs, m, true));
        }
    }
    if owed_fit(q, cs, true) {
        let s = choose|s: Seq<Move>| s.len() < 252 && forall|m: Move| #[trigger] gen_move(q, cs, m, true) ==> s.contains(m);
        assert forall|m: Move| #[trigger] gen_move(p, cs, m, true) implies s.contains(m) by {
            assert(gen_move(q, cs, m, true));
        }
    }
}

/// Whether a move may be reported from the root depends on the board and the side to move
/// alone.
proof fn lemma_root_move_board(p: Position, q: Position, cs: Castling, m: Move)
    requires
        p.bb == q.bb,
        p.c == q.c,
    ensures
        root_move(p, cs, m) == root_move(q, cs, m),
{
    assert(move_ok(p, m, cs) == move_ok(q, m, cs));
    assert forall|next: Position| #[trigger] plays_to(p, m, cs, next) == plays_to(q, m, cs, next) by {
        assert forall|x: int| 0 <= x < 64 implies #[trigger] after_cell(p, m, cs, x) == after_cell(q, m, cs, x) by {}
    }
    let side = stm_of(p);
    if legal_move(p, m, cs) {
        let next = choose|next: Position| #[trigger] plays_to(p, m, cs, next) && !attacked_by(
            next.bb,
            king_sq(next.bb, side),
            side,
            next.bb[0] | next.bb[1],
        );
        assert(plays_to(q, m, cs, next));
    }
    if legal_move(q, m, cs) {
        let next = choose|next: Position| #[trigger] plays_to(q, m, cs, next) && !attacked_by(
            next.bb,
            king_sq(next.bb, side),
            side,
            next.bb[0] | next.bb[1],
        );
        assert(plays_to(p, m, cs, next));
    }
}

} // verus!
