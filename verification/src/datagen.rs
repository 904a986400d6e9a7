use vstd::prelude::*;
use crate::frc::Castling;
use crate::movegen::{all_gen, all_ok, gen_move, owed_fit};
use crate::moves::Move;
use crate::position::{move_ok, stm_of, Position};
use crate::fen::{fen_ok, fen_read};
use crate::thread::rep_count;
use crate::search::{go, stuck};
use crate::status::{draw_rule, king_attacked, lemma_not_legal, legal_move, made, plays_to};
use crate::tables::HistoryTable;
use crate::thread::{DepthReport, ThreadData};
use crate::uci::STARTPOS;
use crate::zobrist::{xor_shift, xor_shift_spec};

verus! {

/// A game ends early once a search scores beyond this.
pub const ADJ_WIN_SCORE: i32 = 3000;
/// Nodes after which a move's search stops deepening.
pub const SOFT_NODE_LIMIT: u64 = 5_000;
/// Nodes after which a move's search stops.
pub const HARD_NODE_LIMIT: u64 = 1_000_000;
/// Milliseconds after which a move's search stops.
pub const HARD_TIMEOUT_MS: u64 = 10_000;
/// Games written out at a time.
pub const DATA_WRITE_RATE: u64 = 16;
/// Longest game played: the fifty-move rule ends every game long before this.
pub const MAX_GAME_PLIES: usize = 20_000;

/// A played game: for each quiet position, its bitboards, side to move and the score from
/// white's point of view; and twice the result for white (2 a win, 1 a draw, 0 a loss).
pub struct GameRecord {
    pub fens: Vec<([u64; 8], usize, i16)>,
    pub result: u8,
}

/// Next value of the generator, which it also keeps.
pub fn next_random(rng: &mut u64) -> (r: u64)
    ensures
        r == xor_shift_spec(*old(rng)),
        *final(rng) == r,
{
    *rng = xor_shift(*rng);
    *rng
}

/// Whether the side to move has no legal move.
pub fn is_terminal(pos: &Position, castling: &Castling) -> (r: bool)
    requires
        pos.wf(),
        pos.has_kings(),
        pos.halfm < 255,
        castling.wf(),
    ensures
        !r ==> exists|m: Move| legal_move(*pos, m, *castling),
        r && owed_fit(*pos, *castling, true) ==> forall|m: Move| #[trigger] gen_move(*pos, *castling, m, true) ==> !legal_move(*pos, m, *castling),
{
    let moves = pos.movegen::<true>(castling);
    let n = moves.len();
    let mut i: usize = 0;
    while i < n
        invariant
            n == moves@.len(),
            i <= n,
            pos.wf(),
            pos.has_kings(),
            pos.halfm < 255,
            castling.wf(),
            all_ok(moves@, *pos, *castling),
            forall|k: int| 0 <= k < i ==> !legal_move(*pos, #[trigger] moves@[k], *castling),
        decreases n - i,
    {
        let mov = moves.get(i);
        proof {
            assert(move_ok(*pos, moves@[i as int], *castling));
        }
        let mut new = *pos;
        if !new.make(mov, castling) {
            proof {
                assert(plays_to(*pos, mov, *castling, new));
                assert(legal_move(*pos, mov, *castling));
            }
            return false;
        }
        proof {
            lemma_not_legal(*pos, mov, *castling, new.bb);
        }
        i += 1;
    }
    proof {
        if owed_fit(*pos, *castling, true) {
            assert forall|m: Move| #[trigger] gen_move(*pos, *castling, m, true) implies !legal_move(*pos, m, *castling) by {
                assert(moves@.contains(m));
                let k = choose|k: int| 0 <= k < moves@.len() && moves@[k] == m;
                assert(!legal_move(*pos, moves@[k], *castling));
            }
        }
    }
    true
}

/// The legal moves of a position, each once, in the generator's order.
fn legal_moves(pos: &Position, castling: &Castling) -> (r: Vec<Move>)
    requires
        pos.wf(),
        pos.has_kings(),
        pos.halfm < 255,
        castling.wf(),
    ensures
        forall|i: int| 0 <= i < r@.len() ==> legal_move(*pos, #[trigger] r@[i], *castling) && gen_move(*pos, *castling, r@[i], true),
        r@.no_duplicates(),
        owed_fit(*pos, *castling, true) ==> forall|m: Move| #[trigger] gen_move(*pos, *castling, m, true) && legal_move(*pos, m, *castling)
            ==> r@.contains(m),
{
    let moves = pos.movegen::<true>(castling);
    let n = moves.len();
    let mut legals: Vec<Move> = Vec::new();
    let mut i: usize = 0;
    while i < n
        invariant
            n == moves@.len(),
            i <= n,
            pos.wf(),
            pos.has_kings(),
            pos.halfm < 255,
            castling.wf(),
            all_ok(moves@, *pos, *castling),
            all_gen(moves@, *pos, *castling, true),
            moves@.no_duplicates(),
            forall|j: int| 0 <= j < legals@.len() ==> legal_move(*pos, #[trigger] legals@[j], *castling),
            forall|j: int| 0 <= j < legals@.len() ==> exists|k: int| 0 <= k < i && moves@[k] == #[trigger] legals@[j],
            legals@.no_duplicates(),
            forall|k: int| 0 <= k < i && legal_move(*pos, #[trigger] moves@[k], *castling) ==> legals@.contains(moves@[k]),
        decreases n - i,
    {
        let mov = moves.get(i);
        proof {
            assert(move_ok(*pos, moves@[i as int], *castling));
        }
        let mut new = *pos;
        if !new.make(mov, castling) {
            proof {
                assert(plays_to(*pos, mov, *castling, new));
            }
            let ghost before = legals@;
            proof {
                assert forall|j: int| 0 <= j < before.len() implies before[j] != mov by {
                    let k = choose|k: int| 0 <= k < i && moves@[k] == before[j];
                }
            }
            legals.push(mov);
            proof {
                assert forall|j: int| 0 <= j < legals@.len() implies exists|k: int| 0 <= k < i + 1 && moves@[k] == #[trigger] legals@[j] by {
                    if j < before.len() {
                        assert(legals@[j] == before[j]);
                    } else {
                        assert(moves@[i as int] == legals@[j]);
                    }
                }
                assert forall|a: int, b: int| 0 <= a < legals@.len() && 0 <= b < legals@.len() && a != b implies legals@[a] != legals@[b] by {
                    if a < before.len() && b < before.len() {
                        assert(legals@[a] == before[a] && legals@[b] == before[b]);
                    } else if a < before.len() {
                        assert(legals@[a] == before[a]);
                    } else {
                        assert(legals@[b] == before[b]);
                    }
                }
                assert forall|k: int| 0 <= k < i + 1 && legal_move(*pos, #[trigger] moves@[k], *castling) implies legals@.contains(moves@[k]) by {
                    if k < i {
                        let j = choose|j: int| 0 <= j < before.len() && before[j] == moves@[k];
                        assert(legals@[j] == before[j]);
                    } else {
                        assert(legals@[before.len() as int] == moves@[k]);
                    }
                }
            }
        } else {
            proof {
                lemma_not_legal(*pos, mov, *castling, new.bb);
            }
        }
        i += 1;
    }
    proof {
        if owed_fit(*pos, *castling, true) {
            assert forall|m: Move| #[trigger] gen_move(*pos, *castling, m, true) && legal_move(*pos, m, *castling)
                implies legals@.contains(m) by {
                assert(moves@.contains(m));
                let k = choose|k: int| 0 <= k < moves@.len() && moves@[k] == m;
                assert(legal_move(*pos, moves@[k], *castling));
            }
        }
        assert forall|j: int| 0 <= j < legals@.len() implies legal_move(*pos, #[trigger] legals@[j], *castling)
            && gen_move(*pos, *castling, legals@[j], true) by {
            let k = choose|k: int| 0 <= k < n && moves@[k] == legals@[j];
        }
    }
    legals
}

/// `line` is a game: each position follows from the one before by a legal move.
pub open spec fn game_line(line: Seq<Position>, cs: Castling) -> bool {
    &&& line.len() >= 1
    &&& forall|k: int| 0 <= k < line.len() - 1 ==> #[trigger] step_ok(line[k], line[k + 1], cs)
}

/// `b` follows from `a` by a legal move.
pub open spec fn step_ok(a: Position, b: Position, cs: Castling) -> bool {
    exists|m: Move| #[trigger] legal_move(a, m, cs) && made(a, m, cs, b)
}

/// The side to move in `p` has no legal move among the moves the rules give it (when they fit
/// the generator's list).
pub open spec fn no_legal_move(p: Position, cs: Castling) -> bool {
    owed_fit(p, cs, true) ==> forall|m: Move| #[trigger] gen_move(p, cs, m, true) ==> !legal_move(p, m, cs)
}

/// Twice White's result when a search of `p` scored `score` (for the side to move) beyond the
/// adjudication bound: 2 when the score favours White, 0 when it favours Black.
pub open spec fn adjudged(p: Position, score: int) -> u8 {
    if (score > 0) == (stm_of(p) == 0) { 2 } else { 0 }
}

/// The result a search score adjudicates for the side `stm` to move: twice White's result
/// when the score passes the adjudication bound either way, none while the game goes on.
pub fn adjudicate(score: i32, stm: usize) -> (r: Option<u8>)
    ensures
        r == if score > ADJ_WIN_SCORE || score < -ADJ_WIN_SCORE {
            Some(if (score > 0) == (stm == 0) { 2u8 } else { 0u8 })
        } else {
            None::<u8>
        },
{
    if score > ADJ_WIN_SCORE || score < -ADJ_WIN_SCORE {
        let white_wins = (score > 0) == (stm == 0);
        Some(if white_wins { 2 } else { 0 })
    } else {
        None
    }
}

/// Twice White's result when the side to move in `p` has no legal move: 0 when White is
/// mated, 2 when Black is mated, 1 on stalemate.
pub open spec fn mate_result(p: Position) -> u8 {
    if king_attacked(p, stm_of(p)) {
        if stm_of(p) == 0 { 0 } else { 2 }
    } else {
        1
    }
}

/// An adjudicated result goes to the side the score favours: White wins (2) when White is to
/// move with a positive score or Black with a negative one, and loses (0) in the other cases.
pub proof fn lemma_adjudged_favours(p: Position, s: int)
    requires
        s != 0,
    ensures
        (adjudged(p, s) == 2) == ((stm_of(p) == 0 && s > 0) || (stm_of(p) == 1 && s < 0)),
        (adjudged(p, s) == 0) == ((stm_of(p) == 0 && s < 0) || (stm_of(p) == 1 && s > 0)),
{
}

/// A game without legal moves is lost by the side to move when its king is attacked (White
/// scores 0 when White is mated, 2 when Black is), and drawn (1) when it is not.
pub proof fn lemma_mate_result_meaning(p: Position)
    ensures
        (mate_result(p) == 0) == (stm_of(p) == 0 && king_attacked(p, 0)),
        (mate_result(p) == 2) == (stm_of(p) == 1 && king_attacked(p, 1)),
        (mate_result(p) == 1) == !king_attacked(p, stm_of(p)),
{
}

/// The score of the last depth a search reported, zero when none was reported.
pub open spec fn last_score(reports: Seq<DepthReport>) -> int {
    if reports.len() > 0 { reports.last().score as int } else { 0 }
}

/// How a game whose last position is `p`, reached along the path of hashes `path`, ends with
/// `result`, where `score` is what the search of `p` returned: adjudicated on that score when
/// it passes the bound (2 exactly when it favours White), mated or stalemated, or drawn by rule
/// or by a third occurrence.
pub open spec fn game_end(p: Position, cs: Castling, path: Seq<u64>, score: int, result: u8) -> bool {
    ||| (score > ADJ_WIN_SCORE || score < -ADJ_WIN_SCORE) && result == adjudged(p, score)
    ||| no_legal_move(p, cs) && result == mate_result(p)
    ||| (draw_rule(p) || (path.len() >= 6 && rep_count(path, p.full_hash(), p.halfm as int, path.len() as int) >= 2))
        && result == 1
}

/// A book line no game can start from: too long or not a position, or a position whose side
/// to move has no legal move.
pub open spec fn opening_dead(f: Seq<char>) -> bool {
    ||| f.len() > crate::fen::FEN_MAX_CHARS
    ||| !fen_ok(f)
    ||| forall|p: Position, c: Castling| #[trigger] fen_read(f, p, c) ==> stuck(p, c)
}

/// The lines of a book, if there is one.
pub open spec fn book_lines(book: Option<&Vec<String>>) -> Option<Seq<String>> {
    if book is Some {
        Some(book.unwrap()@)
    } else {
        None
    }
}

/// `g` records the game `line` under the castling configuration `cs`: it starts from the
/// starting position (or a line of `book`), each move is legal, it ends as `game_end` says
/// along the path `path` with `score` the last search's score, and each recorded position is
/// one of the game's.
pub open spec fn played(line: Seq<Position>, cs: Castling, book: Option<Seq<String>>, path: Seq<u64>, score: int, g: GameRecord) -> bool {
    &&& game_line(line, cs)
    &&& (book is None ==> fen_read(STARTPOS@, line[0], cs))
    &&& (book is Some ==> exists|i: int| 0 <= i < book.unwrap().len() && fen_read(book.unwrap()[i]@, line[0], cs))
    &&& game_end(line.last(), cs, path, score, g.result)
    &&& forall|k: int| 0 <= k < g.fens@.len() ==> exists|q: int| 0 <= q < line.len() && line[q].bb == (#[trigger] g.fens@[k]).0
        && g.fens@[k].1 == stm_of(line[q])
}

/// A returned game is recorded from some game that `played` describes.
pub open spec fn recorded(r: Option<GameRecord>, cs: Castling, book: Option<Seq<String>>, path: Seq<u64>, score: int) -> bool {
    r is Some ==> exists|line: Seq<Position>| #[trigger] played(line, cs, book, path, score, r.unwrap())
}

/// A game that `played` describes is recorded.
proof fn lemma_recorded(line: Seq<Position>, cs: Castling, book: Option<Seq<String>>, path: Seq<u64>, score: int, g: GameRecord)
    requires
        played(line, cs, book, path, score, g),
    ensures
        recorded(Some(g), cs, book, path, score),
{
    let r = Some(g);
    assert(r.unwrap() == g);
    assert(played(line, cs, book, path, score, r.unwrap()));
}

/// Plays a game for training data: from a randomly chosen line of `book` (the starting
/// position without a book), eight or nine random legal moves, then moves searched to
/// `nodes_per_move` nodes, until a score beyond the adjudication bound, a mate or stalemate,
/// or a draw by rule. Returns `None` when the book is empty, when the opening cannot be read
/// or set up, when the random moves run into a position without moves, or when a search
/// finishes without a move.
#[verifier::spinoff_prover]
#[verifier::rlimit(50)]
pub fn run_game(rng: &mut u64, eng: &mut ThreadData, book: Option<&Vec<String>>, nodes_per_move: u64) -> (r: Option<GameRecord>)
    requires
        old(eng).wf(),
        old(eng).ply == 0,
    ensures
        final(eng).wf(),
        final(eng).ply == 0,
        r matches Some(g) ==> g.result <= 2,
        (book matches Some(list) && list@.len() == 0) ==> r is None,
        (book matches Some(list) && forall|i: int| 0 <= i < list@.len() ==> #[trigger] opening_dead(list@[i]@)) ==> r is None,
        recorded(r, final(eng).castling, book_lines(book), final(eng).stack@, last_score(final(eng).reports@)),
{
    let mut castling = eng.castling;
    let read = match book {
        Some(list) => {
            if list.len() == 0 {
                return None;
            }
            let line = (next_random(rng) % (list.len() as u64)) as usize;
            let f = list[line].as_str();
            if f.unicode_len() > crate::fen::FEN_MAX_CHARS {
                return None;
            }
            let r = Position::from_fen(f, &mut castling);
            proof {
                if r is Some {
                    let p = r.unwrap();
                    assert(0 <= line < list@.len() && f@ == list@[line as int]@);
                    assert(book_lines(book).unwrap() == list@);
                    assert(fen_read(book_lines(book).unwrap()[line as int]@, p, castling));
                    if forall|i: int| 0 <= i < list@.len() ==> #[trigger] opening_dead(list@[i]@) {
                        assert(opening_dead(list@[line as int]@));
                        assert(fen_read(f@, p, castling));
                        assert(stuck(p, castling));
                    }
                }
            }
            r
        },
        None => {
            proof {
                reveal_strlit("rnbqkbnr/pppppppp/8/8/8/8/PPPPPPPP/RNBQKBNR w KQkq - 0 1");
            }
            Position::from_fen(STARTPOS, &mut castling)
        },
    };
    let mut pos = match read {
        Some(p) => p,
        None => {
            return None;
        },
    };
    let ghost start = pos;
    let ghost dead = book matches Some(list) && forall|i: int| 0 <= i < list@.len() ==> #[trigger] opening_dead(list@[i]@);
    assert(dead ==> stuck(start, castling));
    let ghost opening = (book is None ==> fen_read(STARTPOS@, start, castling))
        && (book_lines(book) is Some ==> exists|i: int| 0 <= i < book_lines(book).unwrap().len() && fen_read(book_lines(book).unwrap()[i]@, start, castling));
    assert(opening);
    eng.castling = castling;
    eng.max_nodes = HARD_NODE_LIMIT;
    eng.max_time = HARD_TIMEOUT_MS;
    eng.htable = HistoryTable::fresh();
    eng.stack = Vec::new();
    let ghost mut line: Seq<Position> = seq![pos];
    let random_moves = 8 + next_random(rng) % 2;
    let mut k: u64 = 0;
    while k < random_moves
        invariant
            eng.wf(),
            eng.ply == 0,
            pos.wf(),
            8 <= random_moves <= 9,
            eng.castling == castling,
            book matches Some(list) ==> list@.len() > 0,
            book is None ==> fen_read(STARTPOS@, start, castling),
            book_lines(book) is Some ==> exists|i: int| 0 <= i < book_lines(book).unwrap().len() && fen_read(book_lines(book).unwrap()[i]@, start, castling),
            game_line(line, castling),
            line[0] == start,
            line.last() == pos,
            dead ==> k == 0 && pos == start && stuck(start, castling),
        decreases random_moves - k,
    {
        if !pos.has_both_kings() || pos.halfm >= 255 {
            return None;
        }
        let legals = legal_moves(&pos, &eng.castling);
        if legals.len() == 0 {
            return None;
        }
        assert(!dead) by {
            if dead {
                assert(legal_move(pos, legals@[0], eng.castling));
            }
        }
        eng.stack.push(pos.hash());
        let pick = (next_random(rng) % (legals.len() as u64)) as usize;
        let ghost before = pos;
        let mv = legals[pick];
        assert(legal_move(before, mv, castling));
        pos.make(mv, &eng.castling);
        proof {
            assert(made(before, mv, castling, pos));
            lemma_extend_line(line, castling, mv, pos);
            line = line.push(pos);
        }
        k += 1;
    }
    assert(!dead);
    let mut fens: Vec<([u64; 8], usize, i16)> = Vec::new();
    let mut plies: usize = 0;
    while plies < MAX_GAME_PLIES
        invariant
            eng.wf(),
            eng.ply == 0,
            pos.wf(),
            eng.castling == castling,
            book matches Some(list) ==> list@.len() > 0,
            book is None ==> fen_read(STARTPOS@, start, castling),
            book_lines(book) is Some ==> exists|i: int| 0 <= i < book_lines(book).unwrap().len() && fen_read(book_lines(book).unwrap()[i]@, start, castling),
            game_line(line, castling),
            line[0] == start,
            line.last() == pos,
            !dead,
            dead == (book matches Some(list) && forall|i: int| 0 <= i < list@.len() ==> #[trigger] opening_dead(list@[i]@)),
            forall|k: int| 0 <= k < fens@.len() ==> exists|q: int| 0 <= q < line.len() && line[q].bb == (#[trigger] fens@[k]).0
                && fens@[k].1 == stm_of(line[q]),
        decreases MAX_GAME_PLIES - plies,
    {
        if !pos.has_both_kings() || pos.halfm >= 255 {
            return None;
        }
        let (bm, score) = go(&pos, eng, 32, 1000, nodes_per_move);
        eng.tt.age_up();
        let stm = pos.stm();
        if let Some(result) = adjudicate(score, stm) {
            let g = GameRecord { fens, result };
            proof {
                assert(g.result == adjudged(pos, score as int));
                assert(last_score(eng.reports@) == score as int);
                assert(game_end(line.last(), castling, eng.stack@, last_score(eng.reports@), g.result));
                assert(game_line(line, castling));
                lemma_recorded(line, eng.castling, book_lines(book), eng.stack@, last_score(eng.reports@), g);
            }
            return Some(g);
        }
        if !bm.is_capture() && !pos.in_check() {
            let wscore = if stm == 1 { -score } else { score };
            let ghost before = fens@;
            fens.push((pos.bitboards(), stm, #[verifier::truncate] (wscore as i16)));
            proof {
                assert forall|k: int| 0 <= k < fens@.len() implies exists|q: int| 0 <= q < line.len() && line[q].bb == (#[trigger] fens@[k]).0
                    && fens@[k].1 == stm_of(line[q]) by {
                    if k < before.len() {
                        assert(fens@[k] == before[k]);
                    } else {
                        assert(line[line.len() - 1] == pos);
                    }
                }
            }
        }
        eng.stack.push(pos.hash());
        if bm == Move::null() {
            return None;
        }
        let legals = legal_moves(&pos, &eng.castling);
        let mut found = false;
        let mut i: usize = 0;
        while i < legals.len() && !found
            invariant
                i <= legals@.len(),
                forall|j: int| 0 <= j < legals@.len() ==> legal_move(pos, #[trigger] legals@[j], eng.castling),
                found ==> legal_move(pos, bm, eng.castling),
            decreases legals@.len() - i,
        {
            if legals[i] == bm {
                found = true;
            }
            i += 1;
        }
        if !found {
            return None;
        }
        let ghost before = pos;
        if pos.make(bm, &eng.castling) {
            return None;
        }
        proof {
            assert(made(before, bm, castling, pos));
            lemma_extend_line(line, castling, bm, pos);
            let old_line = line;
            line = line.push(pos);
            assert forall|k: int| 0 <= k < fens@.len() implies exists|q: int| 0 <= q < line.len() && line[q].bb == (#[trigger] fens@[k]).0
                && fens@[k].1 == stm_of(line[q]) by {
                assert(exists|q: int| 0 <= q < old_line.len() && old_line[q].bb == fens@[k].0 && fens@[k].1 == stm_of(old_line[q]));
                let q = choose|q: int| 0 <= q < old_line.len() && old_line[q].bb == fens@[k].0 && fens@[k].1 == stm_of(old_line[q]);
                assert(line[q] == old_line[q]);
            }
        }
        if pos.halfm < 255 && is_terminal(&pos, &eng.castling) {
            let stm = pos.stm();
            let result: u8 = if pos.in_check() {
                if stm == 0 { 0 } else { 2 }
            } else {
                1
            };
            let g = GameRecord { fens, result };
            proof {
                assert(result == mate_result(pos));
                assert(game_end(line.last(), castling, eng.stack@, last_score(eng.reports@), g.result));
                lemma_recorded(line, eng.castling, book_lines(book), eng.stack@, last_score(eng.reports@), g);
            }
            return Some(g);
        }
        if pos.draw() || eng.repetition(&pos, pos.hash(), true) {
            let g = GameRecord { fens, result: 1 };
            proof {
                assert(game_end(line.last(), castling, eng.stack@, last_score(eng.reports@), g.result));
                lemma_recorded(line, eng.castling, book_lines(book), eng.stack@, last_score(eng.reports@), g);
            }
            return Some(g);
        }
        plies += 1;
    }
    None
}

/// A game followed by a legal move is a game.
proof fn lemma_extend_line(line: Seq<Position>, cs: Castling, m: Move, next: Position)
    requires
        game_line(line, cs),
        legal_move(line.last(), m, cs),
        made(line.last(), m, cs, next),
    ensures
        game_line(line.push(next), cs),
{
    let l2 = line.push(next);
    assert forall|k: int| 0 <= k < l2.len() - 1 implies #[trigger] step_ok(l2[k], l2[k + 1], cs) by {
        if k < line.len() - 1 {
            assert(l2[k] == line[k] && l2[k + 1] == line[k + 1]);
        } else {
            assert(l2[k] == line.last() && l2[k + 1] == next);
            assert(legal_move(l2[k], m, cs) && made(l2[k], m, cs, l2[k + 1]));
        }
    }
}

} // verus!
