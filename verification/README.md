# akimbo

A UCI chess engine whose core is verified with Verus.

`src/` is the library. Bitboards and attacks (`bits`, `attacks`), the position and its
incremental hashing (`position`, `zobrist`, `status`), FEN and Chess960 castling (`fen`,
`frc`), move generation (`movegen`, `moves`), static exchange evaluation (`see`), the
transposition, history and killer tables (`tables`), the NNUE network and its accumulator
cache (`network`, `evaluate`, `lanes`), the search (`thread`, `search`), the UCI helpers
(`uci`) and self-play game generation (`datagen`).

Among what is proved:

- the generator lists exactly the moves the rules give the side to move (kings are never
  captured), without repeats, whenever they fit its list of 252 entries;
- playing a move keeps the position consistent and its incremental hashes equal to the hashes
  computed from scratch;
- the accumulators kept up to date in the evaluation cache equal the ones computed from
  scratch, so the cached evaluation equals the evaluation from scratch;
- transposition table entries read back what was stored, mate scores included;
- reading a castling field turns Chess960 on exactly when it names a rook file by letter;
- every hashing key is nonzero, and updating an accumulator and then updating it with the
  added and removed features swapped gives it back;
- the search reports as its best move nothing, a legal move, or the hash move it started
  from (a legal move whenever a full-window iteration completed with a score above being
  mated and the generator lists a legal move), ages the table once per search, scores a
  mated or stalemated node of the principal variation as mate or draw, and a root search
  that completes over a position with a legal move leaves its score in the table;
- a generated game is a sequence of legal moves from its opening, and its result is the one
  its last position calls for: mate, stalemate, a draw rule, or an adjudicated score.

`app/` holds the command-line program: the UCI loop, benchmarking, loading a network file and
writing generated games in the `bulletformat` layout. `tests/` runs the library on concrete
positions, including perft counts.
