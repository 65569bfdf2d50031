# neryba

The core of a chess engine, written in Verus: board representation, move
generation, making and unmaking moves, FEN and UCI notation, static
exchange evaluation, the tapered and network evaluations, and the search
(iterative deepening, alpha-beta with transposition table, quiescence,
null move, late-move reductions and pruning, reverse futility pruning,
singular extension, killers and history). The functions under `src/` carry
contracts that Verus proves; the few calls into the standard library that
vstd does not specify (`String::push`, two slice sorts, reading the
clock) stand behind small wrappers whose contracts are trusted.

## Layout

- `src/` — the verified library.
  - `bits`, `board`, `attacks`: bitboards, the mailbox board and its
    consistency (`Board::wf`), attacked squares.
  - `movegen`, `makemove`, `legal`, `pins`: pseudo-legal generation, make
    and unmake, legal moves (check and pin masks decide most moves without
    making them), perft.
  - `text`, `fen`, `fen_roundtrip`, `movetext`: FEN reading and writing,
    coordinate notation.
  - `material`, `see`, `eval`, `nnue`, `features`: draw by material, static
    exchange, tapered evaluation with mop-up, the network and its
    incrementally updated accumulator, threat features.
  - `ordering`, `tt`, `game`, `rng`, `zobrist`: move ordering and history,
    the transposition table and mate-score rebasing, playing move lists and
    deciding the end of a game, the generator, the hashing keys.
  - `protocol`: the arguments of the UCI `position` and `go` commands and
    scores in `info` form.
  - `search`: the searcher, its quiescence and alpha-beta, the root and
    iterative deepening with its deadlines.
- `tests/` — perft counts and behaviour on concrete positions.
- `app/` — the program: UCI loop, command line, reading the switches of the
  search from the environment and filling its late-move tables from their
  floating-point formulas, the time budget, self-play data generation.

## What is proved

Besides the contract of each function, the library states and proves:

- unmaking a move (or a null move) restores the board exactly
  (`lemma_unmake_undoes_make`, `Board::unmake`,
  `lemma_unmake_null_undoes_make_null`);
- a position written as FEN reads back as the same position
  (`lemma_fen_roundtrip`, `lemma_board_fen_roundtrip`); any sound board
  reads back with everything but its king squares unchanged, those taken
  from the board (`lemma_board_fen_roundtrip_any`);
- for a move other than a king move or an en-passant capture, the check and
  pin masks decide legality exactly as making the move would
  (`lemma_masks_decide`);
- updating the network accumulators piece by piece, or for a whole move,
  gives the accumulators computed from scratch (`lemma_add_piece_refresh`,
  `lemma_sub_piece_refresh`, `lemma_move_update_refresh`); the network
  scores a position and its colour-flipped mirror alike
  (`lemma_eval_colour_symmetric`);
- a table entry reads back as stored (`lemma_read_back` with
  `Tt::store`), mate scores rebased into and out of the table come back
  unchanged (`lemma_tt_rebase`), 16-bit score packing is undone by
  unpacking (`lemma_unpack_pack`);
- history with gravity stays within ±8192 (`lemma_bonus_keeps_range`);
- every search call gives back the board and the list of position keys as
  it found them; a search stops only on a stop it started with, a fault or
  its clock (deadline or node limit); in a call that ran to its end (no
  stop, or none possible), a node drawn by rule scores as a draw, a mated
  or stalemated node as such; iterative deepening returns a legal move
  exactly when there is one, and at depth 0 the first legal move with
  score 0 (`Searcher::alpha_beta`, `Searcher::quiescence`,
  `Searcher::iterate`).
