# xiangqi

A Xiangqi (Chinese chess) engine and game session, written in Verus: every function of
the library carries a contract that Verus proves.

## Layout

- `src/board.rs` — pieces, moves in ICCS, Zobrist hashing, making and taking back
  moves, attack, check and facing-kings detection.
- `src/fen.rs` — reading and writing positions in FEN, and the proof that a position
  written in FEN reads back unchanged.
- `src/movegen.rs` — pseudo-legal and legal move generation, perft.
- `src/eval.rs` — material and piece-square evaluation.
- `src/search.rs` — iterative-deepening alpha-beta search with a transposition table,
  killer and history ordering, null-move pruning, quiescence search and the difficulty
  levels.
- `src/notation.rs` — Chinese move notation.
- `src/openings.rs`, `src/puzzles.rs` — the opening book and the puzzle collection.
- `src/analysis.rs` — game review and instant move judgement.
- `src/session.rs` — the game session: playing, taking back, resigning, the engine's
  move, hints, puzzles; each user command's rules.
- `src/text.rs` — string helpers.
- `app/` — the desktop application (Tauri commands, serialisable views, the accuracy
  figure).
- `tests/` — the tests.
