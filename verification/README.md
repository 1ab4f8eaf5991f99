# Knight random walk

A knight starts in the bottom-left corner of a square board and moves at
random, each legal move equally likely, until it lands on the top-right corner
(a win) or the bottom-right corner (a loss).

- `src/` is the library, verified with Verus: the knight's moves
  (`knight.rs`), walks and visit totals (`walk.rs`), the board and one game
  (`board.rs`), a series of games (`game.rs`), the move-by-move player used by
  the browser page (`wasm_game.rs`) and the exact figures behind the move
  statistics (`move_stats.rs`).
- `app/` is the command-line program: argument parsing, terminal drawing, and
  the floating-point figures (win probability, mean, median, standard
  deviation, heat colours).
- `tests/` runs the library with the real random number generator.
