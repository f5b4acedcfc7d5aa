# minesweeper_solver

Minesweeper boards, the rules of play, and the exact counting behind a
probability solver, verified with Verus; around them, a desktop program
(`app/`) built on eframe/egui.

## Layout

- `src/grid.rs` — coordinates and neighbors on a rectangular grid.
- `src/ms_board/` — the board (`mod.rs`), opening regions and laying mines
  (`field.rs`, `generation.rs`), clicks, chords and flags (`gameplay.rs`),
  frontier segments and layout counting (`probabilities.rs`), and properties
  that span several operations (`laws.rs`).
- `src/board.rs` — a simpler board whose mine count is given when the mines
  are laid.
- `src/game.rs`, `src/tui.rs`, `src/components/` — games on top of the board:
  status, first-click mine laying, winning and losing, text commands, the
  difficulty picker and what each cell shows.
- `app/` — the window, the terminal loop, and the floating-point weighing of
  the counted layouts into probabilities.
- `tests/` — tests of the library.

Every function in `src/` carries a contract that Verus proves. The only
trusted items are the calls into `rand` that shuffle the cells on which
mines are laid.
