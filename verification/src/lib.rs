//! Minesweeper boards, game rules and the counting behind a probability solver.
use vstd::prelude::*;

pub mod board;
pub mod components;
pub mod game;
pub mod grid;
pub mod ms_board;
pub mod tui;

verus! {


} // verus!
