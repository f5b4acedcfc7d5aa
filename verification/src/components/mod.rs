//! The pieces of the playing screen: the difficulty picker, the game itself
//! and the solver board.
pub mod difficulty_selector;
pub mod game;
pub mod prob_solver;

pub use difficulty_selector::DifficultySelector;
pub use game::MinesweeperGame;
