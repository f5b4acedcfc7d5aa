use minesweeper_solver::components::difficulty_selector::Difficulty;
use minesweeper_solver::components::game::{CellDisplay, GameStatus};
use minesweeper_solver::components::prob_solver::{self, ProbabilitySolver, SolverStatus};
use minesweeper_solver::components::{DifficultySelector, MinesweeperGame};
use minesweeper_solver::game;
use minesweeper_solver::ms_board::CellContent;

#[test]
fn selector_starts_on_beginner() {
    let s = DifficultySelector::new();
    assert_eq!((s.rows(), s.cols(), s.mines()), (10, 10, 10));
    assert_eq!(s.difficulty(), Difficulty::Beginner);
    let d = DifficultySelector::default();
    assert_eq!((d.rows(), d.cols(), d.mines()), (10, 10, 10));
}

#[test]
fn selector_presets() {
    let mut s = DifficultySelector::new();
    s.select(Difficulty::Intermediate);
    assert_eq!((s.rows(), s.cols(), s.mines()), (16, 16, 40));
    s.select(Difficulty::Expert);
    assert_eq!((s.rows(), s.cols(), s.mines()), (16, 30, 99));
    s.select(Difficulty::Custom);
    assert_eq!((s.rows(), s.cols(), s.mines()), (16, 30, 99));
    s.select(Difficulty::Beginner);
    assert_eq!((s.rows(), s.cols(), s.mines()), (10, 10, 10));
}

#[test]
fn selector_custom_values_are_clamped() {
    let mut s = DifficultySelector::new();
    s.set_custom(50, 50, 50);
    assert_eq!((s.rows(), s.cols(), s.mines()), (10, 10, 10));
    s.select(Difficulty::Custom);
    s.set_custom(1, 500, 42);
    assert_eq!((s.rows(), s.cols(), s.mines()), (5, 100, 42));
    assert_eq!(s.difficulty(), Difficulty::Custom);
}

#[test]
fn first_click_is_never_a_mine() {
    for _ in 0..20 {
        let mut g = MinesweeperGame::new(4, 4, 15);
        g.handle_click(1, 2);
        assert_eq!(g.status(), GameStatus::Playing);
        g.check_win();
        assert_eq!(g.status(), GameStatus::Won);
    }
}

#[test]
fn hitting_a_mine_loses_and_shows_every_mine() {
    let mut g = MinesweeperGame::new(3, 3, 8);
    g.handle_click(0, 0);
    assert_eq!(g.status(), GameStatus::Playing);
    g.handle_click(2, 2);
    assert_eq!(g.status(), GameStatus::Lost);
    for y in 0..3 {
        for x in 0..3 {
            if (x, y) != (0, 0) {
                assert_eq!(g.get_cell_display(x, y), CellDisplay::Mine);
                assert_eq!(g.get_cell_char(x, y), '💣');
            }
        }
    }
    assert_eq!(g.get_cell_display(0, 0), CellDisplay::Number(3));
    assert_eq!(g.get_cell_char(0, 0), '3');
}

#[test]
fn a_finished_game_ignores_input() {
    let mut g = MinesweeperGame::new(3, 3, 8);
    g.handle_click(1, 1);
    g.handle_click(0, 0);
    assert_eq!(g.status(), GameStatus::Lost);
    g.toggle_flag(2, 2);
    g.handle_click(2, 1);
    assert_eq!(g.status(), GameStatus::Lost);
    assert_eq!(g.get_cell_display(2, 2), CellDisplay::Mine);
}

#[test]
fn flags_show_and_block_clicks() {
    let mut g = MinesweeperGame::new(5, 5, 3);
    g.toggle_flag(4, 4);
    assert_eq!(g.get_cell_display(4, 4), CellDisplay::Flag);
    assert_eq!(g.get_cell_char(4, 4), '🚩');
    g.handle_click(4, 4);
    assert_eq!(g.status(), GameStatus::Playing);
    assert_eq!(g.get_cell_display(4, 4), CellDisplay::Flag);
    g.toggle_flag(4, 4);
    assert_eq!(g.get_cell_display(4, 4), CellDisplay::Hidden);
    assert_eq!(g.get_cell_char(4, 4), '\u{200B}');
}

#[test]
fn reset_starts_a_new_board() {
    let mut g = MinesweeperGame::new(3, 3, 8);
    g.handle_click(0, 0);
    g.handle_click(1, 1);
    g.reset(6, 2, 3);
    assert_eq!(g.status(), GameStatus::Created);
    assert_eq!(g.board().get_width(), 6);
    assert_eq!(g.board().get_height(), 2);
    assert_eq!(g.board().get_mine_count(), 3);
    assert_eq!(g.get_cell_display(5, 1), CellDisplay::Hidden);
}

#[test]
fn an_empty_cell_shows_blank() {
    let mut g = MinesweeperGame::new(6, 6, 1);
    g.handle_click(0, 0);
    let first = g.get_cell_display(0, 0);
    assert!(first == CellDisplay::Empty || first == CellDisplay::Number(1));
    for y in 0..6 {
        for x in 0..6 {
            if g.get_cell_display(x, y) == CellDisplay::Empty {
                assert_eq!(g.get_cell_char(x, y), ' ');
            }
        }
    }
}

#[test]
fn plain_game_flow() {
    let mut g = game::MinesweeperGame::new(4, 4, 15);
    assert_eq!(g.get_dimensions(), (4, 4));
    assert_eq!(g.get_mine_count(), 15);
    assert_eq!(g.status(), game::GameStatus::Created);
    g.handle_click(3, 0);
    assert_eq!(g.status(), game::GameStatus::Playing);
    let shown = g.get_display_iter();
    assert_eq!(shown.len(), 16);
    assert_eq!(shown[3], game::CellDisplay::Number(3));
    assert_eq!(shown.iter().filter(|d| **d == game::CellDisplay::Hidden).count(), 15);
    g.check_win();
    assert_eq!(g.status(), game::GameStatus::Won);
    g.reset();
    assert_eq!(g.get_dimensions(), (10, 10));
    assert_eq!(g.get_mine_count(), 10);
    assert_eq!(g.status(), game::GameStatus::Created);
}

#[test]
fn plain_game_loses_on_a_mine() {
    let mut g = game::MinesweeperGame::new(2, 2, 3);
    g.handle_click(0, 0);
    g.toggle_flag(1, 0);
    assert_eq!(g.get_display_iter()[1], game::CellDisplay::Flag);
    g.handle_click(1, 1);
    assert_eq!(g.status(), game::GameStatus::Lost);
    let shown = g.get_display_iter();
    assert_eq!(shown[3], game::CellDisplay::Mine);
    assert_eq!(shown[1], game::CellDisplay::Mine);
}

#[test]
fn solver_board_shows_squares() {
    let mut s = ProbabilitySolver::new(3, 2, 1);
    assert_eq!(s.status(), SolverStatus::Created);
    assert_eq!(s.char_display_iter(), vec!['■'; 6]);
    s.toggle_flag(2, 1);
    let chars = s.char_display_iter();
    assert_eq!(chars[5], '🚩');
    assert_eq!(s.get_display_iter()[5], prob_solver::CellDisplay::Flag);
    s.handle_click(0, 0);
    s.check_win();
    assert_eq!(s.char_display_iter()[0], '■');
    assert_eq!(s.board().cell(0).content, CellContent::Number(0));
}
