use minesweeper_solver::ms_board::gameplay::RevealResult;
use minesweeper_solver::ms_board::{Board, CellContent, CellState};

#[test]
fn toggling_twice_restores_the_board() {
    let mut board = Board::new(3, 3, 0);
    board.place_mine(4);
    let before = board.cell_iter();
    board.toggle_flag(2);
    board.toggle_flag(2);
    assert_eq!(board.cell_iter(), before);
}

#[test]
fn a_click_never_changes_a_mine() {
    let mut board = Board::new(5, 5, 0);
    for idx in [4, 8, 12, 16, 20] {
        board.place_mine(idx);
    }
    board.click_cell(0);
    board.click_cell(24);
    for idx in [4, 8, 12, 16, 20] {
        assert_eq!(board.cell(idx).content, CellContent::Mine);
        assert_eq!(board.cell(idx).state, CellState::Hidden);
    }
}

#[test]
fn an_opening_reaches_every_neighbor_of_an_empty_cell() {
    let mut board = Board::new(6, 6, 0);
    board.place_mine(35);
    assert_eq!(board.click_cell(0), RevealResult::Opened);
    for i in 0..36 {
        let c = board.cell(i);
        if c.state == CellState::Revealed && c.content == CellContent::Number(0) {
            for j in board.get_neighbors_indices(i) {
                assert_eq!(board.cell(j).state, CellState::Revealed);
            }
        }
    }
    assert_eq!(board.cell(35).state, CellState::Hidden);
}

#[test]
fn a_floating_cell_is_not_on_the_frontier() {
    let mut board = Board::new(6, 6, 0);
    board.place_mine(14);
    board.click_cell(0);
    let frontier = board.get_frontier_cell_indices();
    for i in board.get_floating_indices() {
        assert!(!frontier.contains(&i));
    }
}
