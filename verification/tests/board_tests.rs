use minesweeper_solver::board::{Board, Cell, CellContent, CellState, RevealResult};

fn small_board() -> Board {
    Board::new(5, 5)
}

fn board_with_diagonal_mines() -> Board {
    let mut board = Board::new(5, 5);
    board.place_mine(4);
    board.place_mine(8);
    board.place_mine(12);
    board.place_mine(16);
    board.place_mine(20);
    board
}

#[test]
fn simple_board_vec_size() {
    assert_eq!(small_board().len(), 25)
}

#[test]
fn simple_board_index_and_coords_calculation() {
    let board = small_board();
    assert_eq!(board.get_index(0, 1), 5);
    assert_eq!(board.get_index(4, 0), 4);
    assert_eq!(board.get_coords(5), (0, 1));
    assert_eq!(board.get_coords(4), (4, 0));
}

#[test]
fn test_invalid_cell() {
    let board = small_board();
    assert_eq!(board.get_cell(7, 7), None);
    assert_eq!(board.get_cell(5, 5), None);
}

#[test]
fn test_valid_cell() {
    let board = small_board();
    assert_eq!(
        board.get_cell(4, 4),
        Some(&Cell {
            content: CellContent::Number(0),
            state: CellState::Hidden
        })
    );
}

#[test]
fn simple_board_get_neighbors() {
    let board = small_board();
    let mut neighbors = board.get_neighbors_indices(2, 2);
    neighbors.sort();
    assert_eq!(neighbors, vec![6, 7, 8, 11, 13, 16, 17, 18]);
}

#[test]
fn simple_board_get_neighbors_edge_corner() {
    let board = small_board();
    let mut neighbors = board.get_neighbors_indices(2, 0);
    neighbors.sort();
    assert_eq!(neighbors, vec![1, 3, 6, 7, 8]);

    let mut neighbors = board.get_neighbors_indices(0, 0);
    neighbors.sort();
    assert_eq!(neighbors, vec![1, 5, 6]);

    let mut neighbors = board.get_neighbors_indices(4, 4);
    neighbors.sort();
    assert_eq!(neighbors, vec![18, 19, 23]);
}

#[test]
fn board_test_mine_placement() {
    let mut board = Board::new(5, 5);
    board.place_mine(12);

    let (x, y) = board.get_coords(12);
    board.get_neighbors_indices(x, y).iter().for_each(|&idx| {
        assert_eq!(CellContent::Number(1), board.cell(idx).content);
    });

    board.place_mine(6);
    board.place_mine(8);
    board.place_mine(16);
    board.place_mine(18);

    assert_eq!(CellContent::Number(3), board.cell(7).content);
    assert_eq!(CellContent::Number(2), board.cell(2).content);
    assert_eq!(CellContent::Number(1), board.cell(1).content);
    assert_eq!(CellContent::Number(1), board.cell(19).content);
}

#[test]
fn board_test_double_placement_idempotency() {
    let mut board = Board::new(5, 5);
    board.place_mine(12);
    board.place_mine(12);

    let (x, y) = board.get_coords(12);
    board.get_neighbors_indices(x, y).iter().for_each(|&idx| {
        assert_eq!(CellContent::Number(1), board.cell(idx).content);
    });
}

#[test]
fn simple_board_click_multiple_cells() {
    let mut board = board_with_diagonal_mines();
    assert_eq!(board.click_cell(4), RevealResult::HitMine);
    assert_eq!(board.cell(4).state, CellState::Hidden);

    assert_eq!(board.click_cell(0), RevealResult::Opened);
    assert_eq!(board.click_cell(0), RevealResult::AlreadyRevealed);
    assert_eq!(board.click_cell(2), RevealResult::AlreadyRevealed);
    assert_eq!(board.cell(0).state, CellState::Revealed);
    assert_eq!(board.cell(2).state, CellState::Revealed);

    assert_eq!(board.click_cell(9), RevealResult::Opened);
    assert_eq!(board.cell(9).state, CellState::Revealed);
    assert_eq!(board.cell(14).state, CellState::Hidden);
}

#[test]
fn simple_board_flagging_and_unflagging() {
    let mut board = board_with_diagonal_mines();
    board.click_cell(0);
    assert_eq!(board.cell(12).state, CellState::Hidden);
    board.place_flag(12);
    assert_eq!(board.cell(12).state, CellState::Flagged);
    board.remove_flag(12);
    assert_eq!(board.cell(12).state, CellState::Hidden);
}

#[test]
fn simple_board_flag_blocks_click() {
    let mut board = board_with_diagonal_mines();
    board.place_flag(0);
    assert_eq!(board.click_cell(0), RevealResult::AlreadyFlagged);
    assert_eq!(board.cell(0).state, CellState::Flagged);
    board.place_flag(0);
    assert_eq!(board.cell(0).state, CellState::Flagged);
    board.click_cell(1);
    board.remove_flag(1);
    assert_eq!(board.cell(1).state, CellState::Revealed);
}

#[test]
fn simple_board_generate_mines() {
    let mut board = Board::new(6, 4);
    board.generate_mines(2, 1, 7);
    let start = board.get_index(2, 1);
    let mines: Vec<usize> = (0..24)
        .filter(|&i| board.cell(i).content == CellContent::Mine)
        .collect();
    assert_eq!(mines.len(), 7);
    assert!(!mines.contains(&start));
}

#[test]
fn simple_board_generate_mines_on_every_other_cell() {
    let mut board = Board::new(3, 3);
    board.generate_mines(1, 1, 9);
    let mines = (0..9)
        .filter(|&i| board.cell(i).content == CellContent::Mine)
        .count();
    assert_eq!(mines, 8);
    assert_eq!(board.cell(4).content, CellContent::Number(8));
}

#[test]
fn simple_board_text() {
    let mut board = Board::new(2, 2);
    board.place_mine(3);
    board.click_cell(0);
    board.place_flag(3);
    assert_eq!(board.to_string(), "1 ■ \n■ 🚩\n");
}

#[test]
fn simple_board_mines_are_shuffled() {
    let mut board = Board::new(10, 10);
    board.generate_mines(9, 9, 10);
    let mines: Vec<usize> = (0..100)
        .filter(|&i| board.cell(i).content == CellContent::Mine)
        .collect();
    assert_eq!(mines.len(), 10);
    assert_ne!(mines, (0..10).collect::<Vec<usize>>());
}
