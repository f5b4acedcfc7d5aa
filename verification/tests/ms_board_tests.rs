use minesweeper_solver::ms_board::gameplay::RevealResult;
use minesweeper_solver::ms_board::{Board, CellContent, CellState};

fn small_board() -> Board {
    Board::new(5, 5, 0)
}

fn board_with_diagonal_mines() -> Board {
    let mut board = Board::new(5, 5, 0);
    for mine_idx in [4, 8, 12, 16, 20] {
        board.place_mine(mine_idx);
    }
    board
}

#[test]
fn test_board_vec_size() {
    let board = small_board();
    assert_eq!(board.cell_iter().len(), 25);
}

#[test]
fn test_index_and_coords_calculation() {
    let board = small_board();
    assert_eq!(board.get_index(0, 1), 5);
    assert_eq!(board.get_index(4, 0), 4);
    assert_eq!(board.get_coords(5), (0, 1));
    assert_eq!(board.get_coords(4), (4, 0));
}

#[test]
fn test_get_neighbors() {
    let board = small_board();
    let mut neighbors = board.get_neighbors_indices(12);
    neighbors.sort();
    assert_eq!(neighbors, vec![6, 7, 8, 11, 13, 16, 17, 18]);
}

#[test]
fn test_get_neighbors_edge_corner() {
    let board = small_board();
    let mut neighbors = board.get_neighbors_indices(2);
    neighbors.sort();
    assert_eq!(neighbors, vec![1, 3, 6, 7, 8]);

    let mut neighbors = board.get_neighbors_indices(0);
    neighbors.sort();
    assert_eq!(neighbors, vec![1, 5, 6]);

    let mut neighbors = board.get_neighbors_indices(24);
    neighbors.sort();
    assert_eq!(neighbors, vec![18, 19, 23]);
}

#[test]
fn neighbors_come_column_by_column() {
    let board = small_board();
    assert_eq!(board.get_neighbors_indices(12), vec![6, 11, 16, 7, 17, 8, 13, 18]);
}

#[test]
fn generation_test_mine_placement() {
    let mut board = Board::new(5, 5, 0);
    board.place_mine(12);

    board.get_neighbors_indices(12).iter().for_each(|&idx| {
        assert_eq!(CellContent::Number(1), board.cell(idx).content);
    });

    board.place_mine(6);
    board.place_mine(8);
    board.place_mine(16);
    board.place_mine(18);

    assert_eq!(CellContent::Number(3), board.cell(7).content);
    assert_eq!(CellContent::Number(2), board.cell(2).content);
    assert_eq!(CellContent::Number(1), board.cell(1).content);
    assert_eq!(CellContent::Number(1), board.cell(19).content);
}

#[test]
fn generation_test_double_placement_idempotency() {
    let mut board = Board::new(5, 5, 0);
    board.place_mine(12);
    board.place_mine(12);

    board.get_neighbors_indices(12).iter().for_each(|&idx| {
        assert_eq!(CellContent::Number(1), board.cell(idx).content);
    });
}

#[test]
fn mine_order_does_not_matter() {
    let mut a = Board::new(4, 3, 0);
    let mut b = Board::new(4, 3, 0);
    for idx in [0, 5, 11] {
        a.place_mine(idx);
    }
    for idx in [11, 0, 5] {
        b.place_mine(idx);
    }
    assert_eq!(a.cell_iter(), b.cell_iter());
}

#[test]
fn place_mines_takes_as_many_as_planned() {
    let mut board = Board::new(4, 4, 3);
    board.place_mines(&vec![15, 0, 5, 10, 3]);
    let mines: Vec<usize> = (0..16)
        .filter(|&i| board.cell(i).content == CellContent::Mine)
        .collect();
    assert_eq!(mines, vec![0, 5, 15]);
}

#[test]
fn generated_mines_avoid_the_start_cell() {
    for start in [0usize, 7, 24] {
        let mut board = Board::new(5, 5, 24);
        board.generate_mines(start);
        let mines: Vec<usize> = (0..25)
            .filter(|&i| board.cell(i).content == CellContent::Mine)
            .collect();
        assert_eq!(mines.len(), 24);
        assert!(!mines.contains(&start));
        let around = board.get_neighbors_indices(start).len() as u8;
        assert_eq!(board.cell(start).content, CellContent::Number(around));
    }
}

#[test]
fn generated_mines_count_and_numbers() {
    let mut board = Board::new(8, 6, 10);
    board.generate_mines(20);
    let mines = (0..48)
        .filter(|&i| board.cell(i).content == CellContent::Mine)
        .count();
    assert_eq!(mines, 10);
    assert_ne!(board.cell(20).content, CellContent::Mine);
    for i in 0..48 {
        if let CellContent::Number(n) = board.cell(i).content {
            let around = board
                .get_neighbors_indices(i)
                .iter()
                .filter(|&&j| board.cell(j).content == CellContent::Mine)
                .count();
            assert_eq!(n as usize, around);
        }
        assert_eq!(board.cell(i).state, CellState::Hidden);
    }
}

#[test]
fn test_click_multiple_cells() {
    let mut board = board_with_diagonal_mines();
    assert_eq!(board.click_cell(4), RevealResult::HitMine);
    assert_eq!(board.cell(4).state, CellState::Hidden);

    assert_eq!(board.click_cell(0), RevealResult::Opened);
    assert_eq!(board.click_cell(0), RevealResult::NoOp);
    assert_eq!(board.click_cell(2), RevealResult::NoOp);
    assert_eq!(board.cell(0).state, CellState::Revealed);
    assert_eq!(board.cell(2).state, CellState::Revealed);

    assert_eq!(board.click_cell(9), RevealResult::Opened);
    assert_eq!(board.cell(9).state, CellState::Revealed);
    assert_eq!(board.cell(14).state, CellState::Hidden);
}

#[test]
fn test_flagging_and_unflagging() {
    let mut board = board_with_diagonal_mines();
    board.click_cell(0);
    assert_eq!(board.cell(12).state, CellState::Hidden);
    board.toggle_flag(12);
    assert_eq!(board.cell(12).state, CellState::Flagged);
    board.toggle_flag(12);
    assert_eq!(board.cell(12).state, CellState::Hidden);
}

#[test]
fn toggling_a_revealed_cell_does_nothing() {
    let mut board = board_with_diagonal_mines();
    board.click_cell(0);
    let before = board.cell_iter();
    board.toggle_flag(0);
    assert_eq!(board.cell_iter(), before);
}

#[test]
fn clicking_a_flag_does_nothing() {
    let mut board = board_with_diagonal_mines();
    board.toggle_flag(0);
    assert_eq!(board.click_cell(0), RevealResult::NoOp);
    assert_eq!(board.cell(0).state, CellState::Flagged);
}

#[test]
fn test_chord_cell_fails() {
    let mut board = board_with_diagonal_mines();
    assert_eq!(board.chord_cell(7), RevealResult::NoOp);
    board.click_cell(7);
    assert_eq!(board.chord_cell(7), RevealResult::NoOp);

    board.toggle_flag(8);
    assert_eq!(board.chord_cell(7), RevealResult::NoOp);

    board.toggle_flag(2);
    board.toggle_flag(3);
    assert_eq!(board.chord_cell(7), RevealResult::NoOp);

    board.toggle_flag(3);
    assert_eq!(board.chord_cell(7), RevealResult::HitMine);
}

#[test]
fn test_chord_cell_success() {
    let mut board = board_with_diagonal_mines();
    board.click_cell(7);
    board.toggle_flag(8);
    board.toggle_flag(12);
    assert_eq!(board.chord_cell(7), RevealResult::Chorded);
    assert_eq!(board.cell(0).state, CellState::Revealed);
    assert_eq!(board.cell(3).state, CellState::Revealed);
    assert_eq!(board.cell(13).state, CellState::Revealed);
    assert_eq!(board.cell(24).state, CellState::Hidden);
}

#[test]
fn clicking_a_revealed_number_chords() {
    let mut board = board_with_diagonal_mines();
    board.click_cell(7);
    board.toggle_flag(8);
    board.toggle_flag(12);
    assert_eq!(board.click_cell(7), RevealResult::Chorded);
    assert_eq!(board.cell(0).state, CellState::Revealed);
}

#[test]
fn win_needs_every_safe_cell() {
    let mut board = Board::new(2, 2, 1);
    board.place_mine(3);
    assert!(!board.is_win_condition_met());
    board.click_cell(0);
    board.click_cell(1);
    assert!(!board.is_win_condition_met());
    board.click_cell(2);
    assert!(board.is_win_condition_met());
}

#[test]
fn reveal_all_mines_shows_only_mines() {
    let mut board = board_with_diagonal_mines();
    board.reveal_all_mines();
    for i in 0..25 {
        let c = board.cell(i);
        if c.content == CellContent::Mine {
            assert_eq!(c.state, CellState::Revealed);
        } else {
            assert_eq!(c.state, CellState::Hidden);
        }
    }
}

#[test]
fn board_as_text() {
    let mut board = Board::new(3, 2, 0);
    board.place_mine(0);
    board.click_cell(5);
    board.toggle_flag(0);
    assert_eq!(board.to_string(), "🚩1 0 \n■ 1 0 \n");
}

#[test]
fn cell_at_reads_column_and_row() {
    let mut board = Board::new(4, 3, 0);
    board.place_mine(6);
    assert_eq!(board.cell_at(2, 1), (CellContent::Mine, CellState::Hidden));
    assert_eq!(board.cell_at(1, 1), (CellContent::Number(1), CellState::Hidden));
    assert_eq!(board.get_width(), 4);
    assert_eq!(board.get_height(), 3);
    assert_eq!(board.get_mine_count(), 0);
}

#[test]
fn generated_mines_are_shuffled() {
    let mut board = Board::new(10, 10, 10);
    board.generate_mines(99);
    let mines: Vec<usize> = (0..100)
        .filter(|&i| board.cell(i).content == CellContent::Mine)
        .collect();
    assert_eq!(mines.len(), 10);
    assert_ne!(mines, (0..10).collect::<Vec<usize>>());
}

#[test]
fn a_flagged_safe_cell_does_not_block_a_win() {
    let mut board = Board::new(2, 2, 1);
    board.place_mine(3);
    board.click_cell(0);
    board.click_cell(1);
    board.toggle_flag(2);
    assert!(board.is_win_condition_met());
    board.toggle_flag(2);
    assert!(!board.is_win_condition_met());
}
