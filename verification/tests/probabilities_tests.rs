use std::collections::HashMap;

use minesweeper_solver::ms_board::{Board, CellState};

fn build_board_with_mines(width: usize, height: usize, mine_indices: &[usize]) -> Board {
    let mut board = Board::new(width, height, 0);
    for &idx in mine_indices {
        board.place_mine(idx);
    }
    board
}

fn sorted(mut segments: Vec<Vec<usize>>) -> Vec<Vec<usize>> {
    segments.iter_mut().for_each(|segment| segment.sort());
    segments
}

#[test]
fn test_get_frontier_cells() {
    let mut board = build_board_with_mines(5, 5, &[4, 8, 12, 16, 20]);
    board.click_cell(0);
    let frontier_cells = board.get_frontier_cell_indices();
    assert_eq!(frontier_cells, vec![3, 8, 12, 13, 15, 16, 17]);
}

#[test]
fn test_get_frontier_segments() {
    let mut board = build_board_with_mines(5, 5, &[4, 8, 12, 16, 20]);
    board.click_cell(0);
    let frontier_cells = board.get_frontier_cell_indices();
    let frontier_segments = board.get_isolated_frontier_segments(&frontier_cells);
    assert_eq!(frontier_segments, [vec![3, 8, 12, 13, 15, 16, 17]]);

    board.click_cell(24);
    let frontier_cells = board.get_frontier_cell_indices();
    let frontier_segments = sorted(board.get_isolated_frontier_segments(&frontier_cells));
    assert_eq!(frontier_segments, [vec![3, 8, 9, 12, 15, 16, 21]]);
}

#[test]
fn test_get_frontier_multiple_segments() {
    let mut board = build_board_with_mines(10, 10, &[2, 3, 7, 20, 22, 27, 29, 30, 33]);
    board.click_cell(0);
    let mut frontier_cells = board.get_frontier_cell_indices();
    frontier_cells.sort();
    assert_eq!(frontier_cells, [2, 12, 20, 21, 22]);

    let frontier_segments = sorted(board.get_isolated_frontier_segments(&frontier_cells));
    assert_eq!(frontier_segments, [[2, 12, 20, 21, 22]]);

    board.click_cell(99);
    let mut frontier_cells = board.get_frontier_cell_indices();
    frontier_cells.sort();
    assert_eq!(
        frontier_cells,
        [2, 3, 7, 12, 13, 17, 20, 21, 22, 23, 27, 28, 29, 30, 31, 32, 33]
    );

    let frontier_segments = sorted(board.get_isolated_frontier_segments(&frontier_cells));
    assert_eq!(
        frontier_segments,
        [
            vec![2, 12, 20, 21, 22],
            vec![3, 13, 23, 30, 31, 32, 33],
            vec![7, 17, 27, 28, 29]
        ]
    );

    board.click_cell(32);
    let frontier_cells = board.get_frontier_cell_indices();
    let frontier_segments = sorted(board.get_isolated_frontier_segments(&frontier_cells));
    assert_eq!(
        frontier_segments,
        [
            vec![2, 3, 12, 13, 20, 21, 22, 23, 30, 31, 33],
            vec![7, 17, 27, 28, 29]
        ]
    );
}

#[test]
fn test_floating_cell_count() {
    let mut board = build_board_with_mines(5, 5, &[4, 8, 12, 16, 20]);
    board.click_cell(0);
    let floating_count = board.get_floating_count();
    assert_eq!(floating_count, 10);
}

#[test]
fn test_get_possible_orientations() {
    let mut board = build_board_with_mines(5, 5, &[4, 8, 12, 16, 20]);
    board.click_cell(0);
    let frontier_cells = board.get_frontier_cell_indices();
    let segments = board.get_isolated_frontier_segments(&frontier_cells);
    let orientations = board.get_possible_orientations(&segments[0]);
    assert_eq!(orientations.total_ways_per_mine_count, HashMap::from([(3, 4)]));
    assert_eq!(
        orientations.cell_mine_tallies_by_count,
        HashMap::from([(3, vec![2, 2, 4, 0, 2, 2, 0])])
    );
}

#[test]
fn test_get_possible_orientations_mult() {
    let mut board = build_board_with_mines(10, 10, &[2, 3, 7, 15, 20, 22, 27, 29, 30, 33]);

    board.click_cell(99);
    let frontier_cells = board.get_frontier_cell_indices();
    let segments = board.get_isolated_frontier_segments(&frontier_cells);
    let second_segment_orientations = board.get_possible_orientations(&segments[0]);

    assert_eq!(
        second_segment_orientations.total_ways_per_mine_count,
        HashMap::from([(6, 2), (5, 1)])
    );

    assert_eq!(
        second_segment_orientations.cell_mine_tallies_by_count,
        HashMap::from([
            (6, vec![1, 0, 2, 1, 0, 0, 0, 1, 1, 2, 2, 0, 2]),
            (5, vec![0, 0, 1, 0, 1, 0, 0, 0, 0, 1, 1, 0, 1])
        ])
    );
}

#[test]
fn test_probability_calculation() {
    let mut board = build_board_with_mines(10, 10, &[2, 3, 7, 15, 20, 22, 27, 29, 30, 33]);
    board.click_cell(0);
    board.click_cell(99);
    let frontier_cells = board.get_frontier_cell_indices();
    let segments = board.get_isolated_frontier_segments(&frontier_cells);
    for segment in &segments {
        let result = board.get_possible_orientations(segment);
        assert_eq!(&result.cell_indices, segment);
    }
    let floating = board.get_floating_indices();
    assert_eq!(floating.len(), board.get_floating_count());
    assert_eq!(board.get_mines_remaining(), 0);
}

#[test]
fn orientations_of_a_lone_clue() {
    // One revealed 1 in the corner of a 2 by 2 board: each of its three
    // neighbors may hold the mine.
    let mut board = build_board_with_mines(2, 2, &[3]);
    board.click_cell(0);
    let frontier_cells = board.get_frontier_cell_indices();
    assert_eq!(frontier_cells, vec![1, 2, 3]);
    let segments = board.get_isolated_frontier_segments(&frontier_cells);
    assert_eq!(segments, vec![vec![1, 2, 3]]);
    let result = board.get_possible_orientations(&segments[0]);
    assert_eq!(result.total_ways_per_mine_count, HashMap::from([(1, 3)]));
    assert_eq!(result.cell_mine_tallies_by_count, HashMap::from([(1, vec![1, 1, 1])]));
}

#[test]
fn tallies_add_up_to_mines_times_ways() {
    let mut board = build_board_with_mines(10, 10, &[2, 3, 7, 15, 20, 22, 27, 29, 30, 33]);
    board.click_cell(99);
    let frontier_cells = board.get_frontier_cell_indices();
    for segment in board.get_isolated_frontier_segments(&frontier_cells) {
        let result = board.get_possible_orientations(&segment);
        for (k, ways) in &result.total_ways_per_mine_count {
            let tallies = &result.cell_mine_tallies_by_count[k];
            assert_eq!(tallies.iter().sum::<usize>(), k * ways);
            assert!(tallies.iter().all(|t| t <= ways));
        }
    }
}

#[test]
fn mines_remaining_counts_flags_and_stops_at_zero() {
    let mut board = Board::new(4, 4, 2);
    assert_eq!(board.get_mines_remaining(), 2);
    board.toggle_flag(0);
    assert_eq!(board.get_mines_remaining(), 1);
    board.toggle_flag(1);
    board.toggle_flag(2);
    assert_eq!(board.get_mines_remaining(), 0);
}

#[test]
fn floating_and_covered_cells() {
    let mut board = build_board_with_mines(5, 5, &[4, 8, 12, 16, 20]);
    assert_eq!(board.get_floating_count(), 25);
    board.click_cell(0);
    let covered = board.get_covered_indices();
    for &i in &covered {
        assert_ne!(board.cell(i).state, CellState::Revealed);
    }
    let floating = board.get_floating_indices();
    for &i in &floating {
        assert!(board.is_floating_cell(i));
        assert!(!board.is_touching_revealed_number(i));
    }
    assert_eq!(floating.len(), 10);
}

#[test]
fn adjacent_clues_and_links() {
    let mut board = build_board_with_mines(5, 5, &[4, 8, 12, 16, 20]);
    board.click_cell(0);
    let mut clues = board.get_adjacent_revealed_numbers(3);
    clues.sort();
    assert_eq!(clues, vec![2, 7]);
    let frontier_cells = board.get_frontier_cell_indices();
    let mut linked = board.get_connected_frontier_cells(3, &frontier_cells);
    linked.sort();
    linked.dedup();
    assert_eq!(linked, vec![8, 12, 13]);
}

#[test]
fn counting_checks_and_matches() {
    let mut board = build_board_with_mines(5, 5, &[4, 8, 12, 16, 20]);
    board.click_cell(0);
    let frontier_cells = board.get_frontier_cell_indices();
    let segments = board.get_isolated_frontier_segments(&frontier_cells);
    let checked = board.count_orientations(&segments[0]).unwrap();
    assert_eq!(checked, board.get_possible_orientations(&segments[0]));
}

#[test]
fn a_long_segment_is_counted() {
    // A row of 70 hidden cells above a row of revealed zeros and ones: one
    // segment of 70 cells whose layouts are few, since each clue pins them.
    let mut board = Board::new(70, 3, 0);
    for x in (0..70).step_by(3) {
        board.place_mine(x);
    }
    board.click_cell(2 * 70);
    let frontier_cells = board.get_frontier_cell_indices();
    let segments = board.get_isolated_frontier_segments(&frontier_cells);
    assert_eq!(segments.len(), 1);
    assert_eq!(segments[0].len(), 70);
    let result = board.get_possible_orientations(&segments[0]);
    assert_eq!(result.total_ways_per_mine_count, HashMap::from([(24, 1)]));
}
