//! A game of minesweeper on a board: mines are laid on the first click, a
//! mine that is hit loses the game, and leaving no safe cell hidden wins it.
use vstd::prelude::*;

use crate::ms_board::gameplay::{no_safe_cell_hidden, click_outcome, flag_toggled, mines_revealed, with_cells, RevealResult};
use crate::ms_board::generation::mines_generated;
use crate::ms_board::{fresh_cell, Board, BoardModel, Cell, CellContent, CellState};

verus! {

/// Where a game stands.
#[derive(Debug, Clone, Copy, PartialEq, Eq, Structural)]
pub enum GameStatus {
    Created,
    Playing,
    Won,
    Lost,
}

/// What a cell shows to the player.
#[derive(Debug, Clone, Copy, PartialEq, Eq, Structural)]
pub enum CellDisplay {
    Number(u8),
    Mine,
    Flag,
    Hidden,
    Empty,
}

/// How a cell is shown: hidden, flagged, or, once revealed, its mine, its
/// number, or nothing for a cell with no mine around it.
pub open spec fn display_of(c: Cell) -> CellDisplay {
    match c.state {
        CellState::Hidden => CellDisplay::Hidden,
        CellState::Flagged => CellDisplay::Flag,
        CellState::Revealed => match c.content {
            CellContent::Mine => CellDisplay::Mine,
            CellContent::Number(n) => if n == 0 {
                CellDisplay::Empty
            } else {
                CellDisplay::Number(n)
            },
        },
    }
}

/// A new board: every cell hidden and without mines.
pub open spec fn new_board(width: nat, height: nat, mines: nat) -> BoardModel {
    BoardModel { width, height, mines, cells: Seq::new(width * height, |j: int| fresh_cell()) }
}

/// The abstract value of a game.
pub struct GameModel {
    pub board: BoardModel,
    pub status: GameStatus,
}

/// The game after a click on cell `idx` of board `b` in status `st`: hitting a
/// mine loses the game and shows every mine.
pub open spec fn click_from(b: BoardModel, st: GameStatus, idx: int) -> GameModel {
    let (r, cells) = click_outcome(b, idx);
    if r == RevealResult::HitMine {
        GameModel { board: with_cells(b, mines_revealed(cells)), status: GameStatus::Lost }
    } else {
        GameModel { board: with_cells(b, cells), status: st }
    }
}

/// The status after a check for a win.
pub open spec fn status_after_check(b: BoardModel, st: GameStatus) -> GameStatus {
    if st == GameStatus::Playing && no_safe_cell_hidden(b) {
        GameStatus::Won
    } else {
        st
    }
}

pub struct MinesweeperGame {
    board: Board,
    status: GameStatus,
}

impl View for MinesweeperGame {
    type V = GameModel;

    closed spec fn view(&self) -> GameModel {
        GameModel { board: self.board@, status: self.status }
    }
}

impl MinesweeperGame {
    /// A game that has not started, on a new board.
    pub fn new(width: usize, height: usize, mines: usize) -> (g: Self)
        requires
            width > 0,
            height > 0,
            width * height <= usize::MAX,
            mines < width * height,
        ensures
            g@.board.wf(),
            g@.board == new_board(width as nat, height as nat, mines as nat),
            g@.status == GameStatus::Created,
    {
        let g = Self { board: Board::new(width, height, mines), status: GameStatus::Created };
        proof {
            assert(g@.board.cells =~= new_board(width as nat, height as nat, mines as nat).cells);
        }
        g
    }

    /// The width and height of the board.
    pub fn get_dimensions(&self) -> (r: (usize, usize))
        ensures
            r == (self@.board.width as usize, self@.board.height as usize),
    {
        (self.board.get_width(), self.board.get_height())
    }

    pub fn get_mine_count(&self) -> (r: usize)
        ensures
            r == self@.board.mines,
    {
        self.board.get_mine_count()
    }

    /// What each cell shows, in index order.
    pub fn get_display_iter(&self) -> (r: Vec<CellDisplay>)
        ensures
            r@.len() == self@.board.len(),
            forall|k: int| 0 <= k < r@.len() ==> #[trigger] r@[k] == display_of(self@.board.cells[k]),
    {
        let cells = self.board.cell_iter();
        let mut r: Vec<CellDisplay> = Vec::with_capacity(cells.len());
        let mut i: usize = 0;
        while i < cells.len()
            invariant
                cells@.len() == self@.board.len(),
                forall|k: int| 0 <= k < cells@.len() ==> #[trigger] cells@[k] == (self@.board.cells[k].content, self@.board.cells[k].state),
                i <= cells@.len(),
                r@.len() == i,
                forall|k: int| 0 <= k < i ==> #[trigger] r@[k] == display_of(self@.board.cells[k]),
            decreases cells@.len() - i,
        {
            let (content, state) = cells[i];
            let d = match state {
                CellState::Hidden => CellDisplay::Hidden,
                CellState::Flagged => CellDisplay::Flag,
                CellState::Revealed => match content {
                    CellContent::Mine => CellDisplay::Mine,
                    CellContent::Number(0) => CellDisplay::Empty,
                    CellContent::Number(num) => CellDisplay::Number(num),
                },
            };
            r.push(d);
            i = i + 1;
        }
        r
    }

    /// Handles a click on column `x`, row `y`. The first click lays the
    /// mines away from the clicked cell; a mine hit loses the game and shows
    /// every mine.
    ///
    /// The cell must lie on the board.
    pub fn handle_click(&mut self, x: usize, y: usize)
        requires
            old(self)@.board.wf(),
            y * old(self)@.board.width + x < old(self)@.board.len(),
        ensures
            final(self)@.board.wf(),
            ({
                let idx = y * old(self)@.board.width + x;
                if old(self)@.status == GameStatus::Created {
                    exists|b1: BoardModel|
                        mines_generated(old(self)@.board, b1, idx) && final(self)@ == #[trigger] click_from(
                            b1,
                            GameStatus::Playing,
                            idx,
                        )
                } else {
                    final(self)@ == click_from(old(self)@.board, old(self)@.status, idx)
                }
            }),
    {
        let idx = self.board.get_index(x, y);
        if self.status == GameStatus::Created {
            self.board.generate_mines(idx);
            self.status = GameStatus::Playing;
        }
        let ghost b1 = self.board@;
        let ghost st1 = self.status;
        if self.board.click_cell(idx) == RevealResult::HitMine {
            self.status = GameStatus::Lost;
            self.board.reveal_all_mines();
        }
        proof {
            assert(self@ == click_from(b1, st1, idx as int));
        }
    }

    /// Toggles the flag on the cell in column `x`, row `y`.
    pub fn toggle_flag(&mut self, x: usize, y: usize)
        requires
            old(self)@.board.wf(),
            y * old(self)@.board.width + x < old(self)@.board.len(),
        ensures
            final(self)@.board.wf(),
            final(self)@.board == flag_toggled(old(self)@.board, y * old(self)@.board.width + x),
            final(self)@.status == old(self)@.status,
    {
        let idx = self.board.get_index(x, y);
        self.board.toggle_flag(idx);
    }

    /// Marks a game in play as won once no cell without a mine is left hidden.
    pub fn check_win(&mut self)
        ensures
            final(self)@.board == old(self)@.board,
            final(self)@.status == status_after_check(old(self)@.board, old(self)@.status),
    {
        if self.status == GameStatus::Playing && self.board.is_win_condition_met() {
            self.status = GameStatus::Won;
        }
    }

    pub fn status(&self) -> (r: GameStatus)
        ensures
            r == self@.status,
    {
        self.status
    }

    /// Starts over on a new board of 10 by 10 cells with 10 mines.
    pub fn reset(&mut self)
        ensures
            final(self)@.board.wf(),
            final(self)@.board == new_board(10, 10, 10),
            final(self)@.status == GameStatus::Created,
    {
        self.board = Board::new(10, 10, 10);
        self.status = GameStatus::Created;
        proof {
            assert(self@.board.cells =~= new_board(10, 10, 10).cells);
        }
    }
}

} // verus!
