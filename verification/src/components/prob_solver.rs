//! The solver screen: a board that is shown cell by cell and can be flagged,
//! on which the probabilities of mines are worked out.
use vstd::prelude::*;

use crate::components::game::{digit_char_or_question, digit_or_question};
use crate::game::new_board;
use crate::ms_board::gameplay::flag_toggled;
use crate::ms_board::{Board, BoardModel, Cell, CellContent, CellState};

verus! {

/// Where the solver stands.
#[derive(Debug, Clone, Copy, PartialEq, Eq, Structural)]
pub enum SolverStatus {
    Created,
    Editing,
    Hidden,
    Shown,
    Finished,
}

/// What a cell of the solver board shows.
#[derive(Debug, Clone, Copy, PartialEq, Eq, Structural)]
pub enum CellDisplay {
    Number(u8),
    Mine,
    Flag,
    Hidden,
    Empty,
}

/// How a cell is shown: hidden, flagged, or, once revealed, its mine, its
/// number, or nothing for a cell with no mine around it.
pub open spec fn display_of(c: Cell) -> CellDisplay {
    match c.state {
        CellState::Hidden => CellDisplay::Hidden,
        CellState::Flagged => CellDisplay::Flag,
        CellState::Revealed => match c.content {
            CellContent::Mine => CellDisplay::Mine,
            CellContent::Number(n) => if n == 0 {
                CellDisplay::Empty
            } else {
                CellDisplay::Number(n)
            },
        },
    }
}

/// The character drawn on the solver board for what a cell shows.
pub open spec fn char_of(d: CellDisplay) -> char {
    match d {
        CellDisplay::Empty => ' ',
        CellDisplay::Flag => '🚩',
        CellDisplay::Mine => '💣',
        CellDisplay::Number(n) => digit_or_question(n),
        CellDisplay::Hidden => '■',
    }
}

/// The abstract value of the solver.
pub struct SolverModel {
    pub board: BoardModel,
    pub status: SolverStatus,
}

pub struct ProbabilitySolver {
    board: Board,
    status: SolverStatus,
}

impl View for ProbabilitySolver {
    type V = SolverModel;

    closed spec fn view(&self) -> SolverModel {
        SolverModel { board: self.board@, status: self.status }
    }
}

impl ProbabilitySolver {
    /// A solver on a new board.
    pub fn new(width: usize, height: usize, mines: usize) -> (s: Self)
        requires
            width > 0,
            height > 0,
            width * height <= usize::MAX,
            mines < width * height,
        ensures
            s@.board.wf(),
            s@.board == new_board(width as nat, height as nat, mines as nat),
            s@.status == SolverStatus::Created,
    {
        let s = Self { board: Board::new(width, height, mines), status: SolverStatus::Created };
        proof {
            assert(s@.board.cells =~= new_board(width as nat, height as nat, mines as nat).cells);
        }
        s
    }

    /// What each cell shows, in index order.
    pub fn get_display_iter(&self) -> (r: Vec<CellDisplay>)
        ensures
            r@.len() == self@.board.len(),
            forall|k: int| 0 <= k < r@.len() ==> #[trigger] r@[k] == display_of(self@.board.cells[k]),
    {
        let cells = self.board.cell_iter();
        let mut r: Vec<CellDisplay> = Vec::with_capacity(cells.len());
        let mut i: usize = 0;
        while i < cells.len()
            invariant
                cells@.len() == self@.board.len(),
                forall|k: int| 0 <= k < cells@.len() ==> #[trigger] cells@[k] == (self@.board.cells[k].content, self@.board.cells[k].state),
                i <= cells@.len(),
                r@.len() == i,
                forall|k: int| 0 <= k < i ==> #[trigger] r@[k] == display_of(self@.board.cells[k]),
            decreases cells@.len() - i,
        {
            let (content, state) = cells[i];
            let d = match state {
                CellState::Hidden => CellDisplay::Hidden,
                CellState::Flagged => CellDisplay::Flag,
                CellState::Revealed => match content {
                    CellContent::Mine => CellDisplay::Mine,
                    CellContent::Number(0) => CellDisplay::Empty,
                    CellContent::Number(num) => CellDisplay::Number(num),
                },
            };
            r.push(d);
            i = i + 1;
        }
        r
    }

    /// The character drawn for each cell, in index order.
    pub fn char_display_iter(&self) -> (r: Vec<char>)
        ensures
            r@.len() == self@.board.len(),
            forall|k: int| 0 <= k < r@.len() ==> #[trigger] r@[k] == char_of(display_of(self@.board.cells[k])),
    {
        let displays = self.get_display_iter();
        let mut r: Vec<char> = Vec::with_capacity(displays.len());
        let mut i: usize = 0;
        while i < displays.len()
            invariant
                displays@.len() == self@.board.len(),
                forall|k: int| 0 <= k < displays@.len() ==> #[trigger] displays@[k] == display_of(self@.board.cells[k]),
                i <= displays@.len(),
                r@.len() == i,
                forall|k: int| 0 <= k < i ==> #[trigger] r@[k] == char_of(display_of(self@.board.cells[k])),
            decreases displays@.len() - i,
        {
            let c = match displays[i] {
                CellDisplay::Empty => ' ',
                CellDisplay::Flag => '🚩',
                CellDisplay::Mine => '💣',
                CellDisplay::Number(num) => digit_char_or_question(num),
                CellDisplay::Hidden => '■',
            };
            r.push(c);
            i = i + 1;
        }
        r
    }

    /// A click on the solver board does nothing yet.
    pub fn handle_click(&mut self, _x: usize, _y: usize)
        ensures
            final(self)@ == old(self)@,
    {
    }

    /// The solver board is never won; this leaves it as it is.
    pub fn check_win(&mut self)
        ensures
            final(self)@ == old(self)@,
    {
    }

    /// Toggles the flag on the cell in column `x`, row `y`.
    ///
    /// The cell must lie on the board.
    pub fn toggle_flag(&mut self, x: usize, y: usize)
        requires
            old(self)@.board.wf(),
            y * old(self)@.board.width + x < old(self)@.board.len(),
        ensures
            final(self)@.board.wf(),
            final(self)@ == (SolverModel {
                board: flag_toggled(old(self)@.board, y * old(self)@.board.width + x),
                status: old(self)@.status,
            }),
    {
        let idx = self.board.get_index(x, y);
        self.board.toggle_flag(idx);
    }

    pub fn status(&self) -> (r: SolverStatus)
        ensures
            r == self@.status,
    {
        self.status
    }

    /// The board the solver works on.
    pub fn board(&self) -> (r: &Board)
        ensures
            r@ == self@.board,
    {
        &self.board
    }
}

} // verus!
