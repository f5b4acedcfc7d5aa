//! The game played on the screen: it takes clicks and flags until it is won
//! or lost, and tells what each cell shows.
use vstd::prelude::*;

use crate::game::new_board;
use crate::ms_board::gameplay::{no_safe_cell_hidden, click_outcome, flag_toggled, mines_revealed, with_cells, RevealResult};
use crate::ms_board::generation::mines_generated;
use crate::ms_board::{digit_char, is_mine, mine_set, Board, BoardModel, Cell, CellContent, CellState};
use crate::grid::index_of;

verus! {

/// Where a game stands.
#[derive(Debug, Clone, Copy, PartialEq, Eq, Structural)]
pub enum GameStatus {
    Created,
    Playing,
    Won,
    Lost,
}

/// What a cell shows to the player.
#[derive(Debug, Clone, Copy, PartialEq, Eq, Structural)]
pub enum CellDisplay {
    Number(u8),
    Mine,
    Flag,
    Hidden,
    Empty,
}

/// How a cell is shown: hidden, flagged, or, once revealed, its mine, its
/// number, or nothing for a cell with no mine around it.
pub open spec fn display_of(c: Cell) -> CellDisplay {
    match c.state {
        CellState::Hidden => CellDisplay::Hidden,
        CellState::Flagged => CellDisplay::Flag,
        CellState::Revealed => match c.content {
            CellContent::Mine => CellDisplay::Mine,
            CellContent::Number(n) => if n == 0 {
                CellDisplay::Empty
            } else {
                CellDisplay::Number(n)
            },
        },
    }
}

/// The decimal digit of `n`, or a question mark when `n` has two digits.
pub open spec fn digit_or_question(n: u8) -> char {
    if n < 10 {
        digit_char(n as nat)
    } else {
        '?'
    }
}

/// The character drawn for what a cell shows.
pub open spec fn char_of(d: CellDisplay) -> char {
    match d {
        CellDisplay::Hidden => '\u{200B}',
        CellDisplay::Flag => '🚩',
        CellDisplay::Mine => '💣',
        CellDisplay::Number(n) => digit_or_question(n),
        CellDisplay::Empty => ' ',
    }
}

/// The character of the decimal digit `n`, or `'?'` from 10 on.
pub fn digit_char_or_question(n: u8) -> (c: char)
    ensures
        c == digit_or_question(n),
{
    match n {
        0 => '0',
        1 => '1',
        2 => '2',
        3 => '3',
        4 => '4',
        5 => '5',
        6 => '6',
        7 => '7',
        8 => '8',
        9 => '9',
        _ => '?',
    }
}

/// The abstract value of a game.
pub struct GameModel {
    pub board: BoardModel,
    pub status: GameStatus,
}

/// A game that is won or lost takes no more clicks or flags.
pub open spec fn interactive(st: GameStatus) -> bool {
    st != GameStatus::Won && st != GameStatus::Lost
}

impl GameModel {
    /// The board is well formed; a game that has not started has no mines
    /// and nothing revealed; a lost game shows every mine.
    pub open spec fn wf(self) -> bool {
        &&& self.board.wf()
        &&& self.status == GameStatus::Created ==> forall|j: int|
            0 <= j < self.board.len() ==> !is_mine(#[trigger] self.board.cells[j]) && self.board.cells[j].state
                != CellState::Revealed
        &&& self.status == GameStatus::Lost ==> forall|j: int|
            0 <= j < self.board.len() && is_mine(#[trigger] self.board.cells[j]) ==> self.board.cells[j].state
                == CellState::Revealed
    }
}

/// The game after a click on cell `idx` of board `b` in status `st`: hitting a
/// mine loses the game and shows every mine.
pub open spec fn click_from(b: BoardModel, st: GameStatus, idx: int) -> GameModel {
    let (r, cells) = click_outcome(b, idx);
    if r == RevealResult::HitMine {
        GameModel { board: with_cells(b, mines_revealed(cells)), status: GameStatus::Lost }
    } else {
        GameModel { board: with_cells(b, cells), status: st }
    }
}

/// The status after a check for a win.
pub open spec fn status_after_check(b: BoardModel, st: GameStatus) -> GameStatus {
    if st == GameStatus::Playing && no_safe_cell_hidden(b) {
        GameStatus::Won
    } else {
        st
    }
}

pub struct MinesweeperGame {
    board: Board,
    status: GameStatus,
}

impl View for MinesweeperGame {
    type V = GameModel;

    closed spec fn view(&self) -> GameModel {
        GameModel { board: self.board@, status: self.status }
    }
}

impl MinesweeperGame {
    /// A game that has not started, on a new board.
    pub fn new(width: usize, height: usize, mines: usize) -> (g: Self)
        requires
            width > 0,
            height > 0,
            width * height <= usize::MAX,
            mines < width * height,
        ensures
            g@.wf(),
            g@.board == new_board(width as nat, height as nat, mines as nat),
            g@.status == GameStatus::Created,
    {
        let g = Self { board: Board::new(width, height, mines), status: GameStatus::Created };
        proof {
            assert(g@.board.cells =~= new_board(width as nat, height as nat, mines as nat).cells);
        }
        g
    }

    fn can_interact(&self) -> (r: bool)
        ensures
            r == interactive(self@.status),
    {
        !matches!(self.status, GameStatus::Won | GameStatus::Lost)
    }

    /// Handles a click on column `x`, row `y` while the game is neither won
    /// nor lost. The first click lays the mines away from the clicked cell,
    /// so it never loses; a mine hit later loses the game and shows every mine.
    ///
    /// The cell must lie on the board.
    pub fn handle_click(&mut self, x: usize, y: usize)
        requires
            old(self)@.wf(),
            interactive(old(self)@.status) ==> y * old(self)@.board.width + x < old(self)@.board.len(),
        ensures
            final(self)@.wf(),
            !interactive(old(self)@.status) ==> final(self)@ == old(self)@,
            ({
                let idx = y * old(self)@.board.width + x;
                old(self)@.status == GameStatus::Created ==> exists|b1: BoardModel|
                    mines_generated(old(self)@.board, b1, idx) && final(self)@ == #[trigger] click_from(
                        b1,
                        GameStatus::Playing,
                        idx,
                    )
            }),
            old(self)@.status == GameStatus::Playing ==> final(self)@ == click_from(
                old(self)@.board,
                old(self)@.status,
                y * old(self)@.board.width + x,
            ),
            old(self)@.status == GameStatus::Created ==> final(self)@.status == GameStatus::Playing,
    {
        if !self.can_interact() {
            return;
        }
        let idx = self.board.get_index(x, y);
        let ghost created = self.status == GameStatus::Created;
        let ghost b0 = self.board@;
        if matches!(self.status, GameStatus::Created) {
            self.board.generate_mines(idx);
            self.status = GameStatus::Playing;
        }
        let ghost b1 = self.board@;
        let ghost st1 = self.status;
        proof {
            if created {
                assert(mine_set(b0.cells) =~= Set::<int>::empty()) by {
                    assert forall|j: int| !mine_set(b0.cells).contains(j) by {
                        if 0 <= j < b0.len() {
                            assert(!is_mine(b0.cells[j]));
                        }
                    }
                }
                assert(!mine_set(b1.cells).contains(idx as int));
                assert(!is_mine(b1.cells[idx as int]));
                assert(b1.cells[idx as int].state == b0.cells[idx as int].state);
            }
        }
        if self.board.click_cell(idx) == RevealResult::HitMine {
            self.status = GameStatus::Lost;
            self.board.reveal_all_mines();
        }
        proof {
            assert(self@ == click_from(b1, st1, idx as int));
        }
    }

    /// Toggles the flag on the cell in column `x`, row `y` while the game is
    /// neither won nor lost.
    pub fn toggle_flag(&mut self, x: usize, y: usize)
        requires
            old(self)@.wf(),
            interactive(old(self)@.status) ==> y * old(self)@.board.width + x < old(self)@.board.len(),
        ensures
            final(self)@.wf(),
            !interactive(old(self)@.status) ==> final(self)@ == old(self)@,
            interactive(old(self)@.status) ==> final(self)@ == (GameModel {
                board: flag_toggled(old(self)@.board, y * old(self)@.board.width + x),
                status: old(self)@.status,
            }),
    {
        if !self.can_interact() {
            return;
        }
        let idx = self.board.get_index(x, y);
        self.board.toggle_flag(idx);
    }

    /// Marks a game in play as won once no cell without a mine is left hidden.
    pub fn check_win(&mut self)
        requires
            old(self)@.wf(),
        ensures
            final(self)@.wf(),
            final(self)@.board == old(self)@.board,
            final(self)@.status == status_after_check(old(self)@.board, old(self)@.status),
    {
        if matches!(self.status, GameStatus::Playing) && self.board.is_win_condition_met() {
            self.status = GameStatus::Won;
        }
    }

    pub fn status(&self) -> (r: GameStatus)
        ensures
            r == self@.status,
    {
        self.status
    }

    /// The board the game is played on.
    pub fn board(&self) -> (r: &Board)
        ensures
            r@ == self@.board,
    {
        &self.board
    }

    /// Starts over on a new board of `x` columns and `y` rows with `mines` mines.
    ///
    /// The board must have cells, and room for more cells than mines.
    pub fn reset(&mut self, x: usize, y: usize, mines: usize)
        requires
            x > 0,
            y > 0,
            x * y <= usize::MAX,
            mines < x * y,
        ensures
            final(self)@.wf(),
            final(self)@.board == new_board(x as nat, y as nat, mines as nat),
            final(self)@.status == GameStatus::Created,
    {
        self.board = Board::new(x, y, mines);
        self.status = GameStatus::Created;
        proof {
            assert(self@.board.cells =~= new_board(x as nat, y as nat, mines as nat).cells);
        }
    }

    /// What the cell in column `x`, row `y` shows.
    pub fn get_cell_display(&self, x: usize, y: usize) -> (r: CellDisplay)
        requires
            self@.wf(),
            x < self@.board.width,
            y < self@.board.height,
        ensures
            r == display_of(self@.board.cells[index_of(self@.board.width as int, x as int, y as int)]),
    {
        let (content, state) = self.board.cell_at(x, y);
        match state {
            CellState::Hidden => CellDisplay::Hidden,
            CellState::Flagged => CellDisplay::Flag,
            CellState::Revealed => match content {
                CellContent::Mine => CellDisplay::Mine,
                CellContent::Number(0) => CellDisplay::Empty,
                CellContent::Number(num) => CellDisplay::Number(num),
            },
        }
    }

    /// The character drawn for the cell in column `x`, row `y`.
    pub fn get_cell_char(&self, x: usize, y: usize) -> (r: char)
        requires
            self@.wf(),
            x < self@.board.width,
            y < self@.board.height,
        ensures
            r == char_of(display_of(self@.board.cells[index_of(self@.board.width as int, x as int, y as int)])),
    {
        let cell_display = self.get_cell_display(x, y);
        match cell_display {
            CellDisplay::Hidden => '\u{200B}',
            CellDisplay::Flag => '🚩',
            CellDisplay::Mine => '💣',
            CellDisplay::Number(num) => digit_char_or_question(num),
            CellDisplay::Empty => ' ',
        }
    }
}

} // verus!
