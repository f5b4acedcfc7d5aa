//! The choice of board size and mine count for a new game.
use vstd::prelude::*;

verus! {

/// The board sizes on offer; `Custom` lets the player set each number.
#[derive(Debug, Clone, Copy, PartialEq, Eq, Structural)]
pub enum Difficulty {
    Beginner,
    Intermediate,
    Expert,
    Custom,
}

/// The smallest number a custom board may have of rows, columns or mines.
pub const CUSTOM_MIN: usize = 5;

/// The largest number a custom board may have of rows, columns or mines.
pub const CUSTOM_MAX: usize = 100;

/// The rows, columns and mines of a preset difficulty.
pub open spec fn preset(d: Difficulty) -> (usize, usize, usize) {
    match d {
        Difficulty::Beginner => (10, 10, 10),
        Difficulty::Intermediate => (16, 16, 40),
        Difficulty::Expert => (16, 30, 99),
        Difficulty::Custom => (0, 0, 0),
    }
}

/// `v` brought into the range allowed for custom boards.
pub open spec fn clamped(v: usize) -> usize {
    if v < CUSTOM_MIN {
        CUSTOM_MIN
    } else if v > CUSTOM_MAX {
        CUSTOM_MAX
    } else {
        v
    }
}

/// The abstract value of a selector.
pub struct SelectorModel {
    pub difficulty: Difficulty,
    pub rows: usize,
    pub cols: usize,
    pub mines: usize,
}

impl SelectorModel {
    /// Every number lies in the custom range, which holds each preset.
    pub open spec fn wf(self) -> bool {
        &&& CUSTOM_MIN <= self.rows <= CUSTOM_MAX
        &&& CUSTOM_MIN <= self.cols <= CUSTOM_MAX
        &&& CUSTOM_MIN <= self.mines <= CUSTOM_MAX
    }
}

/// The difficulty picked for the next game, with its board size and mine count.
pub struct DifficultySelector {
    difficulty: Difficulty,
    rows: usize,
    cols: usize,
    mines: usize,
}

impl View for DifficultySelector {
    type V = SelectorModel;

    closed spec fn view(&self) -> SelectorModel {
        SelectorModel { difficulty: self.difficulty, rows: self.rows, cols: self.cols, mines: self.mines }
    }
}

impl DifficultySelector {
    /// Starts on the beginner board: 10 rows, 10 columns, 10 mines.
    pub fn new() -> (s: Self)
        ensures
            s@ == (SelectorModel { difficulty: Difficulty::Beginner, rows: 10, cols: 10, mines: 10 }),
            s@.wf(),
    {
        Self { difficulty: Difficulty::Beginner, rows: 10, cols: 10, mines: 10 }
    }

    /// Picks a difficulty. A preset sets its own size and mine count;
    /// `Custom` keeps the current numbers for the player to change.
    pub fn select(&mut self, difficulty: Difficulty)
        requires
            old(self)@.wf(),
        ensures
            final(self)@.wf(),
            final(self)@.difficulty == difficulty,
            difficulty == Difficulty::Custom ==> (final(self)@.rows, final(self)@.cols, final(self)@.mines) == (
                old(self)@.rows,
                old(self)@.cols,
                old(self)@.mines,
            ),
            difficulty != Difficulty::Custom ==> (final(self)@.rows, final(self)@.cols, final(self)@.mines)
                == preset(difficulty),
    {
        self.difficulty = difficulty;
        match difficulty {
            Difficulty::Beginner => {
                self.rows = 10;
                self.cols = 10;
                self.mines = 10;
            },
            Difficulty::Intermediate => {
                self.rows = 16;
                self.cols = 16;
                self.mines = 40;
            },
            Difficulty::Expert => {
                self.rows = 16;
                self.cols = 30;
                self.mines = 99;
            },
            Difficulty::Custom => {},
        }
    }

    /// Sets the numbers of a custom board, each brought into the range
    /// from 5 to 100. Only a custom board offers them to change.
    pub fn set_custom(&mut self, rows: usize, cols: usize, mines: usize)
        requires
            old(self)@.wf(),
        ensures
            final(self)@.wf(),
            old(self)@.difficulty == Difficulty::Custom ==> final(self)@ == (SelectorModel {
                difficulty: Difficulty::Custom,
                rows: clamped(rows),
                cols: clamped(cols),
                mines: clamped(mines),
            }),
            old(self)@.difficulty != Difficulty::Custom ==> final(self)@ == old(self)@,
    {
        if self.difficulty == Difficulty::Custom {
            self.rows = clamp_custom(rows);
            self.cols = clamp_custom(cols);
            self.mines = clamp_custom(mines);
        }
    }

    pub fn difficulty(&self) -> (r: Difficulty)
        ensures
            r == self@.difficulty,
    {
        self.difficulty
    }

    pub fn rows(&self) -> (r: usize)
        ensures
            r == self@.rows,
    {
        self.rows
    }

    pub fn cols(&self) -> (r: usize)
        ensures
            r == self@.cols,
    {
        self.cols
    }

    pub fn mines(&self) -> (r: usize)
        ensures
            r == self@.mines,
    {
        self.mines
    }
}

impl Default for DifficultySelector {
    /// The same as `new`: the beginner board.
    fn default() -> (s: Self)
        ensures
            s@ == (SelectorModel { difficulty: Difficulty::Beginner, rows: 10, cols: 10, mines: 10 }),
    {
        Self::new()
    }
}

/// `v` brought into the range from 5 to 100.
fn clamp_custom(v: usize) -> (r: usize)
    ensures
        r == clamped(v),
{
    if v < CUSTOM_MIN {
        CUSTOM_MIN
    } else if v > CUSTOM_MAX {
        CUSTOM_MAX
    } else {
        v
    }
}

} // verus!
