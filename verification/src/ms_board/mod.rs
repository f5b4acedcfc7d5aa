//! The minesweeper board: cells, their model, and the numbers they carry.
use vstd::prelude::*;

use crate::grid::{col_of, index_at, index_of, is_neighbor, neighbor_indices, neighbor_list, neighbor_rank, row_of};

pub mod field;
pub mod gameplay;
pub mod generation;
pub mod laws;
pub mod probabilities;

verus! {

/// What a cell holds: a mine, or the number of mines around it.
#[derive(Debug, Clone, Copy, PartialEq, Eq, Structural)]
pub enum CellContent {
    Mine,
    Number(u8),
}

/// What the player sees of a cell.
#[derive(Debug, Clone, Copy, PartialEq, Eq, Structural)]
pub enum CellState {
    Hidden,
    Flagged,
    Revealed,
}

/// One cell of the board.
#[derive(Debug, Clone, Copy, PartialEq, Eq, Structural)]
pub struct Cell {
    pub content: CellContent,
    pub state: CellState,
}

/// The cell a new board starts with: hidden, with no mine around it.
pub open spec fn fresh_cell() -> Cell {
    Cell { content: CellContent::Number(0), state: CellState::Hidden }
}

pub open spec fn is_mine(c: Cell) -> bool {
    c.content == CellContent::Mine
}

/// The mines among the neighbors of cell `i`.
pub open spec fn adjacent_mines(w: int, h: int, cells: Seq<Cell>, i: int) -> Set<int> {
    Set::new(|j: int| is_neighbor(w, h, i, j) && is_mine(cells[j]))
}

/// The cells of the board that hold a mine.
pub open spec fn mine_set(cells: Seq<Cell>) -> Set<int> {
    Set::new(|j: int| 0 <= j < cells.len() && is_mine(cells[j]))
}

/// The shape of a `w` by `h` board whose cells are stored row by row.
pub open spec fn field_wf(w: int, h: int, cells: Seq<Cell>) -> bool {
    &&& w > 0
    &&& h > 0
    &&& w * h <= usize::MAX
    &&& cells.len() == w * h
}

/// Every cell without a mine carries the number of mines around it.
pub open spec fn numbers_consistent(w: int, h: int, cells: Seq<Cell>) -> bool {
    forall|i: int|
        0 <= i < cells.len() ==> match #[trigger] cells[i].content {
            CellContent::Number(n) => n == adjacent_mines(w, h, cells, i).len(),
            CellContent::Mine => true,
        }
}

/// The digit `d` as a character.
pub open spec fn digit_char(d: nat) -> char {
    (d + 48) as char
}

/// The decimal digits of `n`.
pub open spec fn decimal_text(n: nat) -> Seq<char>
    decreases n,
{
    if n < 10 {
        seq![digit_char(n)]
    } else {
        decimal_text(n / 10) + seq![digit_char(n % 10)]
    }
}

/// How a cell is drawn in text: a flag, a hidden square, a mine, or its number.
pub open spec fn cell_text(c: Cell) -> Seq<char> {
    match c.state {
        CellState::Flagged => "🚩"@,
        CellState::Hidden => "■ "@,
        CellState::Revealed => match c.content {
            CellContent::Mine => "● "@,
            CellContent::Number(n) => decimal_text(n as nat) + seq![' '],
        },
    }
}

/// The text of the first `i` cells, with a line break after each full row.
pub open spec fn text_upto(w: int, cells: Seq<Cell>, i: int) -> Seq<char>
    decreases i,
{
    if i <= 0 {
        seq![]
    } else {
        text_upto(w, cells, i - 1) + cell_text(cells[i - 1]) + if i % w == 0 {
            seq!['\n']
        } else {
            seq![]
        }
    }
}

/// The abstract value of a board.
pub struct BoardModel {
    pub width: nat,
    pub height: nat,
    pub mines: nat,
    pub cells: Seq<Cell>,
}

impl BoardModel {
    pub open spec fn len(self) -> nat {
        self.cells.len()
    }

    /// The board has its shape, fewer mines planned than cells, and
    /// numbers that agree with the mines it holds.
    pub open spec fn wf(self) -> bool {
        &&& field_wf(self.width as int, self.height as int, self.cells)
        &&& self.mines < self.cells.len()
        &&& numbers_consistent(self.width as int, self.height as int, self.cells)
    }

    pub open spec fn neighbors(self, i: int, j: int) -> bool {
        is_neighbor(self.width as int, self.height as int, i, j)
    }
}

/// A minesweeper board of `width` by `height` cells that is meant to hold `mines` mines.
#[derive(Debug, Clone, PartialEq)]
pub struct Board {
    width: usize,
    height: usize,
    mines: usize,
    cells: Vec<Cell>,
}

impl View for Board {
    type V = BoardModel;

    closed spec fn view(&self) -> BoardModel {
        BoardModel {
            width: self.width as nat,
            height: self.height as nat,
            mines: self.mines as nat,
            cells: self.cells@,
        }
    }
}

/// A board with no mine has only zeros.
pub proof fn lemma_all_zero_consistent(w: int, h: int, cells: Seq<Cell>)
    requires
        cells.len() == w * h,
        forall|j: int| 0 <= j < cells.len() ==> #[trigger] cells[j] == fresh_cell(),
    ensures
        numbers_consistent(w, h, cells),
        mine_set(cells) == Set::<int>::empty(),
{
    assert forall|i: int| 0 <= i < cells.len() implies match #[trigger] cells[i].content {
        CellContent::Number(n) => n == adjacent_mines(w, h, cells, i).len(),
        CellContent::Mine => true,
    } by {
        assert(adjacent_mines(w, h, cells, i) =~= Set::<int>::empty());
    }
    assert(mine_set(cells) =~= Set::<int>::empty());
}

/// The text of cell `i` of a board whose numbers agree with its mines.
pub fn cell_str(w: usize, h: usize, cells: &Vec<Cell>, i: usize) -> (r: &'static str)
    requires
        field_wf(w as int, h as int, cells@),
        numbers_consistent(w as int, h as int, cells@),
        i < cells@.len(),
    ensures
        r@ == cell_text(cells@[i as int]),
{
    let c = cells[i];
    match c.state {
        CellState::Flagged => "🚩",
        CellState::Hidden => "■ ",
        CellState::Revealed => match c.content {
            CellContent::Mine => "● ",
            CellContent::Number(n) => {
                proof {
                    crate::ms_board::field::lemma_adjacent_mines_bound(w as int, h as int, cells@, i as int);
                    assert(n <= 8);
                    assert(decimal_text(n as nat) == seq![digit_char(n as nat)]);
                }
                match n {
                    0 => {
                        proof {
                            reveal_strlit("0 ");
                            assert(digit_char(0) == '0');
                        }
                        "0 "
                    },
                    1 => {
                        proof {
                            reveal_strlit("1 ");
                            assert(digit_char(1) == '1');
                        }
                        "1 "
                    },
                    2 => {
                        proof {
                            reveal_strlit("2 ");
                            assert(digit_char(2) == '2');
                        }
                        "2 "
                    },
                    3 => {
                        proof {
                            reveal_strlit("3 ");
                            assert(digit_char(3) == '3');
                        }
                        "3 "
                    },
                    4 => {
                        proof {
                            reveal_strlit("4 ");
                            assert(digit_char(4) == '4');
                        }
                        "4 "
                    },
                    5 => {
                        proof {
                            reveal_strlit("5 ");
                            assert(digit_char(5) == '5');
                        }
                        "5 "
                    },
                    6 => {
                        proof {
                            reveal_strlit("6 ");
                            assert(digit_char(6) == '6');
                        }
                        "6 "
                    },
                    7 => {
                        proof {
                            reveal_strlit("7 ");
                            assert(digit_char(7) == '7');
                        }
                        "7 "
                    },
                    _ => {
                        proof {
                            reveal_strlit("8 ");
                            assert(n == 8);
                            assert(digit_char(8) == '8');
                        }
                        "8 "
                    },
                }
            },
        },
    }
}

impl Board {
    /// Creates a new board of the given dimensions; every cell is hidden and empty.
    ///
    /// Both dimensions must be positive, and `mines` below the number of cells.
    pub fn new(width: usize, height: usize, mines: usize) -> (b: Self)
        requires
            width > 0,
            height > 0,
            width * height <= usize::MAX,
            mines < width * height,
        ensures
            b@.wf(),
            b@.width == width,
            b@.height == height,
            b@.mines == mines,
            b@.cells == Seq::new((width * height) as nat, |j: int| fresh_cell()),
    {
        let total_cells = width * height;
        let mut cells: Vec<Cell> = Vec::with_capacity(total_cells);
        let mut i: usize = 0;
        while i < total_cells
            invariant
                i <= total_cells,
                cells@.len() == i,
                forall|j: int| 0 <= j < i ==> #[trigger] cells@[j] == fresh_cell(),
            decreases total_cells - i,
        {
            cells.push(Cell { content: CellContent::Number(0), state: CellState::Hidden });
            i = i + 1;
        }
        let b = Board { width, height, mines, cells };
        proof {
            lemma_all_zero_consistent(width as int, height as int, cells@);
            assert(b@.cells =~= Seq::new((width * height) as nat, |j: int| fresh_cell()));
        }
        b
    }

    /// The cells that touch cell `idx`.
    pub fn get_neighbors_indices(&self, idx: usize) -> (r: Vec<usize>)
        requires
            self@.wf(),
            idx < self@.len(),
        ensures
            r@.no_duplicates(),
            r@.len() <= 8,
            forall|j: usize| r@.contains(j) <==> self@.neighbors(idx as int, j as int),
            forall|k: int| 0 <= k < r@.len() ==> self@.neighbors(idx as int, #[trigger] r@[k] as int),
            forall|a: int, b: int|
                0 <= a < b < r@.len() ==> neighbor_rank(self@.width as int, idx as int, r@[a] as int) < neighbor_rank(
                    self@.width as int,
                    idx as int,
                    r@[b] as int,
                ),
            r@ == neighbor_list(self@.width as int, self@.height as int, idx as int),
    {
        neighbor_indices(self.width, self.height, idx)
    }

    /// Converts a 2D coordinate (x, y) into a 1D linear index.
    pub fn get_index(&self, x: usize, y: usize) -> (r: usize)
        requires
            y * self@.width + x <= usize::MAX,
        ensures
            r == y * self@.width + x,
    {
        proof {
            assert(0 <= y * self.width) by (nonlinear_arith);
        }
        y * self.width + x
    }

    /// Converts a 1D linear index into 2D coordinates (x, y).
    pub fn get_coords(&self, idx: usize) -> (r: (usize, usize))
        requires
            self@.width > 0,
        ensures
            r == (col_of(self@.width as int, idx as int) as usize, row_of(self@.width as int, idx as int) as usize),
    {
        (idx % self.width, idx / self.width)
    }

    pub fn get_width(&self) -> (r: usize)
        ensures
            r == self@.width,
    {
        self.width
    }

    pub fn get_height(&self) -> (r: usize)
        ensures
            r == self@.height,
    {
        self.height
    }

    pub fn get_mine_count(&self) -> (r: usize)
        ensures
            r == self@.mines,
    {
        self.mines
    }

    /// The content and state of every cell, in index order.
    pub fn cell_iter(&self) -> (r: Vec<(CellContent, CellState)>)
        ensures
            r@.len() == self@.len(),
            forall|k: int| 0 <= k < r@.len() ==> #[trigger] r@[k] == (self@.cells[k].content, self@.cells[k].state),
    {
        let mut r: Vec<(CellContent, CellState)> = Vec::with_capacity(self.cells.len());
        let mut i: usize = 0;
        while i < self.cells.len()
            invariant
                i <= self.cells@.len(),
                r@.len() == i,
                forall|k: int| 0 <= k < i ==> #[trigger] r@[k] == (self.cells@[k].content, self.cells@[k].state),
            decreases self.cells@.len() - i,
        {
            let c = self.cells[i];
            r.push((c.content, c.state));
            i = i + 1;
        }
        r
    }

    /// The content and state of the cell in column `x`, row `y`.
    pub fn cell_at(&self, x: usize, y: usize) -> (r: (CellContent, CellState))
        requires
            self@.wf(),
            x < self@.width,
            y < self@.height,
        ensures
            ({
                let i = index_of(self@.width as int, x as int, y as int);
                r == (self@.cells[i].content, self@.cells[i].state)
            }),
    {
        let i = index_at(self.width, self.height, x, y);
        let c = self.cells[i];
        (c.content, c.state)
    }

    /// The board drawn as text, one line per row.
    pub fn to_string(&self) -> (r: String)
        requires
            self@.wf(),
        ensures
            r@ == text_upto(self@.width as int, self@.cells, self@.len() as int),
    {
        let mut out = String::new();
        let mut i: usize = 0;
        while i < self.cells.len()
            invariant
                self@.wf(),
                i <= self@.len(),
                out@ == text_upto(self@.width as int, self@.cells, i as int),
            decreases self@.len() - i,
        {
            let t = cell_str(self.width, self.height, &self.cells, i);
            out.append(t);
            if (i + 1) % self.width == 0 {
                out.append("\n");
                proof {
                    reveal_strlit("\n");
                }
            }
            proof {
                assert(out@ =~= text_upto(self@.width as int, self@.cells, i + 1));
            }
            i = i + 1;
        }
        out
    }

    /// The cell at index `idx`.
    pub fn cell(&self, idx: usize) -> (r: Cell)
        requires
            idx < self@.len(),
        ensures
            r == self@.cells[idx as int],
    {
        self.cells[idx]
    }
}

} // verus!
