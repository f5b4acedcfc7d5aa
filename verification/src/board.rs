//! A simpler board: it is told how many mines to hold only when they are
//! laid, and its clicks tell apart a cell that is already open from one that
//! carries a flag.
use vstd::prelude::*;

use crate::grid::{col_of, index_at, index_of, is_neighbor, neighbor_indices, neighbor_list, neighbor_rank, row_of};
use crate::ms_board::field::{cascade, cascade_open_from, index_set, place_mine_on, place_mines_on};
use crate::ms_board::generation::{lemma_prefix_choice, mines_laid, shuffled_indices_except};
use crate::ms_board::{
    cell_str, field_wf, fresh_cell, is_mine, lemma_all_zero_consistent, mine_set, numbers_consistent,
    text_upto,
};
pub use crate::ms_board::{Cell, CellContent, CellState};

verus! {

/// The outcome of a click on a cell.
#[derive(Debug, Clone, Copy, PartialEq, Eq, Structural)]
pub enum RevealResult {
    HitMine,
    Opened,
    AlreadyRevealed,
    AlreadyFlagged,
}

/// The abstract value of a board: its shape and its cells, row by row.
pub struct FieldModel {
    pub width: nat,
    pub height: nat,
    pub cells: Seq<Cell>,
}

impl FieldModel {
    pub open spec fn len(self) -> nat {
        self.cells.len()
    }

    /// The board has its shape and numbers that agree with its mines.
    pub open spec fn wf(self) -> bool {
        &&& field_wf(self.width as int, self.height as int, self.cells)
        &&& numbers_consistent(self.width as int, self.height as int, self.cells)
    }

    /// The same board with cells replaced by `cells`.
    pub open spec fn with_cells(self, cells: Seq<Cell>) -> FieldModel {
        FieldModel { width: self.width, height: self.height, cells }
    }
}

/// The outcome and the new cells of a click on cell `i`: a flagged or
/// revealed cell is left alone, a mine is hit, and any other cell opens.
pub open spec fn click_result(m: FieldModel, i: int) -> (RevealResult, Seq<Cell>) {
    let c = m.cells[i];
    if c.state == CellState::Flagged {
        (RevealResult::AlreadyFlagged, m.cells)
    } else if c.state == CellState::Revealed {
        (RevealResult::AlreadyRevealed, m.cells)
    } else if is_mine(c) {
        (RevealResult::HitMine, m.cells)
    } else {
        (RevealResult::Opened, cascade(m.width as int, m.height as int, m.cells, set![i]))
    }
}

/// The cell with its state set to `s`.
pub open spec fn with_state(c: Cell, s: CellState) -> Cell {
    Cell { content: c.content, state: s }
}

/// The board with a flag on cell `idx` if that cell was hidden.
pub open spec fn flag_placed(m: FieldModel, idx: int) -> FieldModel {
    if m.cells[idx].state == CellState::Hidden {
        m.with_cells(m.cells.update(idx, with_state(m.cells[idx], CellState::Flagged)))
    } else {
        m
    }
}

/// The board with the flag taken off cell `idx` if it carried one.
pub open spec fn flag_removed(m: FieldModel, idx: int) -> FieldModel {
    if m.cells[idx].state == CellState::Flagged {
        m.with_cells(m.cells.update(idx, with_state(m.cells[idx], CellState::Hidden)))
    } else {
        m
    }
}

/// Placing a flag acts on a hidden cell only: it flags that cell and leaves
/// every other cell as it was; on a revealed or flagged cell it changes
/// nothing.
pub proof fn lemma_place_flag_only_on_hidden(m: FieldModel, idx: int)
    requires
        0 <= idx < m.cells.len(),
    ensures
        m.cells[idx].state != CellState::Hidden ==> flag_placed(m, idx) == m,
        m.cells[idx].state == CellState::Revealed ==> flag_placed(m, idx).cells[idx].state == CellState::Revealed,
        m.cells[idx].state == CellState::Hidden ==> flag_placed(m, idx).cells[idx].state == CellState::Flagged,
        flag_placed(m, idx).cells.len() == m.cells.len(),
        forall|j: int| 0 <= j < m.cells.len() && j != idx ==> #[trigger] flag_placed(m, idx).cells[j] == m.cells[j],
        forall|j: int| 0 <= j < m.cells.len() ==> #[trigger] flag_placed(m, idx).cells[j].content == m.cells[j].content,
{
}

/// Removing a flag acts on a flagged cell only: it makes that cell hidden
/// again and leaves every other cell as it was; on a hidden or revealed cell
/// it changes nothing.
pub proof fn lemma_remove_flag_only_on_flagged(m: FieldModel, idx: int)
    requires
        0 <= idx < m.cells.len(),
    ensures
        m.cells[idx].state != CellState::Flagged ==> flag_removed(m, idx) == m,
        m.cells[idx].state == CellState::Revealed ==> flag_removed(m, idx).cells[idx].state == CellState::Revealed,
        m.cells[idx].state == CellState::Flagged ==> flag_removed(m, idx).cells[idx].state == CellState::Hidden,
        flag_removed(m, idx).cells.len() == m.cells.len(),
        forall|j: int| 0 <= j < m.cells.len() && j != idx ==> #[trigger] flag_removed(m, idx).cells[j] == m.cells[j],
        forall|j: int| 0 <= j < m.cells.len() ==> #[trigger] flag_removed(m, idx).cells[j].content == m.cells[j].content,
{
}

/// Placing a flag on a hidden cell and removing it again gives back the
/// board one started with.
pub proof fn lemma_place_then_remove_flag(m: FieldModel, idx: int)
    requires
        0 <= idx < m.cells.len(),
        m.cells[idx].state == CellState::Hidden,
    ensures
        flag_removed(flag_placed(m, idx), idx) == m,
{
    assert(flag_removed(flag_placed(m, idx), idx).cells =~= m.cells);
}

/// A minesweeper board of `width` by `height` cells.
#[derive(Debug, Clone, PartialEq)]
pub struct Board {
    width: usize,
    height: usize,
    cells: Vec<Cell>,
}

impl View for Board {
    type V = FieldModel;

    closed spec fn view(&self) -> FieldModel {
        FieldModel { width: self.width as nat, height: self.height as nat, cells: self.cells@ }
    }
}

impl Board {
    /// Creates a new board of the given dimensions; every cell is hidden and empty.
    ///
    /// Both dimensions must be positive.
    pub fn new(width: usize, height: usize) -> (b: Self)
        requires
            width > 0,
            height > 0,
            width * height <= usize::MAX,
        ensures
            b@.wf(),
            b@.width == width,
            b@.height == height,
            b@.cells == Seq::new((width * height) as nat, |j: int| fresh_cell()),
    {
        let total_cells = width * height;
        let mut cells: Vec<Cell> = Vec::with_capacity(total_cells);
        let mut i: usize = 0;
        while i < total_cells
            invariant
                i <= total_cells,
                cells@.len() == i,
                forall|j: int| 0 <= j < i ==> #[trigger] cells@[j] == fresh_cell(),
            decreases total_cells - i,
        {
            cells.push(Cell { content: CellContent::Number(0), state: CellState::Hidden });
            i = i + 1;
        }
        let b = Board { width, height, cells };
        proof {
            lemma_all_zero_consistent(width as int, height as int, cells@);
            assert(b@.cells =~= Seq::new((width * height) as nat, |j: int| fresh_cell()));
        }
        b
    }

    /// The cell in column `x`, row `y`, or `None` off the board.
    pub fn get_cell(&self, x: usize, y: usize) -> (r: Option<&Cell>)
        requires
            self@.wf(),
        ensures
            x >= self@.width || y >= self@.height ==> r.is_none(),
            x < self@.width && y < self@.height ==> r == Some(
                &self@.cells[index_of(self@.width as int, x as int, y as int)],
            ),
    {
        if x >= self.width || y >= self.height {
            return None;
        }
        let index = index_at(self.width, self.height, x, y);
        Some(&self.cells[index])
    }

    /// Converts a 2D coordinate (x, y) into a 1D linear index.
    pub fn get_index(&self, x: usize, y: usize) -> (r: usize)
        requires
            y * self@.width + x <= usize::MAX,
        ensures
            r == y * self@.width + x,
    {
        proof {
            assert(0 <= y * self.width) by (nonlinear_arith);
        }
        y * self.width + x
    }

    /// Converts a 1D linear index into 2D coordinates (x, y).
    pub fn get_coords(&self, idx: usize) -> (r: (usize, usize))
        requires
            self@.width > 0,
        ensures
            r == (col_of(self@.width as int, idx as int) as usize, row_of(self@.width as int, idx as int) as usize),
    {
        (idx % self.width, idx / self.width)
    }

    /// The cells that touch the cell in column `x`, row `y`.
    pub fn get_neighbors_indices(&self, x: usize, y: usize) -> (r: Vec<usize>)
        requires
            self@.wf(),
            x < self@.width,
            y < self@.height,
        ensures
            ({
                let i = index_of(self@.width as int, x as int, y as int);
                &&& r@.no_duplicates()
                &&& r@.len() <= 8
                &&& forall|j: usize| r@.contains(j) <==> is_neighbor(self@.width as int, self@.height as int, i, j as int)
                &&& forall|a: int, b: int|
                    0 <= a < b < r@.len() ==> neighbor_rank(self@.width as int, i, r@[a] as int) < neighbor_rank(
                        self@.width as int,
                        i,
                        r@[b] as int,
                    )
                &&& r@ == neighbor_list(self@.width as int, self@.height as int, i)
            }),
    {
        let idx = index_at(self.width, self.height, x, y);
        neighbor_indices(self.width, self.height, idx)
    }

    /// Lays `total_mines` mines at random on cells other than the one in
    /// column `start_x`, row `start_y` (as many as there are such cells).
    ///
    /// There may be no more mines than cells.
    pub fn generate_mines(&mut self, start_x: usize, start_y: usize, total_mines: usize)
        requires
            old(self)@.wf(),
            total_mines <= old(self)@.len(),
            start_y * old(self)@.width + start_x <= old(self)@.len(),
        ensures
            final(self)@.wf(),
            final(self)@ == old(self)@.with_cells(final(self)@.cells),
            forall|j: int| 0 <= j < old(self)@.len() ==> #[trigger] final(self)@.cells[j].state == old(self)@.cells[j].state,
            ({
                let start = start_y * old(self)@.width + start_x;
                let others = old(self)@.len() - (if start < old(self)@.len() { 1int } else { 0int });
                mines_laid(
                    old(self)@.cells,
                    final(self)@.cells,
                    start,
                    (if total_mines <= others { total_mines as int } else { others }) as nat,
                )
            }),
    {
        let ghost m0 = self@;
        let start_idx = self.get_index(start_x, start_y);
        let indices = shuffled_indices_except(self.cells.len(), start_idx);
        let n = if total_mines <= indices.len() {
            total_mines
        } else {
            indices.len()
        };
        let w = self.width;
        let h = self.height;
        place_mines_on(w, h, &mut self.cells, &indices, n);
        proof {
            lemma_prefix_choice(indices@, n as int, start_idx, m0.len() as int);
        }
    }

    /// Puts a mine on cell `idx` and raises the number of each neighbor
    /// without a mine; a cell that already holds a mine is left alone.
    pub fn place_mine(&mut self, idx: usize)
        requires
            old(self)@.wf(),
            idx < old(self)@.len(),
        ensures
            final(self)@.wf(),
            final(self)@ == old(self)@.with_cells(final(self)@.cells),
            forall|j: int| 0 <= j < old(self)@.len() ==> #[trigger] final(self)@.cells[j].state == old(self)@.cells[j].state,
            mine_set(final(self)@.cells) == mine_set(old(self)@.cells).insert(idx as int),
            is_mine(old(self)@.cells[idx as int]) ==> final(self)@ == old(self)@,
    {
        let w = self.width;
        let h = self.height;
        place_mine_on(w, h, &mut self.cells, idx);
    }

    /// Places a flag on cell `idx` when it is hidden.
    pub fn place_flag(&mut self, idx: usize)
        requires
            old(self)@.wf(),
            idx < old(self)@.len(),
        ensures
            final(self)@.wf(),
            final(self)@ == flag_placed(old(self)@, idx as int),
            old(self)@.cells[idx as int].state != CellState::Hidden ==> final(self)@ == old(self)@,
            old(self)@.cells[idx as int].state == CellState::Hidden ==> final(self)@.cells[idx as int].state
                == CellState::Flagged,
            final(self)@.cells.len() == old(self)@.cells.len(),
            forall|j: int| 0 <= j < old(self)@.cells.len() ==> #[trigger] final(self)@.cells[j].content == old(self)@.cells[j].content,
            forall|j: int| 0 <= j < old(self)@.cells.len() && j != idx ==> #[trigger] final(self)@.cells[j] == old(self)@.cells[j],
    {
        let c = self.cells[idx];
        if c.state == CellState::Hidden {
            let ghost c0 = self.cells@;
            self.cells.set(idx, Cell { content: c.content, state: CellState::Flagged });
            proof {
                crate::ms_board::gameplay::lemma_states_only(self.width as int, self.height as int, c0, self.cells@);
            }
        }
    }

    /// Removes the flag from cell `idx` when it carries one.
    pub fn remove_flag(&mut self, idx: usize)
        requires
            old(self)@.wf(),
            idx < old(self)@.len(),
        ensures
            final(self)@.wf(),
            final(self)@ == flag_removed(old(self)@, idx as int),
            old(self)@.cells[idx as int].state != CellState::Flagged ==> final(self)@ == old(self)@,
            old(self)@.cells[idx as int].state == CellState::Flagged ==> final(self)@.cells[idx as int].state
                == CellState::Hidden,
            final(self)@.cells.len() == old(self)@.cells.len(),
            forall|j: int| 0 <= j < old(self)@.cells.len() ==> #[trigger] final(self)@.cells[j].content == old(self)@.cells[j].content,
            forall|j: int| 0 <= j < old(self)@.cells.len() && j != idx ==> #[trigger] final(self)@.cells[j] == old(self)@.cells[j],
    {
        let c = self.cells[idx];
        if c.state == CellState::Flagged {
            let ghost c0 = self.cells@;
            self.cells.set(idx, Cell { content: c.content, state: CellState::Hidden });
            proof {
                crate::ms_board::gameplay::lemma_states_only(self.width as int, self.height as int, c0, self.cells@);
            }
        }
    }

    /// Handles a click on cell `idx`: a flagged or revealed cell is left
    /// alone, a mine is hit, and any other cell opens with its empty region.
    ///
    /// `idx` must lie on the board.
    pub fn click_cell(&mut self, idx: usize) -> (r: RevealResult)
        requires
            old(self)@.wf(),
            idx < old(self)@.len(),
        ensures
            final(self)@.wf(),
            final(self)@ == old(self)@.with_cells(final(self)@.cells),
            (r, final(self)@.cells) == click_result(old(self)@, idx as int),
    {
        let c = self.cells[idx];
        if c.state == CellState::Flagged {
            return RevealResult::AlreadyFlagged;
        }
        if c.state == CellState::Revealed {
            return RevealResult::AlreadyRevealed;
        }
        if c.content == CellContent::Mine {
            return RevealResult::HitMine;
        }
        self.cascade_open(idx);
        RevealResult::Opened
    }

    /// Reveals the region that a click on cell `idx` opens.
    fn cascade_open(&mut self, idx: usize)
        requires
            old(self)@.wf(),
            idx < old(self)@.len(),
        ensures
            final(self)@.wf(),
            final(self)@ == old(self)@.with_cells(
                cascade(old(self)@.width as int, old(self)@.height as int, old(self)@.cells, set![idx as int]),
            ),
    {
        let ghost c0 = self.cells@;
        let w = self.width;
        let h = self.height;
        let mut start: Vec<usize> = Vec::new();
        start.push(idx);
        proof {
            assert(index_set(start@) =~= set![idx as int]) by {
                assert forall|s: int| index_set(start@).contains(s) <==> set![idx as int].contains(s) by {
                    if s == idx as int {
                        assert(start@[0] == idx);
                    }
                }
            }
        }
        cascade_open_from(w, h, &mut self.cells, start);
        proof {
            crate::ms_board::gameplay::lemma_cascade_contents(w as int, h as int, c0, set![idx as int]);
            crate::ms_board::gameplay::lemma_states_only(w as int, h as int, c0, self.cells@);
        }
    }

    /// The cell at index `idx`.
    pub fn cell(&self, idx: usize) -> (r: Cell)
        requires
            idx < self@.len(),
        ensures
            r == self@.cells[idx as int],
    {
        self.cells[idx]
    }

    /// The number of cells.
    pub fn len(&self) -> (r: usize)
        ensures
            r == self@.len(),
    {
        self.cells.len()
    }

    /// The board drawn as text, one line per row.
    pub fn to_string(&self) -> (r: String)
        requires
            self@.wf(),
        ensures
            r@ == text_upto(self@.width as int, self@.cells, self@.len() as int),
    {
        let mut out = String::new();
        let mut i: usize = 0;
        while i < self.cells.len()
            invariant
                self@.wf(),
                i <= self@.len(),
                out@ == text_upto(self@.width as int, self@.cells, i as int),
            decreases self@.len() - i,
        {
            let t = cell_str(self.width, self.height, &self.cells, i);
            out.append(t);
            if (i + 1) % self.width == 0 {
                out.append("\n");
                proof {
                    reveal_strlit("\n");
                }
            }
            proof {
                assert(out@ =~= text_upto(self@.width as int, self@.cells, i + 1));
            }
            i = i + 1;
        }
        out
    }
}

} // verus!
