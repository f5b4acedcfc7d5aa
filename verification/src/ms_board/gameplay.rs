//! What happens when the player clicks, chords and flags.
use vstd::prelude::*;

use super::field::{cascade, cascade_open_from, index_set};
use super::{
    adjacent_mines, is_mine, mine_set, numbers_consistent, Board, BoardModel, Cell, CellContent,
    CellState,
};

verus! {

/// The outcome of a click on a cell.
#[derive(Debug, Clone, Copy, PartialEq, Eq, Structural)]
pub enum RevealResult {
    HitMine,
    Opened,
    Chorded,
    NoOp,
}

/// No cell without a mine is still hidden.
pub open spec fn no_safe_cell_hidden(m: BoardModel) -> bool {
    forall|j: int| 0 <= j < m.cells.len() && !is_mine(#[trigger] m.cells[j]) ==> m.cells[j].state != CellState::Hidden
}

/// Hidden becomes flagged, flagged becomes hidden, revealed stays revealed.
pub open spec fn toggled(s: CellState) -> CellState {
    match s {
        CellState::Hidden => CellState::Flagged,
        CellState::Flagged => CellState::Hidden,
        CellState::Revealed => CellState::Revealed,
    }
}

/// The board after the flag on cell `idx` is toggled.
pub open spec fn flag_toggled(m: BoardModel, idx: int) -> BoardModel {
    with_cells(m, m.cells.update(idx, Cell { content: m.cells[idx].content, state: toggled(m.cells[idx].state) }))
}

/// The same board with cells replaced by `cells`.
pub open spec fn with_cells(m: BoardModel, cells: Seq<Cell>) -> BoardModel {
    BoardModel { width: m.width, height: m.height, mines: m.mines, cells }
}

/// The flagged neighbors of cell `i`.
pub open spec fn flagged_neighbors(m: BoardModel, i: int) -> Set<int> {
    Set::new(|j: int| m.neighbors(i, j) && m.cells[j].state == CellState::Flagged)
}

/// The hidden neighbors of cell `i`.
pub open spec fn hidden_neighbors(m: BoardModel, i: int) -> Set<int> {
    Set::new(|j: int| m.neighbors(i, j) && m.cells[j].state == CellState::Hidden)
}

/// Some neighbor of cell `i` holds a mine that carries no flag.
pub open spec fn unflagged_mine_near(m: BoardModel, i: int) -> bool {
    exists|j: int| #[trigger] m.neighbors(i, j) && is_mine(m.cells[j]) && m.cells[j].state != CellState::Flagged
}

/// The outcome and the new cells of a chord on cell `i`: when as many
/// neighbors carry a flag as the cell's number and every neighboring mine is
/// flagged, the hidden neighbors are opened.
pub open spec fn chord_outcome(m: BoardModel, i: int) -> (RevealResult, Seq<Cell>) {
    match m.cells[i].content {
        CellContent::Mine => (RevealResult::NoOp, m.cells),
        CellContent::Number(n) => if flagged_neighbors(m, i).len() != n {
            (RevealResult::NoOp, m.cells)
        } else if unflagged_mine_near(m, i) {
            (RevealResult::HitMine, m.cells)
        } else {
            (
                RevealResult::Chorded,
                cascade(m.width as int, m.height as int, m.cells, hidden_neighbors(m, i)),
            )
        },
    }
}

/// The outcome and the new cells of a click on cell `i`.
pub open spec fn click_outcome(m: BoardModel, i: int) -> (RevealResult, Seq<Cell>) {
    let c = m.cells[i];
    if c.state == CellState::Flagged {
        (RevealResult::NoOp, m.cells)
    } else if is_mine(c) {
        (RevealResult::HitMine, m.cells)
    } else if c.state == CellState::Revealed {
        if c.content == CellContent::Number(0) {
            (RevealResult::NoOp, m.cells)
        } else {
            chord_outcome(m, i)
        }
    } else {
        (RevealResult::Opened, cascade(m.width as int, m.height as int, m.cells, set![i]))
    }
}

/// The board with every mine revealed.
pub open spec fn mines_revealed(cells: Seq<Cell>) -> Seq<Cell> {
    Seq::new(
        cells.len(),
        |j: int|
            if is_mine(cells[j]) {
                Cell { content: cells[j].content, state: CellState::Revealed }
            } else {
                cells[j]
            },
    )
}

/// Changing only the states of cells keeps the numbers right and the mines in place.
pub proof fn lemma_states_only(w: int, h: int, a: Seq<Cell>, b: Seq<Cell>)
    requires
        a.len() == b.len(),
        forall|j: int| 0 <= j < a.len() ==> #[trigger] a[j].content == b[j].content,
        numbers_consistent(w, h, a),
        forall|i: int, j: int| 0 <= i < a.len() && crate::grid::is_neighbor(w, h, i, j) ==> 0 <= j < a.len(),
    ensures
        numbers_consistent(w, h, b),
        mine_set(a) == mine_set(b),
{
    assert forall|i: int| 0 <= i < b.len() implies match #[trigger] b[i].content {
        CellContent::Number(n) => n == adjacent_mines(w, h, b, i).len(),
        CellContent::Mine => true,
    } by {
        assert(a[i].content == b[i].content);
        assert(adjacent_mines(w, h, a, i) =~= adjacent_mines(w, h, b, i)) by {
            assert forall|j: int| adjacent_mines(w, h, a, i).contains(j) <==> adjacent_mines(w, h, b, i).contains(j) by {
                if crate::grid::is_neighbor(w, h, i, j) {
                    assert(a[j].content == b[j].content);
                }
            }
        }
    }
    assert forall|j: int| mine_set(a).contains(j) <==> mine_set(b).contains(j) by {
        if 0 <= j < a.len() {
            assert(a[j].content == b[j].content);
        }
    }
    assert(mine_set(a) =~= mine_set(b));
}

/// A cascade only ever changes states.
pub proof fn lemma_cascade_contents(w: int, h: int, cells: Seq<Cell>, starts: Set<int>)
    ensures
        cascade(w, h, cells, starts).len() == cells.len(),
        forall|j: int| 0 <= j < cells.len() ==> #[trigger] cascade(w, h, cells, starts)[j].content == cells[j].content,
{
}

impl BoardModel {
    /// A well-formed board stays well formed when only states change.
    pub proof fn lemma_wf_states_only(self, cells: Seq<Cell>)
        requires
            self.wf(),
            cells.len() == self.cells.len(),
            forall|j: int| 0 <= j < cells.len() ==> #[trigger] cells[j].content == self.cells[j].content,
        ensures
            with_cells(self, cells).wf(),
            mine_set(cells) == mine_set(self.cells),
    {
        lemma_states_only(self.width as int, self.height as int, self.cells, cells);
    }
}

impl Board {
    /// Checks whether the board has no hidden cells left that aren't mines.
    pub fn is_win_condition_met(&self) -> (r: bool)
        ensures
            r == no_safe_cell_hidden(self@),
            r <==> !exists|j: int|
                0 <= j < self@.cells.len() && self@.cells[j].content != CellContent::Mine && #[trigger] self@.cells[j].state
                    == CellState::Hidden,
    {
        let mut i: usize = 0;
        while i < self.cells.len()
            invariant
                i <= self.cells@.len(),
                forall|j: int|
                    0 <= j < i && !is_mine(#[trigger] self.cells@[j]) ==> self.cells@[j].state != CellState::Hidden,
            decreases self.cells@.len() - i,
        {
            let c = self.cells[i];
            if c.content != CellContent::Mine && c.state == CellState::Hidden {
                return false;
            }
            i = i + 1;
        }
        proof {
            assert forall|j: int|
                0 <= j < self@.cells.len() && self@.cells[j].content != CellContent::Mine implies #[trigger] self@.cells[j].state
                    != CellState::Hidden by {
                assert(!is_mine(self.cells@[j]));
            }
        }
        true
    }

    /// Puts a flag on a hidden cell, or takes the flag off a flagged one.
    pub fn toggle_flag(&mut self, idx: usize)
        requires
            old(self)@.wf(),
            idx < old(self)@.len(),
        ensures
            final(self)@ == flag_toggled(old(self)@, idx as int),
            final(self)@.wf(),
    {
        let c = self.cells[idx];
        let ns = match c.state {
            CellState::Hidden => CellState::Flagged,
            CellState::Flagged => CellState::Hidden,
            CellState::Revealed => CellState::Revealed,
        };
        let ghost m0 = self@;
        self.cells.set(idx, Cell { content: c.content, state: ns });
        proof {
            m0.lemma_wf_states_only(self.cells@);
            assert(self@ == with_cells(m0, self.cells@));
        }
    }

    /// Handles a click on cell `idx`: a flagged cell ignores it, a mine is hit,
    /// a revealed number chords, and a hidden cell opens.
    pub fn click_cell(&mut self, idx: usize) -> (r: RevealResult)
        requires
            old(self)@.wf(),
            idx < old(self)@.len(),
        ensures
            final(self)@.wf(),
            (r, final(self)@.cells) == click_outcome(old(self)@, idx as int),
            final(self)@ == with_cells(old(self)@, final(self)@.cells),
            mine_set(final(self)@.cells) == mine_set(old(self)@.cells),
    {
        let ghost m0 = self@;
        let c = self.cells[idx];
        if c.state == CellState::Flagged {
            return RevealResult::NoOp;
        }
        if c.content == CellContent::Mine {
            return RevealResult::HitMine;
        }
        if c.state == CellState::Revealed {
            match c.content {
                CellContent::Number(num) => {
                    if num == 0 {
                        return RevealResult::NoOp;
                    } else {
                        return self.chord_cell(idx);
                    }
                },
                CellContent::Mine => {},
            }
        }
        let w = self.width;
        let h = self.height;
        let mut start: Vec<usize> = Vec::new();
        start.push(idx);
        proof {
            assert(index_set(start@) =~= set![idx as int]) by {
                assert forall|s: int| index_set(start@).contains(s) <==> set![idx as int].contains(s) by {
                    if s == idx as int {
                        assert(start@[0] == idx);
                    }
                }
            }
        }
        cascade_open_from(w, h, &mut self.cells, start);
        proof {
            lemma_cascade_contents(w as int, h as int, m0.cells, set![idx as int]);
            m0.lemma_wf_states_only(self.cells@);
            assert(self@ == with_cells(m0, self.cells@));
        }
        RevealResult::Opened
    }

    /// Opens every hidden neighbor of a revealed number once exactly that
    /// many neighbors carry a flag; a neighboring mine without a flag is hit.
    pub fn chord_cell(&mut self, idx: usize) -> (r: RevealResult)
        requires
            old(self)@.wf(),
            idx < old(self)@.len(),
        ensures
            final(self)@.wf(),
            (r, final(self)@.cells) == chord_outcome(old(self)@, idx as int),
            final(self)@ == with_cells(old(self)@, final(self)@.cells),
            mine_set(final(self)@.cells) == mine_set(old(self)@.cells),
    {
        let ghost m0 = self@;
        let num = match self.cells[idx].content {
            CellContent::Number(num) => num,
            CellContent::Mine => {
                return RevealResult::NoOp;
            },
        };
        let neighbors = self.get_neighbors_indices(idx);
        let mut flags: usize = 0;
        let mut k: usize = 0;
        proof {
            assert(Set::new(|j: int| neighbors@.subrange(0, 0).contains(j as usize) && m0.neighbors(idx as int, j) && m0.cells[j].state == CellState::Flagged) =~= Set::<int>::empty());
        }
        while k < neighbors.len()
            invariant
                self@ == m0,
                m0.wf(),
                idx < m0.len(),
                k <= neighbors@.len(),
                neighbors@.len() <= 8,
                neighbors@.no_duplicates(),
                forall|j: usize| neighbors@.contains(j) <==> m0.neighbors(idx as int, j as int),
                forall|q: int| 0 <= q < neighbors@.len() ==> m0.neighbors(idx as int, #[trigger] neighbors@[q] as int),
                flags <= k,
                Set::new(|j: int| neighbors@.subrange(0, k as int).contains(j as usize) && m0.neighbors(idx as int, j) && m0.cells[j].state == CellState::Flagged).finite(),
                flags == Set::new(|j: int| neighbors@.subrange(0, k as int).contains(j as usize) && m0.neighbors(idx as int, j) && m0.cells[j].state == CellState::Flagged).len(),
            decreases neighbors@.len() - k,
        {
            let n = neighbors[k];
            let ghost s0 = Set::new(|j: int| neighbors@.subrange(0, k as int).contains(j as usize) && m0.neighbors(idx as int, j) && m0.cells[j].state == CellState::Flagged);
            let ghost s1 = Set::new(|j: int| neighbors@.subrange(0, k + 1).contains(j as usize) && m0.neighbors(idx as int, j) && m0.cells[j].state == CellState::Flagged);
            proof {
                let sub0 = neighbors@.subrange(0, k as int);
                let sub1 = neighbors@.subrange(0, k + 1);
                assert(!sub0.contains(n)) by {
                    if sub0.contains(n) {
                        let m = choose|m: int| 0 <= m < sub0.len() && sub0[m] == n;
                        assert(neighbors@[m] == neighbors@[k as int]);
                    }
                }
                assert(sub1[k as int] == n);
                assert forall|j: int| #[trigger] sub1.contains(j as usize) && 0 <= j <= usize::MAX implies (sub0.contains(j as usize) || j == n as int) by {
                    let m = choose|m: int| 0 <= m < sub1.len() && sub1[m] == j as usize;
                    if m < k {
                        assert(sub0[m] == j as usize);
                    }
                }
                assert forall|j: int| #[trigger] sub0.contains(j as usize) implies sub1.contains(j as usize) by {
                    let m = choose|m: int| 0 <= m < sub0.len() && sub0[m] == j as usize;
                    assert(sub1[m] == j as usize);
                }
                if self.cells@[n as int].state == CellState::Flagged {
                    assert(s1 =~= s0.insert(n as int));
                } else {
                    assert(s1 =~= s0);
                }
            }
            if self.cells[n].state == CellState::Flagged {
                flags = flags + 1;
            }
            k = k + 1;
        }
        proof {
            assert(neighbors@.subrange(0, neighbors@.len() as int) =~= neighbors@);
            assert(Set::new(|j: int| neighbors@.subrange(0, k as int).contains(j as usize) && m0.neighbors(idx as int, j) && m0.cells[j].state == CellState::Flagged) =~= flagged_neighbors(m0, idx as int));
        }
        if flags != num as usize {
            return RevealResult::NoOp;
        }
        let mut k: usize = 0;
        while k < neighbors.len()
            invariant
                m0.cells[idx as int].content == CellContent::Number(num),
                flagged_neighbors(m0, idx as int).len() == num,
                self@ == m0,
                m0.wf(),
                idx < m0.len(),
                k <= neighbors@.len(),
                forall|q: int| 0 <= q < neighbors@.len() ==> m0.neighbors(idx as int, #[trigger] neighbors@[q] as int),
                forall|q: int|
                    0 <= q < k ==> !(is_mine(m0.cells[#[trigger] neighbors@[q] as int]) && m0.cells[neighbors@[q] as int].state != CellState::Flagged),
            decreases neighbors@.len() - k,
        {
            let c = self.cells[neighbors[k]];
            if c.content == CellContent::Mine && c.state != CellState::Flagged {
                proof {
                    assert(m0.neighbors(idx as int, neighbors@[k as int] as int));
                }
                return RevealResult::HitMine;
            }
            k = k + 1;
        }
        proof {
            assert(!unflagged_mine_near(m0, idx as int)) by {
                if unflagged_mine_near(m0, idx as int) {
                    let j = choose|j: int| #[trigger] m0.neighbors(idx as int, j) && is_mine(m0.cells[j]) && m0.cells[j].state != CellState::Flagged;
                    assert(neighbors@.contains(j as usize));
                    let q = choose|q: int| 0 <= q < neighbors@.len() && neighbors@[q] == j as usize;
                    assert(!(is_mine(m0.cells[neighbors@[q] as int]) && m0.cells[neighbors@[q] as int].state != CellState::Flagged));
                }
            }
        }
        let mut start: Vec<usize> = Vec::new();
        let mut k: usize = 0;
        while k < neighbors.len()
            invariant
                m0.cells[idx as int].content == CellContent::Number(num),
                flagged_neighbors(m0, idx as int).len() == num,
                !unflagged_mine_near(m0, idx as int),
                self@ == m0,
                m0.wf(),
                idx < m0.len(),
                k <= neighbors@.len(),
                forall|q: int| 0 <= q < neighbors@.len() ==> m0.neighbors(idx as int, #[trigger] neighbors@[q] as int),
                forall|q: int| 0 <= q < start@.len() ==> #[trigger] start@[q] < m0.len(),
                forall|s: int|
                    #[trigger] index_set(start@).contains(s) <==> (exists|q: int|
                        0 <= q < k && neighbors@[q] as int == s && m0.cells[s].state == CellState::Hidden),
            decreases neighbors@.len() - k,
        {
            let n = neighbors[k];
            let ghost st0 = start@;
            if self.cells[n].state == CellState::Hidden {
                start.push(n);
            }
            proof {
                assert forall|q: int| 0 <= q < start@.len() implies #[trigger] start@[q] < m0.len() by {
                    if q < st0.len() {
                        assert(start@[q] == st0[q]);
                    } else {
                        assert(m0.neighbors(idx as int, neighbors@[k as int] as int));
                    }
                }
                assert forall|s: int|
                    #[trigger] index_set(start@).contains(s) <==> (exists|q: int|
                        0 <= q < k + 1 && neighbors@[q] as int == s && m0.cells[s].state == CellState::Hidden) by {
                    if index_set(start@).contains(s) {
                        let p = choose|p: int| 0 <= p < start@.len() && start@[p] as int == s;
                        if p < st0.len() {
                            assert(start@[p] == st0[p]);
                            assert(index_set(st0).contains(s));
                            let q = choose|q: int| 0 <= q < k && neighbors@[q] as int == s && m0.cells[s].state == CellState::Hidden;
                            assert(0 <= q < k + 1 && neighbors@[q] as int == s);
                        } else {
                            assert(neighbors@[k as int] as int == s);
                        }
                    }
                    if exists|q: int| 0 <= q < k + 1 && neighbors@[q] as int == s && m0.cells[s].state == CellState::Hidden {
                        let q = choose|q: int| 0 <= q < k + 1 && neighbors@[q] as int == s && m0.cells[s].state == CellState::Hidden;
                        if q < k {
                            assert(index_set(st0).contains(s));
                            let p = choose|p: int| 0 <= p < st0.len() && st0[p] as int == s;
                            assert(start@[p] == st0[p]);
                        } else {
                            assert(start@[start@.len() - 1] as int == s);
                        }
                    }
                }
            }
            k = k + 1;
        }
        proof {
            assert(index_set(start@) =~= hidden_neighbors(m0, idx as int)) by {
                assert forall|s: int| index_set(start@).contains(s) <==> hidden_neighbors(m0, idx as int).contains(s) by {
                    if hidden_neighbors(m0, idx as int).contains(s) {
                        assert(neighbors@.contains(s as usize));
                        let q = choose|q: int| 0 <= q < neighbors@.len() && neighbors@[q] == s as usize;
                        assert(neighbors@[q] as int == s);
                    }
                    if index_set(start@).contains(s) {
                        let q = choose|q: int| 0 <= q < k && neighbors@[q] as int == s && m0.cells[s].state == CellState::Hidden;
                        assert(m0.neighbors(idx as int, neighbors@[q] as int));
                    }
                }
            }
        }
        let w = self.width;
        let h = self.height;
        cascade_open_from(w, h, &mut self.cells, start);
        proof {
            lemma_cascade_contents(w as int, h as int, m0.cells, hidden_neighbors(m0, idx as int));
            m0.lemma_wf_states_only(self.cells@);
            assert(self@ == with_cells(m0, self.cells@));
        }
        RevealResult::Chorded
    }

    /// Reveals every cell that holds a mine.
    pub fn reveal_all_mines(&mut self)
        requires
            old(self)@.wf(),
        ensures
            final(self)@ == with_cells(old(self)@, mines_revealed(old(self)@.cells)),
            final(self)@.wf(),
    {
        let ghost m0 = self@;
        let mut i: usize = 0;
        while i < self.cells.len()
            invariant
                m0.wf(),
                self@ == with_cells(m0, self.cells@),
                self.cells@.len() == m0.cells.len(),
                i <= self.cells@.len(),
                forall|j: int| 0 <= j < i ==> #[trigger] self.cells@[j] == mines_revealed(m0.cells)[j],
                forall|j: int| i <= j < self.cells@.len() ==> #[trigger] self.cells@[j] == m0.cells[j],
            decreases self.cells@.len() - i,
        {
            let c = self.cells[i];
            if c.content == CellContent::Mine {
                self.cells.set(i, Cell { content: c.content, state: CellState::Revealed });
            }
            i = i + 1;
        }
        proof {
            assert(self.cells@ =~= mines_revealed(m0.cells));
            m0.lemma_wf_states_only(self.cells@);
        }
    }
}

} // verus!
