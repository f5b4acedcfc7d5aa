//! Properties of the board that span its operations.
use vstd::prelude::*;

use super::field::{cascade, is_trail, is_unopened_zero, lemma_adjacent_mines_bound, opened, reached};
use crate::grid::is_neighbor;
use super::gameplay::{click_outcome, flag_toggled, no_safe_cell_hidden, toggled, RevealResult};
use super::generation::{mine_placed, same_states};
use super::probabilities::{
    below, clue_value, counts_for, first_at, is_clue, is_floating, is_frontier, layout_fits, lemma_below_step,
    lemma_below_zero, mine_tally, mines_for, open_for, popcount, segment_clue, valid_layouts,
};
use super::{adjacent_mines, is_mine, mine_set, BoardModel, Cell, CellContent, CellState};

verus! {

/// Toggling the flag on a cell twice gives back the board one started with.
pub proof fn lemma_toggle_twice(m: BoardModel, idx: int)
    requires
        0 <= idx < m.cells.len(),
    ensures
        flag_toggled(flag_toggled(m, idx), idx) == m,
{
    let m1 = flag_toggled(m, idx);
    let m2 = flag_toggled(m1, idx);
    assert(toggled(toggled(m.cells[idx].state)) == m.cells[idx].state);
    assert(m2.cells =~= m.cells);
}

/// Putting a mine twice on the same cell does no more than putting it once.
pub proof fn lemma_place_mine_idempotent(b0: BoardModel, b1: BoardModel, b2: BoardModel, idx: int)
    requires
        0 <= idx < b0.cells.len(),
        mine_placed(b0, b1, idx),
        mine_placed(b1, b2, idx),
    ensures
        b2 == b1,
{
    assert(mine_set(b1.cells).contains(idx));
}

/// On a well formed board the numbers follow from the mines: two boards of the
/// same shape with the same mines and the same states are the same board.
/// So the order in which mines are put down does not matter.
pub proof fn lemma_board_determined_by_mines(a: BoardModel, b: BoardModel)
    requires
        a.wf(),
        b.wf(),
        a.width == b.width,
        a.height == b.height,
        a.mines == b.mines,
        same_states(a.cells, b.cells),
        mine_set(a.cells) == mine_set(b.cells),
    ensures
        a == b,
{
    let w = a.width as int;
    let h = a.height as int;
    assert forall|i: int| 0 <= i < a.cells.len() implies #[trigger] a.cells[i] == b.cells[i] by {
        assert(mine_set(a.cells).contains(i) == is_mine(a.cells[i]));
        assert(mine_set(b.cells).contains(i) == is_mine(b.cells[i]));
        assert(adjacent_mines(w, h, a.cells, i) =~= adjacent_mines(w, h, b.cells, i)) by {
            assert forall|j: int| adjacent_mines(w, h, a.cells, i).contains(j) <==> adjacent_mines(w, h, b.cells, i).contains(j) by {
                if crate::grid::is_neighbor(w, h, i, j) {
                    assert(mine_set(a.cells).contains(j) == is_mine(a.cells[j]));
                    assert(mine_set(b.cells).contains(j) == is_mine(b.cells[j]));
                }
            }
        }
        assert(a.cells[i].state == b.cells[i].state);
        match a.cells[i].content {
            CellContent::Mine => {},
            CellContent::Number(n) => {
                match b.cells[i].content {
                    CellContent::Mine => {},
                    CellContent::Number(n2) => {},
                }
            },
        }
    }
    assert(a.cells =~= b.cells);
}

/// A click never reveals a mine: every cell that holds a mine is left as it was.
pub proof fn lemma_click_keeps_mines(m: BoardModel, idx: int)
    requires
        m.wf(),
        0 <= idx < m.cells.len(),
    ensures
        click_outcome(m, idx).1.len() == m.cells.len(),
        forall|j: int| 0 <= j < m.cells.len() && is_mine(m.cells[j]) ==> #[trigger] click_outcome(m, idx).1[j] == m.cells[j],
{
}

/// When a click opens a cell, that cell ends up revealed, and every cell the
/// click revealed that has no mine around it has all its neighbors revealed:
/// the opening spreads until it meets numbers.
pub proof fn lemma_opening_spreads(m: BoardModel, idx: int)
    requires
        m.wf(),
        0 <= idx < m.cells.len(),
        click_outcome(m, idx).0 == RevealResult::Opened,
    ensures
        click_outcome(m, idx).1[idx].state == CellState::Revealed,
        forall|j: int, n: int|
            0 <= j < m.cells.len() && #[trigger] is_unopened_zero(m.cells[j]) && click_outcome(m, idx).1[j].state == CellState::Revealed
                && #[trigger] m.neighbors(j, n) ==> click_outcome(m, idx).1[n].state == CellState::Revealed,
{
    let w = m.width as int;
    let h = m.height as int;
    let s = set![idx];
    let p0 = seq![idx];
    assert(is_trail(w, h, m.cells, p0));
    assert(opened(w, h, m.cells, s, idx));
    assert forall|j: int, n: int|
        0 <= j < m.cells.len() && #[trigger] is_unopened_zero(m.cells[j]) && click_outcome(m, idx).1[j].state == CellState::Revealed
            && #[trigger] m.neighbors(j, n) implies click_outcome(m, idx).1[n].state == CellState::Revealed by {
        assert(opened(w, h, m.cells, s, j));
        let p = choose|p: Seq<int>| #[trigger] is_trail(w, h, m.cells, p) && s.contains(p[0]) && p.last() == j;
        let q = p.push(n);
        assert(is_trail(w, h, m.cells, q)) by {
            assert forall|k: int| 0 <= k < q.len() - 1 implies crate::grid::is_neighbor(w, h, #[trigger] q[k], q[k + 1])
                && is_unopened_zero(m.cells[q[k]]) by {
                if k < p.len() - 1 {
                    assert(q[k] == p[k] && q[k + 1] == p[k + 1]);
                }
            }
            assert forall|k: int| 0 <= k < q.len() implies 0 <= #[trigger] q[k] < m.cells.len() by {
                if k < p.len() {
                    assert(q[k] == p[k]);
                }
            }
        }
        assert(q[0] == p[0]);
        assert(!is_mine(m.cells[n])) by {
            if is_mine(m.cells[n]) {
                lemma_adjacent_mines_bound(w, h, m.cells, j);
                assert(adjacent_mines(w, h, m.cells, j).contains(n));
                assert(m.cells[j].content == CellContent::Number(0));
            }
        }
        assert(opened(w, h, m.cells, s, n));
    }
}

/// A cell that nothing is known of is never on the frontier.
pub proof fn lemma_floating_not_frontier(m: BoardModel, i: int)
    requires
        is_floating(m, i),
    ensures
        !is_frontier(m, i),
{
    if is_frontier(m, i) {
        let c = choose|c: int| #[trigger] m.neighbors(i, c) && is_clue(m, c);
        assert(m.cells[c].state == CellState::Hidden);
    }
}

/// A trail that reaches a cell which a cascade from `a` opens, and that goes
/// on past it, ends at a cell that the cascade from `a` reaches too.
proof fn lemma_trail_through_opened(w: int, h: int, cells: Seq<Cell>, a: Set<int>, p: Seq<int>, k: int)
    requires
        is_trail(w, h, cells, p),
        0 <= k < p.len() - 1,
        reached(w, h, cells, a, p[k]),
    ensures
        reached(w, h, cells, a, p.last()),
{
    let q = choose|q: Seq<int>| #[trigger] is_trail(w, h, cells, q) && a.contains(q[0]) && q.last() == p[k];
    let tail = p.subrange(k + 1, p.len() as int);
    let r = q + tail;
    assert(r.len() == q.len() + tail.len());
    assert forall|i: int| 0 <= i < r.len() implies 0 <= #[trigger] r[i] < cells.len() by {
        if i < q.len() {
            assert(r[i] == q[i]);
        } else {
            assert(r[i] == p[k + 1 + (i - q.len())]);
        }
    }
    assert forall|i: int| 0 <= i < r.len() - 1 implies is_neighbor(w, h, #[trigger] r[i], r[i + 1]) && is_unopened_zero(
        cells[r[i]],
    ) by {
        if i < q.len() - 1 {
            assert(r[i] == q[i] && r[i + 1] == q[i + 1]);
        } else if i == q.len() - 1 {
            assert(r[i] == p[k] && r[i + 1] == p[k + 1]);
        } else {
            let t = i - q.len();
            assert(r[i] == p[k + 1 + t] && r[i + 1] == p[k + 2 + t]);
        }
    }
    assert(is_trail(w, h, cells, r));
    assert(r[0] == q[0]);
    assert(r.last() == p.last());
}

/// Opening the cascade from `a` and then the one from `b` opens exactly
/// what one cascade from both opens. So a chord, which opens the hidden
/// neighbors of a cell at once, opens what opening them one after another
/// would.
pub proof fn lemma_cascade_in_two_steps(w: int, h: int, cells: Seq<Cell>, a: Set<int>, b: Set<int>)
    ensures
        cascade(w, h, cascade(w, h, cells, a), b) == cascade(w, h, cells, a.union(b)),
{
    let c1 = cascade(w, h, cells, a);
    let lhs = cascade(w, h, c1, b);
    let rhs = cascade(w, h, cells, a.union(b));
    assert forall|j: int| 0 <= j < cells.len() implies #[trigger] lhs[j] == rhs[j] by {
        if opened(w, h, cells, a.union(b), j) {
            let p = choose|p: Seq<int>| #[trigger] is_trail(w, h, cells, p) && a.union(b).contains(p[0]) && p.last() == j;
            if !opened(w, h, cells, a, j) {
                assert(!a.contains(p[0]));
                if exists|k: int| 0 <= k < p.len() - 1 && #[trigger] reached(w, h, cells, a, p[k]) {
                    let k = choose|k: int| 0 <= k < p.len() - 1 && #[trigger] reached(w, h, cells, a, p[k]);
                    lemma_trail_through_opened(w, h, cells, a, p, k);
                } else {
                    assert forall|k: int| 0 <= k < p.len() - 1 implies is_neighbor(w, h, #[trigger] p[k], p[k + 1])
                        && is_unopened_zero(c1[p[k]]) by {
                        assert(!reached(w, h, cells, a, p[k]));
                    }
                    assert(is_trail(w, h, c1, p));
                    assert(opened(w, h, c1, b, j));
                }
            }
        } else {
            assert(!opened(w, h, cells, a, j)) by {
                if opened(w, h, cells, a, j) {
                    let q = choose|q: Seq<int>| #[trigger] is_trail(w, h, cells, q) && a.contains(q[0]) && q.last() == j;
                    assert(a.union(b).contains(q[0]));
                }
            }
            if opened(w, h, c1, b, j) {
                let p = choose|p: Seq<int>| #[trigger] is_trail(w, h, c1, p) && b.contains(p[0]) && p.last() == j;
                assert forall|k: int| 0 <= k < p.len() - 1 implies is_neighbor(w, h, #[trigger] p[k], p[k + 1])
                    && is_unopened_zero(cells[p[k]]) by {
                    assert(is_unopened_zero(c1[p[k]]));
                }
                assert(is_trail(w, h, cells, p));
                assert(a.union(b).contains(p[0]));
                assert(opened(w, h, cells, a.union(b), j));
            }
        }
    }
    assert(lhs =~= rhs);
}

/// Of the layouts of a segment with `k` mines, those with a mine on a given
/// cell are never more than all of them: the counts behind a probability
/// never exceed its whole.
pub proof fn lemma_tally_at_most_ways(m: BoardModel, seg: Seq<usize>, p: Seq<bool>, k: nat, i: int)
    ensures
        mine_tally(m, seg, p, k, i) <= valid_layouts(m, seg, p, k),
    decreases seg.len() - p.len(),
{
    if p.len() < seg.len() {
        lemma_tally_at_most_ways(m, seg, p.push(false), k, i);
        lemma_tally_at_most_ways(m, seg, p.push(true), k, i);
    }
}

/// The tallies of the first `n` positions of a segment.
pub open spec fn tally_total(m: BoardModel, seg: Seq<usize>, p: Seq<bool>, k: nat, n: int) -> nat
    decreases n,
{
    if n <= 0 {
        0
    } else {
        tally_total(m, seg, p, k, n - 1) + mine_tally(m, seg, p, k, n - 1)
    }
}

/// The mines among the first `n` entries of a layout.
pub open spec fn mines_upto(p: Seq<bool>, n: int) -> nat
    decreases n,
{
    if n <= 0 {
        0
    } else {
        mines_upto(p, n - 1) + if p[n - 1] {
            1nat
        } else {
            0nat
        }
    }
}

proof fn lemma_mines_upto_prefix(p: Seq<bool>, q: Seq<bool>, n: int)
    requires
        0 <= n <= p.len(),
        n <= q.len(),
        forall|i: int| 0 <= i < n ==> p[i] == q[i],
    ensures
        mines_upto(p, n) == mines_upto(q, n),
    decreases n,
{
    if n > 0 {
        lemma_mines_upto_prefix(p, q, n - 1);
    }
}

proof fn lemma_popcount_is_mines_upto(p: Seq<bool>)
    ensures
        popcount(p) == mines_upto(p, p.len() as int),
    decreases p.len(),
{
    if p.len() > 0 {
        let d = p.drop_last();
        lemma_popcount_is_mines_upto(d);
        lemma_mines_upto_prefix(p, d, d.len() as int);
    }
}

proof fn lemma_tally_total_split(m: BoardModel, seg: Seq<usize>, p: Seq<bool>, k: nat, n: int)
    requires
        p.len() < seg.len(),
    ensures
        tally_total(m, seg, p, k, n) == tally_total(m, seg, p.push(false), k, n) + tally_total(m, seg, p.push(true), k, n),
    decreases n,
{
    if n > 0 {
        lemma_tally_total_split(m, seg, p, k, n - 1);
    }
}

proof fn lemma_tally_total_leaf(m: BoardModel, seg: Seq<usize>, p: Seq<bool>, k: nat, n: int)
    requires
        p.len() >= seg.len(),
        0 <= n <= p.len(),
    ensures
        tally_total(m, seg, p, k, n) == (if layout_fits(m, seg, p) && popcount(p) == k { mines_upto(p, n) } else { 0 }),
    decreases n,
{
    if n > 0 {
        lemma_tally_total_leaf(m, seg, p, k, n - 1);
    }
}

/// Summed over the cells of a segment, the tallies of the layouts with `k`
/// mines come to `k` times the number of those layouts: every such layout
/// puts its `k` mines on `k` positions.
pub proof fn lemma_tallies_sum_to_mines(m: BoardModel, seg: Seq<usize>, p: Seq<bool>, k: nat)
    requires
        p.len() <= seg.len(),
    ensures
        tally_total(m, seg, p, k, seg.len() as int) == k * valid_layouts(m, seg, p, k),
    decreases seg.len() - p.len(),
{
    if p.len() == seg.len() {
        lemma_tally_total_leaf(m, seg, p, k, seg.len() as int);
        lemma_popcount_is_mines_upto(p);
        if layout_fits(m, seg, p) && popcount(p) == k {
            assert(valid_layouts(m, seg, p, k) == 1);
            assert(k * 1 == k);
        } else {
            assert(valid_layouts(m, seg, p, k) == 0);
            assert(k * 0 == 0);
        }
    } else {
        lemma_tally_total_split(m, seg, p, k, seg.len() as int);
        lemma_tallies_sum_to_mines(m, seg, p.push(false), k);
        lemma_tallies_sum_to_mines(m, seg, p.push(true), k);
        assert(k * valid_layouts(m, seg, p, k) == k * valid_layouts(m, seg, p.push(false), k) + k * valid_layouts(
            m,
            seg,
            p.push(true),
            k,
        )) by (nonlinear_arith)
            requires
                valid_layouts(m, seg, p, k) == valid_layouts(m, seg, p.push(false), k) + valid_layouts(m, seg, p.push(true), k),
        ;
    }
}

/// A cascade from a cell that is already revealed changes nothing. With
/// the two-step law above, opening the hidden neighbors of a chorded cell one
/// after another, skipping those an earlier opening revealed, gives the
/// board that opening them all at once gives.
pub proof fn lemma_cascade_from_revealed(w: int, h: int, cells: Seq<Cell>, i: int)
    requires
        0 <= i < cells.len(),
        cells[i].state == CellState::Revealed,
    ensures
        cascade(w, h, cells, set![i]) == cells,
{
    let c = cascade(w, h, cells, set![i]);
    assert forall|j: int| 0 <= j < cells.len() implies #[trigger] c[j] == cells[j] by {
        if opened(w, h, cells, set![i], j) {
            let p = choose|p: Seq<int>| #[trigger] is_trail(w, h, cells, p) && set![i].contains(p[0]) && p.last() == j;
            if p.len() > 1 {
                assert(is_unopened_zero(cells[p[0]]));
            }
            assert(j == i);
        }
    }
    assert(c =~= cells);
}

/// A board with any hidden cell that holds no mine, wherever it lies, is not
/// won; a board where no such cell is left is.
pub proof fn lemma_win_needs_every_safe_cell(m: BoardModel, j: int)
    ensures
        0 <= j < m.cells.len() && m.cells[j].content != CellContent::Mine && m.cells[j].state == CellState::Hidden
            ==> !no_safe_cell_hidden(m),
        (forall|i: int| 0 <= i < m.cells.len() && #[trigger] m.cells[i].content != CellContent::Mine ==> m.cells[i].state
            != CellState::Hidden) ==> no_safe_cell_hidden(m),
{
    if 0 <= j < m.cells.len() && m.cells[j].content != CellContent::Mine && m.cells[j].state == CellState::Hidden {
        assert(!is_mine(m.cells[j]));
    }
    if forall|i: int| 0 <= i < m.cells.len() && #[trigger] m.cells[i].content != CellContent::Mine ==> m.cells[i].state
        != CellState::Hidden {
        assert forall|i: int| 0 <= i < m.cells.len() && !is_mine(#[trigger] m.cells[i]) implies m.cells[i].state
            != CellState::Hidden by {
            assert(m.cells[i].content != CellContent::Mine);
        }
    }
}

/// Every hidden or flagged cell next to a revealed number is on the
/// frontier, and every frontier cell is hidden or flagged.
pub proof fn lemma_frontier_is_covered_next_to_number(m: BoardModel, i: int, c: int)
    requires
        m.wf(),
    ensures
        0 <= i < m.cells.len() && (m.cells[i].state == CellState::Hidden || m.cells[i].state == CellState::Flagged)
            && is_neighbor(m.width as int, m.height as int, i, c) && m.cells[c].state == CellState::Revealed
            && m.cells[c].content is Number ==> is_frontier(m, i),
        is_frontier(m, i) ==> m.cells[i].state == CellState::Hidden || m.cells[i].state == CellState::Flagged,
        is_frontier(m, i) ==> m.cells[i].state != CellState::Revealed,
{
    if 0 <= i < m.cells.len() && (m.cells[i].state == CellState::Hidden || m.cells[i].state == CellState::Flagged)
        && is_neighbor(m.width as int, m.height as int, i, c) && m.cells[c].state == CellState::Revealed
        && m.cells[c].content is Number {
        assert(m.neighbors(i, c));
        assert(is_clue(m, c));
    }
}

/// The positions of a segment, each cell counted once, that lie next to cell
/// `c` and that the layout `p` marks as mines. The states of the cells play
/// no part.
pub open spec fn marked_next_to(m: BoardModel, seg: Seq<usize>, p: Seq<bool>, c: int) -> Set<int> {
    Set::new(
        |i: int|
            0 <= i < seg.len() && (forall|q: int| 0 <= q < i ==> seg[q] != seg[i]) && is_neighbor(
                m.width as int,
                m.height as int,
                c,
                seg[i] as int,
            ) && p[i],
    )
}

proof fn lemma_mines_for_counts_marked(m: BoardModel, seg: Seq<usize>, p: Seq<bool>, c: int, k: int)
    requires
        0 <= k <= seg.len(),
        p.len() == seg.len(),
    ensures
        mines_for(m, seg, p, c, k) == below(
            k,
            |i: int| first_at(seg, i) && is_neighbor(m.width as int, m.height as int, c, seg[i] as int) && p[i],
        ).len(),
    decreases k,
{
    let f = |i: int| first_at(seg, i) && is_neighbor(m.width as int, m.height as int, c, seg[i] as int) && p[i];
    if k == 0 {
        lemma_below_zero(f);
    } else {
        lemma_mines_for_counts_marked(m, seg, p, c, k - 1);
        lemma_below_step(k - 1, f);
        assert(counts_for(m, seg, c, k - 1) && p[k - 1] <==> f(k - 1));
    }
}

proof fn lemma_open_for_at_end(m: BoardModel, seg: Seq<usize>, c: int)
    ensures
        open_for(m, seg, c, seg.len() as int) == 0,
{
}

/// The number a revealed cell shows.
pub open spec fn shown_number(c: Cell) -> int {
    match c.content {
        CellContent::Number(v) => v as int,
        CellContent::Mine => 0,
    }
}

/// Cell `c` is a revealed number next to some cell of the segment.
pub open spec fn number_next_to(m: BoardModel, seg: Seq<usize>, c: int) -> bool {
    &&& 0 <= c < m.cells.len()
    &&& m.cells[c].state == CellState::Revealed
    &&& m.cells[c].content is Number
    &&& exists|i: int| 0 <= i < seg.len() && #[trigger] is_neighbor(m.width as int, m.height as int, seg[i] as int, c)
}

/// A layout of the whole segment fits exactly when every revealed number
/// next to the segment sees, among the segment's cells (hidden and flagged
/// alike), exactly as many cells marked as mines as it shows.
pub proof fn lemma_full_layout_fits(m: BoardModel, seg: Seq<usize>, p: Seq<bool>)
    requires
        p.len() == seg.len(),
    ensures
        layout_fits(m, seg, p) <==> forall|c: int|
            #[trigger] number_next_to(m, seg, c) ==> marked_next_to(m, seg, p, c).len() == shown_number(m.cells[c]),
{
    let w = m.width as int;
    let h = m.height as int;
    assert forall|c: int| #[trigger] marked_next_to(m, seg, p, c) == below(
        seg.len() as int,
        |i: int| first_at(seg, i) && is_neighbor(w, h, c, seg[i] as int) && p[i],
    ) by {
        assert(marked_next_to(m, seg, p, c) =~= below(
            seg.len() as int,
            |i: int| first_at(seg, i) && is_neighbor(w, h, c, seg[i] as int) && p[i],
        ));
    }
    assert forall|c: int| mines_for(m, seg, p, c, p.len() as int) == #[trigger] marked_next_to(m, seg, p, c).len() by {
        lemma_mines_for_counts_marked(m, seg, p, c, seg.len() as int);
    }
    assert forall|c: int| #[trigger] number_next_to(m, seg, c) <==> segment_clue(m, seg, c) by {
        if number_next_to(m, seg, c) {
            let i = choose|i: int| 0 <= i < seg.len() && #[trigger] is_neighbor(w, h, seg[i] as int, c);
            assert(m.neighbors(seg[i] as int, c));
        }
        if segment_clue(m, seg, c) {
            let i = choose|i: int| 0 <= i < seg.len() && #[trigger] m.neighbors(seg[i] as int, c);
            assert(is_neighbor(w, h, seg[i] as int, c));
        }
    }
    assert forall|c: int| #[trigger] segment_clue(m, seg, c) implies open_for(m, seg, c, p.len() as int) == 0 && clue_value(m, c)
        == shown_number(m.cells[c]) by {
        lemma_open_for_at_end(m, seg, c);
    }
    if layout_fits(m, seg, p) {
        assert forall|c: int| #[trigger] number_next_to(m, seg, c) implies marked_next_to(m, seg, p, c).len() == shown_number(
            m.cells[c],
        ) by {
            assert(segment_clue(m, seg, c));
            assert(mines_for(m, seg, p, c, p.len() as int) == marked_next_to(m, seg, p, c).len());
        }
    }
    if forall|c: int|
        #[trigger] number_next_to(m, seg, c) ==> marked_next_to(m, seg, p, c).len() == shown_number(m.cells[c]) {
        assert forall|c: int| #[trigger] segment_clue(m, seg, c) implies mines_for(m, seg, p, c, p.len() as int) <= clue_value(m, c)
            <= mines_for(m, seg, p, c, p.len() as int) + open_for(m, seg, c, p.len() as int) by {
            assert(number_next_to(m, seg, c));
            assert(mines_for(m, seg, p, c, p.len() as int) == marked_next_to(m, seg, p, c).len());
        }
    }
}

} // verus!
