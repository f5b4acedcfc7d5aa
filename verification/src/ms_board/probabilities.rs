//! The counting behind the mine probabilities of hidden cells: the frontier
//! of hidden cells next to revealed numbers, its independent segments, and
//! the number of mine layouts each segment allows.
use vstd::prelude::*;

use std::collections::HashMap;

use super::{Board, BoardModel, CellContent, CellState};
use crate::grid::{are_neighbors, is_neighbor, neighbor_list, neighbor_rank};

verus! {

broadcast use vstd::std_specs::hash::group_hash_axioms;

/// Cell `c` is a revealed number: a clue.
pub open spec fn is_clue(m: BoardModel, c: int) -> bool {
    &&& 0 <= c < m.cells.len()
    &&& m.cells[c].state == CellState::Revealed
    &&& m.cells[c].content is Number
}

/// Cell `i` is hidden or flagged.
pub open spec fn is_covered(m: BoardModel, i: int) -> bool {
    m.cells[i].state == CellState::Hidden || m.cells[i].state == CellState::Flagged
}

/// Cell `i` touches a clue.
pub open spec fn touches_clue(m: BoardModel, i: int) -> bool {
    exists|c: int| #[trigger] m.neighbors(i, c) && is_clue(m, c)
}

/// Cell `i` is on the frontier: covered, and next to a clue.
pub open spec fn is_frontier(m: BoardModel, i: int) -> bool {
    0 <= i < m.cells.len() && is_covered(m, i) && touches_clue(m, i)
}

/// Distinct cells `a` and `b` share a clue.
pub open spec fn linked(m: BoardModel, a: int, b: int) -> bool {
    a != b && exists|c: int| #[trigger] is_clue(m, c) && m.neighbors(a, c) && m.neighbors(c, b)
}

/// Cell `i` is hidden and so are all its neighbors: nothing is known of it.
pub open spec fn is_floating(m: BoardModel, i: int) -> bool {
    &&& 0 <= i < m.cells.len()
    &&& m.cells[i].state == CellState::Hidden
    &&& forall|j: int| #[trigger] m.neighbors(i, j) ==> m.cells[j].state == CellState::Hidden
}

/// The integers in `[0, k)` that satisfy `f`.
pub open spec fn below(k: int, f: spec_fn(int) -> bool) -> Set<int> {
    Set::new(|i: int| 0 <= i < k && f(i))
}

/// Counting up to `k + 1` adds `k` when it satisfies `f`.
pub proof fn lemma_below_step(k: int, f: spec_fn(int) -> bool)
    requires
        0 <= k,
    ensures
        below(k, f).finite(),
        below(k + 1, f).finite(),
        f(k) ==> below(k + 1, f).len() == below(k, f).len() + 1,
        !f(k) ==> below(k + 1, f).len() == below(k, f).len(),
        below(k, f).len() <= k,
{
    vstd::set_lib::lemma_int_range(0, k);
    vstd::set_lib::lemma_int_range(0, k + 1);
    vstd::set_lib::lemma_len_subset(below(k, f), vstd::set_lib::set_int_range(0, k));
    vstd::set_lib::lemma_len_subset(below(k + 1, f), vstd::set_lib::set_int_range(0, k + 1));
    if f(k) {
        assert(below(k + 1, f) =~= below(k, f).insert(k));
    } else {
        assert(below(k + 1, f) =~= below(k, f));
    }
}

pub proof fn lemma_below_zero(f: spec_fn(int) -> bool)
    ensures
        below(0, f) == Set::<int>::empty(),
{
    assert(below(0, f) =~= Set::<int>::empty());
}

pub open spec fn floating_pred(m: BoardModel) -> spec_fn(int) -> bool {
    |i: int| is_floating(m, i)
}

pub open spec fn flagged_pred(m: BoardModel) -> spec_fn(int) -> bool {
    |i: int| m.cells[i].state == CellState::Flagged
}

/// The covered cells that nothing is known of.
pub open spec fn floating_cells(m: BoardModel) -> Set<int> {
    below(m.cells.len() as int, floating_pred(m))
}

/// The flagged cells.
pub open spec fn flagged_cells(m: BoardModel) -> Set<int> {
    below(m.cells.len() as int, flagged_pred(m))
}

/// The mines not yet accounted for by a flag, never below zero.
pub open spec fn mines_remaining(m: BoardModel) -> nat {
    if flagged_cells(m).len() <= m.mines {
        (m.mines - flagged_cells(m).len()) as nat
    } else {
        0
    }
}

/// `v` lists, in increasing order, exactly the cells that satisfy `f`.
pub open spec fn lists_in_order(v: Seq<usize>, n: int, f: spec_fn(int) -> bool) -> bool {
    &&& forall|a: int, b: int| 0 <= a < b < v.len() ==> v[a] < v[b]
    &&& forall|j: usize| v.contains(j) <==> (j < n && f(j as int))
}


/// Some segment lists `x`.
pub open spec fn in_some_segment(segs: Seq<Vec<usize>>, x: usize) -> bool {
    exists|s: int| 0 <= s < segs.len() && #[trigger] segs[s]@.contains(x)
}

/// Each segment is non-empty, lists frontier cells only, and no cell twice;
/// no cell is listed by two segments.
pub open spec fn segments_disjoint(frontier: Seq<usize>, segs: Seq<Vec<usize>>) -> bool {
    &&& forall|s: int| 0 <= s < segs.len() ==> (#[trigger] segs[s])@.len() > 0 && segs[s]@.no_duplicates()
    &&& forall|s: int, k: int| 0 <= s < segs.len() && 0 <= k < segs[s]@.len() ==> frontier.contains(#[trigger] segs[s]@[k])
    &&& forall|s1: int, s2: int, x: usize|
        0 <= s1 < segs.len() && 0 <= s2 < segs.len() && s1 != s2 && #[trigger] segs[s1]@.contains(x) ==> !#[trigger] segs[s2]@.contains(x)
}

/// Whether a cell is a clue.
pub open spec fn clue_pred(m: BoardModel) -> spec_fn(usize) -> bool {
    |c: usize| is_clue(m, c as int)
}

/// Whether a cell lies on the frontier and is not `cell`.
pub open spec fn other_frontier_pred(frontier: Seq<usize>, cell: int) -> spec_fn(usize) -> bool {
    |n: usize| frontier.contains(n) && n as int != cell
}

/// The clues around cell `i`, in the order of its neighbors.
pub open spec fn clue_list(m: BoardModel, i: int) -> Seq<usize> {
    neighbor_list(m.width as int, m.height as int, i).filter(clue_pred(m))
}

/// For each clue of `clues` in turn, its neighbors, in their order, that lie
/// on the frontier and are not `cell`.
pub open spec fn links_through(m: BoardModel, frontier: Seq<usize>, cell: int, clues: Seq<usize>) -> Seq<usize>
    decreases clues.len(),
{
    if clues.len() == 0 {
        seq![]
    } else {
        links_through(m, frontier, cell, clues.drop_last()) + neighbor_list(m.width as int, m.height as int, clues.last() as int).filter(
            other_frontier_pred(frontier, cell),
        )
    }
}

/// Each segment holds, with any of its cells, every frontier cell linked to it.
pub open spec fn segments_closed(m: BoardModel, frontier: Seq<usize>, segs: Seq<Vec<usize>>) -> bool {
    forall|s: int, x: usize, b: usize|
        0 <= s < segs.len() && #[trigger] segs[s]@.contains(x) && frontier.contains(b) && #[trigger] linked(m, x as int, b as int)
            ==> segs[s]@.contains(b)
}

/// Entry `k` of `v` is linked to an entry listed before it.
pub open spec fn linked_to_earlier(m: BoardModel, v: Seq<usize>, k: int) -> bool {
    exists|q: int| 0 <= q < k && #[trigger] linked(m, v[q] as int, v[k] as int)
}

/// Every cell of a segment but the first is linked to a cell listed before it.
pub open spec fn segments_connected(m: BoardModel, segs: Seq<Vec<usize>>) -> bool {
    forall|s: int, k: int| 0 <= s < segs.len() && 1 <= k < segs[s]@.len() ==> #[trigger] linked_to_earlier(m, segs[s]@, k)
}

/// The frontier cells that share a clue with `x`, clue by clue.
pub open spec fn shared_clue_cells(m: BoardModel, frontier: Seq<usize>, x: int) -> Seq<usize> {
    links_through(m, frontier, x, clue_list(m, x))
}

/// Entry `p` is the earliest entry of `v` linked to entry `k`, which comes
/// after it.
pub open spec fn first_link(m: BoardModel, v: Seq<usize>, k: int, p: int) -> bool {
    &&& 0 <= p < k
    &&& linked(m, v[p] as int, v[k] as int)
    &&& forall|q: int| 0 <= q < p ==> !#[trigger] linked(m, v[q] as int, v[k] as int)
}

/// In `list`, `x` turns up before any occurrence of `y`.
pub open spec fn comes_before(list: Seq<usize>, x: usize, y: usize) -> bool {
    forall|t: int| 0 <= t < list.len() && #[trigger] list[t] == y ==> exists|u: int| 0 <= u < t && list[u] == x
}

/// The segment lists its cells breadth first: every entry after the first
/// hangs on the earliest entry linked to it; entries hanging on earlier
/// entries come first, and those hanging on the same entry come in the order
/// in which that entry's shared clues list them.
pub open spec fn breadth_first(m: BoardModel, frontier: Seq<usize>, v: Seq<usize>) -> bool {
    forall|a: int, b: int, pa: int, pb: int|
        1 <= a < b < v.len() && #[trigger] first_link(m, v, a, pa) && #[trigger] first_link(m, v, b, pb) ==> pa <= pb && (pa == pb
            ==> comes_before(shared_clue_cells(m, frontier, v[pa] as int), v[a], v[b]))
}

/// Each segment starts with the earliest frontier cell that no segment before
/// it holds.
pub open spec fn segments_in_order(frontier: Seq<usize>, segs: Seq<Vec<usize>>) -> bool {
    forall|s: int|
        0 <= s < segs.len() ==> exists|i: int|
            0 <= i < frontier.len() && frontier[i] == (#[trigger] segs[s])@[0] && forall|q: int|
                0 <= q < i ==> in_some_segment(segs.take(s), #[trigger] frontier[q])
}

/// The segments are exactly the groups of frontier cells that are linked to one
/// another through shared clues: they cover the frontier, do not overlap, and
/// each is closed under links and connected; they come in the order of their
/// first cells on the frontier, and each lists its cells breadth first.
pub open spec fn frontier_segments(m: BoardModel, frontier: Seq<usize>, segs: Seq<Vec<usize>>) -> bool {
    &&& segments_disjoint(frontier, segs)
    &&& segments_closed(m, frontier, segs)
    &&& segments_connected(m, segs)
    &&& forall|x: usize| frontier.contains(x) ==> in_some_segment(segs, x)
    &&& segments_in_order(frontier, segs)
    &&& forall|s: int| 0 <= s < segs.len() ==> breadth_first(m, frontier, (#[trigger] segs[s])@)
}

pub proof fn lemma_linked_symmetric(m: BoardModel, a: int, b: int)
    requires
        linked(m, a, b),
    ensures
        linked(m, b, a),
{
    let c = choose|c: int| #[trigger] is_clue(m, c) && m.neighbors(a, c) && m.neighbors(c, b);
    assert(is_clue(m, c) && m.neighbors(b, c) && m.neighbors(c, a));
}

/// The clues that touch some cell of the segment.
pub open spec fn segment_clue(m: BoardModel, seg: Seq<usize>, c: int) -> bool {
    is_clue(m, c) && exists|i: int| 0 <= i < seg.len() && #[trigger] m.neighbors(seg[i] as int, c)
}

/// Position `i` of the segment holds the first listing of its cell.
pub open spec fn first_at(seg: Seq<usize>, i: int) -> bool {
    forall|j: int| 0 <= j < i ==> seg[j] != seg[i]
}

/// Position `i` of the segment lists a cell next to clue `c`, for the first time.
pub open spec fn counts_for(m: BoardModel, seg: Seq<usize>, c: int, i: int) -> bool {
    first_at(seg, i) && m.neighbors(c, seg[i] as int)
}

/// The mines a layout puts next to clue `c` among the first `k` positions.
pub open spec fn mines_for(m: BoardModel, seg: Seq<usize>, layout: Seq<bool>, c: int, k: int) -> int
    decreases k,
{
    if k <= 0 {
        0
    } else {
        mines_for(m, seg, layout, c, k - 1) + if counts_for(m, seg, c, k - 1) && layout[k - 1] {
            1int
        } else {
            0int
        }
    }
}

/// The positions from `k` on whose cell lies next to clue `c`.
pub open spec fn open_for(m: BoardModel, seg: Seq<usize>, c: int, k: int) -> int
    decreases seg.len() - k,
{
    if k >= seg.len() {
        0
    } else {
        open_for(m, seg, c, k + 1) + if counts_for(m, seg, c, k) {
            1int
        } else {
            0int
        }
    }
}

/// The number a clue shows.
pub open spec fn clue_value(m: BoardModel, c: int) -> int {
    match m.cells[c].content {
        CellContent::Number(v) => v as int,
        CellContent::Mine => 0,
    }
}

/// A layout of the first `p.len()` cells of the segment can still be completed
/// without contradicting a clue: no clue has more mines next to it than it
/// shows, nor fewer than it shows with every undecided cell a mine. For a
/// layout of the whole segment, every clue shows exactly its mines.
pub open spec fn layout_fits(m: BoardModel, seg: Seq<usize>, p: Seq<bool>) -> bool {
    forall|c: int|
        #[trigger] segment_clue(m, seg, c) ==> mines_for(m, seg, p, c, p.len() as int) <= clue_value(m, c)
            <= mines_for(m, seg, p, c, p.len() as int) + open_for(m, seg, c, p.len() as int)
}

/// The number of mines in a layout.
pub open spec fn popcount(p: Seq<bool>) -> nat
    decreases p.len(),
{
    if p.len() == 0 {
        0
    } else {
        popcount(p.drop_last()) + if p.last() {
            1nat
        } else {
            0nat
        }
    }
}

/// The layouts of the whole segment that begin with `p`, fit every clue, and
/// hold `k` mines.
pub open spec fn valid_layouts(m: BoardModel, seg: Seq<usize>, p: Seq<bool>, k: nat) -> nat
    decreases seg.len() - p.len(),
{
    if p.len() >= seg.len() {
        if layout_fits(m, seg, p) && popcount(p) == k {
            1
        } else {
            0
        }
    } else {
        valid_layouts(m, seg, p.push(false), k) + valid_layouts(m, seg, p.push(true), k)
    }
}

/// Of those layouts, the ones with a mine at position `i`.
pub open spec fn mine_tally(m: BoardModel, seg: Seq<usize>, p: Seq<bool>, k: nat, i: int) -> nat
    decreases seg.len() - p.len(),
{
    if p.len() >= seg.len() {
        if layout_fits(m, seg, p) && popcount(p) == k && p[i] {
            1
        } else {
            0
        }
    } else {
        mine_tally(m, seg, p.push(false), k, i) + mine_tally(m, seg, p.push(true), k, i)
    }
}

/// What a layout puts next to a clue among its first `k` cells depends on those cells only.
pub proof fn lemma_mines_for_prefix(m: BoardModel, seg: Seq<usize>, a: Seq<bool>, b: Seq<bool>, c: int, k: int)
    requires
        0 <= k <= a.len(),
        k <= b.len(),
        forall|i: int| 0 <= i < k ==> a[i] == b[i],
    ensures
        mines_for(m, seg, a, c, k) == mines_for(m, seg, b, c, k),
    decreases k,
{
    if k > 0 {
        lemma_mines_for_prefix(m, seg, a, b, c, k - 1);
    }
}

/// A layout that cannot be completed has no valid completion.
pub proof fn lemma_unfit_prefix(m: BoardModel, seg: Seq<usize>, p: Seq<bool>, k: nat, i: int)
    requires
        p.len() <= seg.len(),
        !layout_fits(m, seg, p),
    ensures
        valid_layouts(m, seg, p, k) == 0,
        mine_tally(m, seg, p, k, i) == 0,
    decreases seg.len() - p.len(),
{
    if p.len() < seg.len() {
        let c = choose|c: int|
            #[trigger] segment_clue(m, seg, c) && !(mines_for(m, seg, p, c, p.len() as int) <= clue_value(m, c)
                <= mines_for(m, seg, p, c, p.len() as int) + open_for(m, seg, c, p.len() as int));
        let d = p.len() as int;
        assert forall|b: bool| !layout_fits(m, seg, #[trigger] p.push(b)) by {
            let q = p.push(b);
            lemma_mines_for_prefix(m, seg, q, p, c, d);
            assert(mines_for(m, seg, q, c, d + 1) == mines_for(m, seg, q, c, d) + if counts_for(m, seg, c, d) && q[d] {
                1int
            } else {
                0int
            });
            assert(open_for(m, seg, c, d) == open_for(m, seg, c, d + 1) + if counts_for(m, seg, c, d) {
                1int
            } else {
                0int
            });
            assert(q.len() == d + 1);
            assert(segment_clue(m, seg, c));
        }
        lemma_unfit_prefix(m, seg, p.push(false), k, i);
        lemma_unfit_prefix(m, seg, p.push(true), k, i);
    }
}

/// The cells of a segment, the number of layouts that fit the clues for each
/// number of mines, and for each such number how many of those layouts put a
/// mine on each cell of the segment.
#[derive(Debug, Clone, PartialEq)]
pub struct SegmentResult {
    pub cell_indices: Vec<usize>,
    pub total_ways_per_mine_count: HashMap<usize, usize>,
    pub cell_mine_tallies_by_count: HashMap<usize, Vec<usize>>,
}

/// `res` lists the cells of segment `seg`, and for each number of mines `k`
/// that some fitting layout has, the number of those layouts and, per
/// position, how many of them put a mine there.
pub open spec fn orientations_of(m: BoardModel, seg: Seq<usize>, res: SegmentResult) -> bool {
    &&& res.cell_indices@ == seg
    &&& forall|k: usize|
        res.total_ways_per_mine_count@.contains_key(k) <==> (k <= seg.len() && valid_layouts(m, seg, Seq::empty(), k as nat) > 0)
    &&& forall|k: usize|
        #[trigger] res.total_ways_per_mine_count@.contains_key(k) ==> res.total_ways_per_mine_count@[k] == valid_layouts(
            m,
            seg,
            Seq::empty(),
            k as nat,
        )
    &&& forall|k: usize| res.cell_mine_tallies_by_count@.contains_key(k) <==> res.total_ways_per_mine_count@.contains_key(k)
    &&& forall|k: usize|
        #[trigger] res.cell_mine_tallies_by_count@.contains_key(k) ==> res.cell_mine_tallies_by_count@[k]@.len() == seg.len()
    &&& forall|k: usize, i: int|
        res.cell_mine_tallies_by_count@.contains_key(k) && 0 <= i < seg.len() ==> #[trigger] res.cell_mine_tallies_by_count@[k]@[i]
            == mine_tally(m, seg, Seq::empty(), k as nat, i)
}

impl Board {
    /// Whether cell `idx` touches a revealed number.
    pub fn is_touching_revealed_number(&self, idx: usize) -> (r: bool)
        requires
            self@.wf(),
            idx < self@.len(),
        ensures
            r == touches_clue(self@, idx as int),
    {
        let nbrs = self.get_neighbors_indices(idx);
        let mut k: usize = 0;
        while k < nbrs.len()
            invariant
                self@.wf(),
                k <= nbrs@.len(),
                forall|j: usize| nbrs@.contains(j) <==> self@.neighbors(idx as int, j as int),
                forall|q: int| 0 <= q < nbrs@.len() ==> self@.neighbors(idx as int, #[trigger] nbrs@[q] as int),
                forall|q: int| 0 <= q < k ==> !is_clue(self@, #[trigger] nbrs@[q] as int),
            decreases nbrs@.len() - k,
        {
            let n = nbrs[k];
            let c = self.cell(n);
            proof {
                assert(self@.neighbors(idx as int, nbrs@[k as int] as int));
            }
            if c.state == CellState::Revealed {
                match c.content {
                    CellContent::Number(_) => {
                        return true;
                    },
                    CellContent::Mine => {},
                }
            }
            k = k + 1;
        }
        proof {
            if touches_clue(self@, idx as int) {
                let c = choose|c: int| #[trigger] self@.neighbors(idx as int, c) && is_clue(self@, c);
                assert(nbrs@.contains(c as usize));
                let q = choose|q: int| 0 <= q < nbrs@.len() && nbrs@[q] == c as usize;
                assert(!is_clue(self@, nbrs@[q] as int));
            }
        }
        false
    }

    /// The revealed numbers among the neighbors of cell `idx`.
    pub fn get_adjacent_revealed_numbers(&self, idx: usize) -> (r: Vec<usize>)
        requires
            self@.wf(),
            idx < self@.len(),
        ensures
            r@.no_duplicates(),
            forall|j: usize| r@.contains(j) <==> (self@.neighbors(idx as int, j as int) && is_clue(self@, j as int)),
            forall|q: int| 0 <= q < r@.len() ==> self@.neighbors(idx as int, #[trigger] r@[q] as int) && is_clue(self@, r@[q] as int),
            forall|a: int, b: int|
                0 <= a < b < r@.len() ==> neighbor_rank(self@.width as int, idx as int, r@[a] as int) < neighbor_rank(
                    self@.width as int,
                    idx as int,
                    r@[b] as int,
                ),
            r@ == clue_list(self@, idx as int),
    {
        let nbrs = self.get_neighbors_indices(idx);
        let ghost pred = clue_pred(self@);
        proof {
            reveal(Seq::filter);
            assert(nbrs@.take(0) =~= Seq::<usize>::empty());
        }
        let mut out: Vec<usize> = Vec::new();
        let mut k: usize = 0;
        while k < nbrs.len()
            invariant
                self@.wf(),
                k <= nbrs@.len(),
                nbrs@.no_duplicates(),
                forall|j: usize| nbrs@.contains(j) <==> self@.neighbors(idx as int, j as int),
                forall|q: int| 0 <= q < nbrs@.len() ==> self@.neighbors(idx as int, #[trigger] nbrs@[q] as int),
                out@.no_duplicates(),
                forall|q: int| 0 <= q < out@.len() ==> self@.neighbors(idx as int, #[trigger] out@[q] as int) && is_clue(self@, out@[q] as int),
                forall|j: usize| out@.contains(j) <==> (exists|q: int| 0 <= q < k && nbrs@[q] == j && is_clue(self@, j as int)),
                forall|a: int, b: int|
                    0 <= a < b < nbrs@.len() ==> neighbor_rank(self@.width as int, idx as int, nbrs@[a] as int) < neighbor_rank(
                        self@.width as int,
                        idx as int,
                        nbrs@[b] as int,
                    ),
                forall|a: int, b: int|
                    0 <= a < b < out@.len() ==> neighbor_rank(self@.width as int, idx as int, out@[a] as int) < neighbor_rank(
                        self@.width as int,
                        idx as int,
                        out@[b] as int,
                    ),
                forall|q: int, t: int|
                    0 <= q < out@.len() && k <= t < nbrs@.len() ==> neighbor_rank(self@.width as int, idx as int, out@[q] as int)
                        < neighbor_rank(self@.width as int, idx as int, nbrs@[t] as int),
                pred == clue_pred(self@),
                out@ == nbrs@.take(k as int).filter(pred),
            decreases nbrs@.len() - k,
        {
            let n = nbrs[k];
            let c = self.cell(n);
            let ghost before = out@;
            let is_number = match c.content {
                CellContent::Number(_) => true,
                CellContent::Mine => false,
            };
            if c.state == CellState::Revealed && is_number {
                proof {
                    assert(!before.contains(n)) by {
                        if before.contains(n) {
                            let q = choose|q: int| 0 <= q < k && nbrs@[q] == n && is_clue(self@, n as int);
                            assert(nbrs@[q] == nbrs@[k as int]);
                        }
                    }
                }
                out.push(n);
            }
            proof {
                assert forall|q: int| 0 <= q < out@.len() implies self@.neighbors(idx as int, #[trigger] out@[q] as int) && is_clue(self@, out@[q] as int) by {
                    if q < before.len() {
                        assert(out@[q] == before[q]);
                    }
                }
                assert forall|j: usize| out@.contains(j) <==> (exists|q: int| 0 <= q < k + 1 && nbrs@[q] == j && is_clue(self@, j as int)) by {
                    if out@.contains(j) {
                        let p = choose|p: int| 0 <= p < out@.len() && out@[p] == j;
                        if p < before.len() {
                            assert(before[p] == j);
                            assert(before.contains(j));
                            let q = choose|q: int| 0 <= q < k && nbrs@[q] == j && is_clue(self@, j as int);
                            assert(0 <= q < k + 1 && nbrs@[q] == j && is_clue(self@, j as int));
                        } else {
                            assert(nbrs@[k as int] == j);
                        }
                    }
                    if exists|q: int| 0 <= q < k + 1 && nbrs@[q] == j && is_clue(self@, j as int) {
                        let q = choose|q: int| 0 <= q < k + 1 && nbrs@[q] == j && is_clue(self@, j as int);
                        if q < k {
                            assert(before.contains(j));
                            let p = choose|p: int| 0 <= p < before.len() && before[p] == j;
                            assert(out@[p] == before[p]);
                        } else {
                            assert(out@[out@.len() - 1] == j);
                        }
                    }
                }
            }
            proof {
                reveal(Seq::filter);
                assert(nbrs@.take(k + 1).drop_last() =~= nbrs@.take(k as int));
                assert(nbrs@.take(k + 1).last() == n);
            }
            k = k + 1;
        }
        proof {
            assert(nbrs@.take(nbrs@.len() as int) =~= nbrs@);
            assert forall|j: usize| out@.contains(j) <==> (self@.neighbors(idx as int, j as int) && is_clue(self@, j as int)) by {
                if self@.neighbors(idx as int, j as int) && is_clue(self@, j as int) {
                    assert(nbrs@.contains(j));
                    let q = choose|q: int| 0 <= q < nbrs@.len() && nbrs@[q] == j;
                    assert(exists|q: int| 0 <= q < k && nbrs@[q] == j && is_clue(self@, j as int));
                }
            }
        }
        out
    }

    /// Every hidden or flagged cell that touches a revealed number, in
    /// increasing order.
    pub fn get_frontier_cell_indices(&self) -> (r: Vec<usize>)
        requires
            self@.wf(),
        ensures
            lists_in_order(r@, self@.len() as int, |i: int| is_frontier(self@, i)),
            forall|i: usize, c: int|
                i < self@.len() && (self@.cells[i as int].state == CellState::Hidden || self@.cells[i as int].state
                    == CellState::Flagged) && #[trigger] is_neighbor(self@.width as int, self@.height as int, i as int, c)
                    && self@.cells[c].state == CellState::Revealed && self@.cells[c].content is Number ==> r@.contains(i),
    {
        let mut out: Vec<usize> = Vec::new();
        let mut i: usize = 0;
        while i < self.cells.len()
            invariant
                self@.wf(),
                i <= self@.len(),
                forall|a: int, b: int| 0 <= a < b < out@.len() ==> out@[a] < out@[b],
                forall|q: int| 0 <= q < out@.len() ==> #[trigger] out@[q] < i,
                forall|j: usize| out@.contains(j) <==> (j < i && is_frontier(self@, j as int)),
            decreases self@.len() - i,
        {
            let c = self.cells[i];
            let ghost before = out@;
            if (c.state == CellState::Hidden || c.state == CellState::Flagged) && self.is_touching_revealed_number(i) {
                out.push(i);
            }
            proof {
                assert forall|q: int| 0 <= q < out@.len() implies #[trigger] out@[q] < i + 1 by {
                    if q < before.len() {
                        assert(out@[q] == before[q]);
                    }
                }
                assert forall|a: int, b: int| 0 <= a < b < out@.len() implies out@[a] < out@[b] by {
                    assert(out@[a] == before[a]);
                    if b < before.len() {
                        assert(out@[b] == before[b]);
                    }
                }
                assert forall|j: usize| out@.contains(j) <==> (j < i + 1 && is_frontier(self@, j as int)) by {
                    if out@.contains(j) {
                        let p = choose|p: int| 0 <= p < out@.len() && out@[p] == j;
                        if p < before.len() {
                            assert(before[p] == j);
                            assert(before.contains(j));
                        }
                    }
                    if j < i && is_frontier(self@, j as int) {
                        assert(before.contains(j));
                        let p = choose|p: int| 0 <= p < before.len() && before[p] == j;
                        assert(out@[p] == before[p]);
                    }
                    if j == i && is_frontier(self@, j as int) {
                        assert(out@[out@.len() - 1] == j);
                    }
                }
            }
            i = i + 1;
        }
        proof {
            assert forall|i: usize, c: int|
                i < self@.len() && (self@.cells[i as int].state == CellState::Hidden || self@.cells[i as int].state
                    == CellState::Flagged) && #[trigger] is_neighbor(self@.width as int, self@.height as int, i as int, c)
                    && self@.cells[c].state == CellState::Revealed && self@.cells[c].content is Number implies out@.contains(i) by {
                assert(self@.neighbors(i as int, c));
                assert(is_clue(self@, c));
                assert(is_frontier(self@, i as int));
            }
        }
        out
    }

    /// Whether cell `idx` is hidden and all its neighbors are hidden too.
    pub fn is_floating_cell(&self, idx: usize) -> (r: bool)
        requires
            self@.wf(),
            idx < self@.len(),
        ensures
            r == is_floating(self@, idx as int),
    {
        if self.cells[idx].state != CellState::Hidden {
            return false;
        }
        let nbrs = self.get_neighbors_indices(idx);
        let mut k: usize = 0;
        while k < nbrs.len()
            invariant
                self@.wf(),
                k <= nbrs@.len(),
                forall|j: usize| nbrs@.contains(j) <==> self@.neighbors(idx as int, j as int),
                forall|q: int| 0 <= q < nbrs@.len() ==> self@.neighbors(idx as int, #[trigger] nbrs@[q] as int),
                forall|q: int| 0 <= q < k ==> self@.cells[#[trigger] nbrs@[q] as int].state == CellState::Hidden,
            decreases nbrs@.len() - k,
        {
            let n = nbrs[k];
            proof {
                assert(self@.neighbors(idx as int, nbrs@[k as int] as int));
            }
            if self.cells[n].state != CellState::Hidden {
                return false;
            }
            k = k + 1;
        }
        proof {
            assert forall|j: int| #[trigger] self@.neighbors(idx as int, j) implies self@.cells[j].state == CellState::Hidden by {
                assert(nbrs@.contains(j as usize));
                let q = choose|q: int| 0 <= q < nbrs@.len() && nbrs@[q] == j as usize;
                assert(self@.cells[nbrs@[q] as int].state == CellState::Hidden);
            }
        }
        true
    }

    /// The number of hidden cells whose neighbors are all hidden.
    pub fn get_floating_count(&self) -> (r: usize)
        requires
            self@.wf(),
        ensures
            r == floating_cells(self@).len(),
    {
        let ghost f = floating_pred(self@);
        let mut count: usize = 0;
        let mut i: usize = 0;
        proof {
            lemma_below_zero(f);
        }
        while i < self.cells.len()
            invariant
                self@.wf(),
                i <= self@.len(),
                f == floating_pred(self@),
                count == below(i as int, f).len(),
            decreases self@.len() - i,
        {
            proof {
                lemma_below_step(i as int, f);
            }
            if self.is_floating_cell(i) {
                count = count + 1;
            }
            i = i + 1;
        }
        count
    }

    /// The hidden cells whose neighbors are all hidden, in increasing order.
    pub fn get_floating_indices(&self) -> (r: Vec<usize>)
        requires
            self@.wf(),
        ensures
            lists_in_order(r@, self@.len() as int, |i: int| is_floating(self@, i)),
    {
        let mut out: Vec<usize> = Vec::new();
        let mut i: usize = 0;
        while i < self.cells.len()
            invariant
                self@.wf(),
                i <= self@.len(),
                forall|a: int, b: int| 0 <= a < b < out@.len() ==> out@[a] < out@[b],
                forall|q: int| 0 <= q < out@.len() ==> #[trigger] out@[q] < i,
                forall|j: usize| out@.contains(j) <==> (j < i && is_floating(self@, j as int)),
            decreases self@.len() - i,
        {
            let ghost before = out@;
            if self.is_floating_cell(i) {
                out.push(i);
            }
            proof {
                assert forall|q: int| 0 <= q < out@.len() implies #[trigger] out@[q] < i + 1 by {
                    if q < before.len() {
                        assert(out@[q] == before[q]);
                    }
                }
                assert forall|a: int, b: int| 0 <= a < b < out@.len() implies out@[a] < out@[b] by {
                    assert(out@[a] == before[a]);
                    if b < before.len() {
                        assert(out@[b] == before[b]);
                    }
                }
                assert forall|j: usize| out@.contains(j) <==> (j < i + 1 && is_floating(self@, j as int)) by {
                    if out@.contains(j) {
                        let p = choose|p: int| 0 <= p < out@.len() && out@[p] == j;
                        if p < before.len() {
                            assert(before[p] == j);
                            assert(before.contains(j));
                        }
                    }
                    if j < i && is_floating(self@, j as int) {
                        assert(before.contains(j));
                        let p = choose|p: int| 0 <= p < before.len() && before[p] == j;
                        assert(out@[p] == before[p]);
                    }
                    if j == i && is_floating(self@, j as int) {
                        assert(out@[out@.len() - 1] == j);
                    }
                }
            }
            i = i + 1;
        }
        out
    }

    /// The hidden and flagged cells, in increasing order.
    pub fn get_covered_indices(&self) -> (r: Vec<usize>)
        requires
            self@.wf(),
        ensures
            lists_in_order(r@, self@.len() as int, |i: int| is_covered(self@, i)),
    {
        let mut out: Vec<usize> = Vec::new();
        let mut i: usize = 0;
        while i < self.cells.len()
            invariant
                self@.wf(),
                i <= self@.len(),
                forall|a: int, b: int| 0 <= a < b < out@.len() ==> out@[a] < out@[b],
                forall|q: int| 0 <= q < out@.len() ==> #[trigger] out@[q] < i,
                forall|j: usize| out@.contains(j) <==> (j < i && is_covered(self@, j as int)),
            decreases self@.len() - i,
        {
            let ghost before = out@;
            let st = self.cells[i].state;
            if st == CellState::Hidden || st == CellState::Flagged {
                out.push(i);
            }
            proof {
                assert forall|q: int| 0 <= q < out@.len() implies #[trigger] out@[q] < i + 1 by {
                    if q < before.len() {
                        assert(out@[q] == before[q]);
                    }
                }
                assert forall|a: int, b: int| 0 <= a < b < out@.len() implies out@[a] < out@[b] by {
                    assert(out@[a] == before[a]);
                    if b < before.len() {
                        assert(out@[b] == before[b]);
                    }
                }
                assert forall|j: usize| out@.contains(j) <==> (j < i + 1 && is_covered(self@, j as int)) by {
                    if out@.contains(j) {
                        let p = choose|p: int| 0 <= p < out@.len() && out@[p] == j;
                        if p < before.len() {
                            assert(before[p] == j);
                            assert(before.contains(j));
                        }
                    }
                    if j < i && is_covered(self@, j as int) {
                        assert(before.contains(j));
                        let p = choose|p: int| 0 <= p < before.len() && before[p] == j;
                        assert(out@[p] == before[p]);
                    }
                    if j == i && is_covered(self@, j as int) {
                        assert(out@[out@.len() - 1] == j);
                    }
                }
            }
            i = i + 1;
        }
        out
    }

    /// The number of mines minus the number of flags, never below zero.
    pub fn get_mines_remaining(&self) -> (r: usize)
        requires
            self@.wf(),
        ensures
            r == mines_remaining(self@),
    {
        let ghost f = flagged_pred(self@);
        let mut flagged: usize = 0;
        let mut i: usize = 0;
        proof {
            lemma_below_zero(f);
        }
        while i < self.cells.len()
            invariant
                self@.wf(),
                i <= self@.len(),
                f == flagged_pred(self@),
                flagged == below(i as int, f).len(),
            decreases self@.len() - i,
        {
            proof {
                lemma_below_step(i as int, f);
            }
            if self.cells[i].state == CellState::Flagged {
                flagged = flagged + 1;
            }
            i = i + 1;
        }
        self.mines.saturating_sub(flagged)
    }

    /// The frontier cells, other than `cell_idx`, that share a revealed
    /// number with `cell_idx`; a cell sharing several numbers is listed for each.
    pub fn get_connected_frontier_cells(&self, cell_idx: usize, frontier: &[usize]) -> (r: Vec<usize>)
        requires
            self@.wf(),
            cell_idx < self@.len(),
        ensures
            forall|b: usize| r@.contains(b) <==> (frontier@.contains(b) && linked(self@, cell_idx as int, b as int)),
            forall|q: int| 0 <= q < r@.len() ==> frontier@.contains(#[trigger] r@[q]) && linked(self@, cell_idx as int, r@[q] as int),
            r@ == links_through(self@, frontier@, cell_idx as int, clue_list(self@, cell_idx as int)),
    {
        let clues = self.get_adjacent_revealed_numbers(cell_idx);
        let mut connected: Vec<usize> = Vec::new();
        let mut a: usize = 0;
        let ghost keep = other_frontier_pred(frontier@, cell_idx as int);
        proof {
            assert(clues@.take(0) =~= Seq::<usize>::empty());
        }
        while a < clues.len()
            invariant
                self@.wf(),
                cell_idx < self@.len(),
                a <= clues@.len(),
                forall|j: usize| clues@.contains(j) <==> (self@.neighbors(cell_idx as int, j as int) && is_clue(self@, j as int)),
                forall|q: int| 0 <= q < clues@.len() ==> self@.neighbors(cell_idx as int, #[trigger] clues@[q] as int) && is_clue(self@, clues@[q] as int),
                forall|q: int| 0 <= q < connected@.len() ==> frontier@.contains(#[trigger] connected@[q]) && linked(self@, cell_idx as int, connected@[q] as int),
                forall|b: usize|
                    frontier@.contains(b) && b != cell_idx && (exists|q: int|
                        0 <= q < a && #[trigger] self@.neighbors(clues@[q] as int, b as int)) ==> connected@.contains(b),
                keep == other_frontier_pred(frontier@, cell_idx as int),
                connected@ == links_through(self@, frontier@, cell_idx as int, clues@.take(a as int)),
            decreases clues@.len() - a,
        {
            let clue = clues[a];
            proof {
                assert(self@.neighbors(cell_idx as int, clues@[a as int] as int) && is_clue(self@, clues@[a as int] as int));
            }
            let nbrs = self.get_neighbors_indices(clue);
            let ghost c_before = connected@;
            let mut k: usize = 0;
            proof {
                reveal(Seq::filter);
                assert(nbrs@.take(0) =~= Seq::<usize>::empty());
                assert(c_before + nbrs@.take(0).filter(keep) =~= c_before);
            }
            while k < nbrs.len()
                invariant
                    self@.wf(),
                    cell_idx < self@.len(),
                    a < clues@.len(),
                    clue == clues@[a as int],
                    self@.neighbors(cell_idx as int, clue as int),
                    is_clue(self@, clue as int),
                    k <= nbrs@.len(),
                    forall|j: usize| nbrs@.contains(j) <==> self@.neighbors(clue as int, j as int),
                    forall|q: int| 0 <= q < nbrs@.len() ==> self@.neighbors(clue as int, #[trigger] nbrs@[q] as int),
                    forall|q: int| 0 <= q < c_before.len() ==> #[trigger] connected@[q] == c_before[q],
                    c_before.len() <= connected@.len(),
                    forall|q: int| 0 <= q < connected@.len() ==> frontier@.contains(#[trigger] connected@[q]) && linked(self@, cell_idx as int, connected@[q] as int),
                    forall|q: int| 0 <= q < k ==> ((frontier@.contains(#[trigger] nbrs@[q]) && nbrs@[q] != cell_idx) ==> connected@.contains(nbrs@[q])),
                    keep == other_frontier_pred(frontier@, cell_idx as int),
                    connected@ == c_before + nbrs@.take(k as int).filter(keep),
                decreases nbrs@.len() - k,
            {
                let n = nbrs[k];
                let ghost before = connected@;
                if slice_contains(frontier, n) && n != cell_idx {
                    proof {
                        assert(self@.neighbors(clue as int, nbrs@[k as int] as int));
                        assert(is_clue(self@, clue as int) && self@.neighbors(cell_idx as int, clue as int) && self@.neighbors(clue as int, n as int));
                    }
                    connected.push(n);
                }
                proof {
                    assert forall|q: int| 0 <= q < c_before.len() implies #[trigger] connected@[q] == c_before[q] by {
                        assert(before[q] == c_before[q]);
                        if connected@.len() > before.len() {
                            assert(connected@[q] == before[q]);
                        }
                    }
                    assert forall|q: int| 0 <= q < connected@.len() implies frontier@.contains(#[trigger] connected@[q]) && linked(self@, cell_idx as int, connected@[q] as int) by {
                        if q < before.len() {
                            assert(connected@[q] == before[q]);
                        }
                    }
                    assert forall|q: int| 0 <= q < k + 1 && frontier@.contains(#[trigger] nbrs@[q]) && nbrs@[q] != cell_idx implies connected@.contains(nbrs@[q]) by {
                        if q < k && frontier@.contains(nbrs@[q]) && nbrs@[q] != cell_idx {
                            assert(before.contains(nbrs@[q]));
                            let p = choose|p: int| 0 <= p < before.len() && before[p] == nbrs@[q];
                            assert(connected@[p] == before[p]);
                        }
                        if q == k && frontier@.contains(nbrs@[q]) && nbrs@[q] != cell_idx {
                            assert(connected@[connected@.len() - 1] == n);
                        }
                    }
                    reveal(Seq::filter);
                    assert(nbrs@.take(k + 1).drop_last() =~= nbrs@.take(k as int));
                    assert(nbrs@.take(k + 1).last() == n);
                    if keep(n) {
                        assert(connected@ =~= c_before + nbrs@.take(k + 1).filter(keep));
                    } else {
                        assert(connected@ =~= c_before + nbrs@.take(k + 1).filter(keep));
                    }
                }
                k = k + 1;
            }
            proof {
                assert(nbrs@.take(nbrs@.len() as int) =~= nbrs@);
                assert(clues@.take(a + 1).drop_last() =~= clues@.take(a as int));
                assert(clues@.take(a + 1).last() == clue);
                assert(connected@ =~= links_through(self@, frontier@, cell_idx as int, clues@.take(a + 1)));
            }
            proof {
                assert forall|b: usize|
                    frontier@.contains(b) && b != cell_idx && (exists|q: int|
                        0 <= q < a + 1 && #[trigger] self@.neighbors(clues@[q] as int, b as int)) implies connected@.contains(b) by {
                    let q = choose|q: int| 0 <= q < a + 1 && #[trigger] self@.neighbors(clues@[q] as int, b as int);
                    if q < a {
                        assert(c_before.contains(b));
                        let p = choose|p: int| 0 <= p < c_before.len() && c_before[p] == b;
                        assert(connected@[p] == c_before[p]);
                    } else {
                        assert(nbrs@.contains(b));
                        let p = choose|p: int| 0 <= p < nbrs@.len() && nbrs@[p] == b;
                        assert(frontier@.contains(nbrs@[p]) && nbrs@[p] != cell_idx);
                    }
                }
            }
            a = a + 1;
        }
        proof {
            assert(clues@.take(clues@.len() as int) =~= clues@);
            assert forall|b: usize| connected@.contains(b) <==> (frontier@.contains(b) && linked(self@, cell_idx as int, b as int)) by {
                if connected@.contains(b) {
                    let p = choose|p: int| 0 <= p < connected@.len() && connected@[p] == b;
                    assert(frontier@.contains(connected@[p]) && linked(self@, cell_idx as int, connected@[p] as int));
                }
                if frontier@.contains(b) && linked(self@, cell_idx as int, b as int) {
                    let c = choose|c: int| #[trigger] is_clue(self@, c) && self@.neighbors(cell_idx as int, c) && self@.neighbors(c, b as int);
                    assert(clues@.contains(c as usize));
                    let q = choose|q: int| 0 <= q < clues@.len() && clues@[q] == c as usize;
                    assert(self@.neighbors(clues@[q] as int, b as int));
                }
            }
        }
        connected
    }
    /// Splits the frontier into segments: groups of cells linked to one
    /// another through shared revealed numbers, found breadth first from the
    /// earliest frontier cell not yet grouped.
    ///
    /// The listed cells must lie on the board, as those that
    /// `get_frontier_cell_indices` lists do.
    pub fn get_isolated_frontier_segments(&self, frontier_cells: &[usize]) -> (r: Vec<Vec<usize>>)
        requires
            self@.wf(),
            forall|k: int| 0 <= k < frontier_cells@.len() ==> #[trigger] frontier_cells@[k] < self@.len(),
        ensures
            frontier_segments(self@, frontier_cells@, r@),
    {
        let ghost m = self@;
        let ghost fr = frontier_cells@;
        let len = self.cells.len();
        let mut visited: Vec<bool> = Vec::with_capacity(len);
        let mut z: usize = 0;
        while z < len
            invariant
                z <= len,
                visited@.len() == z,
                forall|x: int| 0 <= x < z ==> !#[trigger] visited@[x],
            decreases len - z,
        {
            visited.push(false);
            z = z + 1;
        }
        let mut segments: Vec<Vec<usize>> = Vec::new();
        let mut i: usize = 0;
        while i < frontier_cells.len()
            invariant
                self@ == m,
                m.wf(),
                len == m.len(),
                fr == frontier_cells@,
                forall|k: int| 0 <= k < fr.len() ==> #[trigger] fr[k] < len,
                i <= fr.len(),
                visited@.len() == len,
                forall|x: usize| x < len ==> (visited@[x as int] <==> in_some_segment(segments@, x)),
                segments_disjoint(fr, segments@),
                segments_closed(m, fr, segments@),
                segments_connected(m, segments@),
                segments_in_order(fr, segments@),
                forall|s: int| 0 <= s < segments@.len() ==> breadth_first(m, fr, (#[trigger] segments@[s])@),
                forall|q: int| 0 <= q < i ==> in_some_segment(segments@, #[trigger] fr[q]),
            decreases fr.len() - i,
        {
            let start = frontier_cells[i];
            if visited[start] {
                i = i + 1;
                continue;
            }
            let ghost segs = segments@;
            let mut queue: Vec<usize> = Vec::new();
            queue.push(start);
            visited.set(start, true);
            let mut head: usize = 0;
            let ghost mut parents: Seq<int> = seq![0int];
            proof {
                assert(fr.contains(start)) by {
                    assert(fr[i as int] == start);
                }
                assert forall|x: usize| x < len implies (visited@[x as int] <==> (in_some_segment(segs, x) || queue@.contains(x))) by {
                    if x == start {
                        assert(queue@[0] == start);
                    }
                }
            }
            while head < queue.len()
                invariant
                    self@ == m,
                    m.wf(),
                    len == m.len(),
                    fr == frontier_cells@,
                    forall|k: int| 0 <= k < fr.len() ==> #[trigger] fr[k] < len,
                    segments@ == segs,
                    segments_disjoint(fr, segs),
                    segments_closed(m, fr, segs),
                    segments_connected(m, segs),
                    visited@.len() == len,
                    queue@.len() >= 1,
                    queue@[0] == start,
                    head <= queue@.len(),
                    queue@.len() <= len,
                    queue@.no_duplicates(),
                    forall|k: int| 0 <= k < queue@.len() ==> fr.contains(#[trigger] queue@[k]) && queue@[k] < len && !in_some_segment(segs, queue@[k]),
                    forall|x: usize| x < len ==> (visited@[x as int] <==> (in_some_segment(segs, x) || queue@.contains(x))),
                    forall|p: int, b: usize|
                        0 <= p < head && fr.contains(b) && #[trigger] linked(m, queue@[p] as int, b as int) ==> (in_some_segment(segs, b) || queue@.contains(b)),
                    parents.len() == queue@.len(),
                    forall|k: int| 1 <= k < queue@.len() ==> 0 <= #[trigger] parents[k] < k && linked(m, queue@[parents[k]] as int, queue@[k] as int),
                    forall|k: int| 1 <= k < queue@.len() ==> first_link(m, queue@, k, #[trigger] parents[k]) && parents[k] < head,
                    forall|a: int, b: int| 1 <= a < b < queue@.len() ==> #[trigger] parents[a] <= #[trigger] parents[b],
                    forall|a: int, b: int|
                        1 <= a < b < queue@.len() && #[trigger] parents[a] == #[trigger] parents[b] ==> comes_before(
                            shared_clue_cells(m, fr, queue@[parents[a]] as int),
                            queue@[a],
                            queue@[b],
                        ),
                decreases 2 * len - queue@.len() - head,
            {
                let c = queue[head];
                let ghost q0 = queue@;
                let ghost p0 = parents;
                let nbrs = self.get_connected_frontier_cells(c, frontier_cells);
                let ghost mut pos: Seq<int> = seq![];
                let mut t: usize = 0;
                while t < nbrs.len()
                    invariant
                        self@ == m,
                        m.wf(),
                        len == m.len(),
                        fr == frontier_cells@,
                        forall|k: int| 0 <= k < fr.len() ==> #[trigger] fr[k] < len,
                        segments@ == segs,
                        visited@.len() == len,
                        head < q0.len(),
                        c == q0[head as int],
                        t <= nbrs@.len(),
                        forall|b: usize| nbrs@.contains(b) <==> (fr.contains(b) && linked(m, c as int, b as int)),
                        forall|q: int| 0 <= q < nbrs@.len() ==> fr.contains(#[trigger] nbrs@[q]) && linked(m, c as int, nbrs@[q] as int),
                        queue@.len() >= q0.len(),
                        forall|k: int| 0 <= k < q0.len() ==> #[trigger] queue@[k] == q0[k],
                        queue@.len() <= len,
                        queue@.no_duplicates(),
                        forall|k: int| 0 <= k < queue@.len() ==> fr.contains(#[trigger] queue@[k]) && queue@[k] < len && !in_some_segment(segs, queue@[k]),
                        forall|x: usize| x < len ==> (visited@[x as int] <==> (in_some_segment(segs, x) || queue@.contains(x))),
                        parents.len() == queue@.len(),
                    forall|k: int| 1 <= k < queue@.len() ==> 0 <= #[trigger] parents[k] < k && linked(m, queue@[parents[k]] as int, queue@[k] as int),
                        forall|q: int| 0 <= q < t ==> (in_some_segment(segs, #[trigger] nbrs@[q]) || queue@.contains(nbrs@[q])),
                        nbrs@ == shared_clue_cells(m, fr, c as int),
                        forall|p: int, b: usize|
                            0 <= p < head && fr.contains(b) && #[trigger] linked(m, q0[p] as int, b as int) ==> (in_some_segment(segs, b) || q0.contains(b)),
                        p0.len() == q0.len(),
                        forall|k: int| 0 <= k < q0.len() ==> #[trigger] parents[k] == p0[k],
                        forall|k: int| 1 <= k < q0.len() ==> first_link(m, q0, k, #[trigger] p0[k]) && p0[k] < head,
                        forall|a: int, b: int| 1 <= a < b < q0.len() ==> #[trigger] p0[a] <= #[trigger] p0[b],
                        forall|a: int, b: int|
                            1 <= a < b < q0.len() && #[trigger] p0[a] == #[trigger] p0[b] ==> comes_before(
                                shared_clue_cells(m, fr, q0[p0[a]] as int),
                                q0[a],
                                q0[b],
                            ),
                        pos.len() == queue@.len() - q0.len(),
                        forall|k: int| q0.len() <= k < queue@.len() ==> #[trigger] parents[k] == head,
                        forall|j: int| 0 <= j < pos.len() ==> 0 <= #[trigger] pos[j] < t && nbrs@[pos[j]] == queue@[q0.len() + j],
                        forall|j: int, u: int| 0 <= j < pos.len() && 0 <= u < pos[j] ==> #[trigger] nbrs@[u] != #[trigger] queue@[q0.len() + j],
                        forall|j1: int, j2: int| 0 <= j1 < j2 < pos.len() ==> #[trigger] pos[j1] < #[trigger] pos[j2],
                        forall|k: int| q0.len() <= k < queue@.len() ==> !in_some_segment(segs, #[trigger] queue@[k]) && !q0.contains(queue@[k]),
                    decreases nbrs@.len() - t,
                {
                    let n = nbrs[t];
                    proof {
                        assert(fr.contains(nbrs@[t as int]) && linked(m, c as int, nbrs@[t as int] as int));
                        let kk = choose|kk: int| 0 <= kk < fr.len() && fr[kk] == n;
                        assert(n < len);
                    }
                    let ghost qb = queue@;
                    if !visited[n] {
                        proof {
                            assert(!qb.contains(n));
                            assert(!in_some_segment(segs, n));
                            crate::ms_board::field::lemma_distinct_below(qb.push(n), len as int);
                        }
                        visited.set(n, true);
                        queue.push(n);
                        proof {
                            assert(queue@ == qb.push(n));
                            assert forall|k: int| 0 <= k < q0.len() implies #[trigger] queue@[k] == q0[k] by {
                                assert(qb[k] == q0[k]);
                            }
                            assert forall|k: int| 0 <= k < queue@.len() implies fr.contains(#[trigger] queue@[k]) && queue@[k] < len && !in_some_segment(segs, queue@[k]) by {
                                if k < qb.len() {
                                    assert(queue@[k] == qb[k]);
                                }
                            }
                            assert forall|x: usize| x < len implies (visited@[x as int] <==> (in_some_segment(segs, x) || queue@.contains(x))) by {
                                if queue@.contains(x) && x != n {
                                    let k = choose|k: int| 0 <= k < queue@.len() && queue@[k] == x;
                                    assert(qb[k] == x);
                                    assert(qb.contains(x));
                                }
                                if qb.contains(x) {
                                    let k = choose|k: int| 0 <= k < qb.len() && qb[k] == x;
                                    assert(queue@[k] == x);
                                }
                                if x == n {
                                    assert(queue@[queue@.len() - 1] == n);
                                }
                            }
                            let pb = parents;
                            parents = parents.push(head as int);
                            let posb = pos;
                            pos = pos.push(t as int);
                            assert forall|k: int| 1 <= k < queue@.len() implies 0 <= #[trigger] parents[k] < k && linked(m, queue@[parents[k]] as int, queue@[k] as int) by {
                                if k < qb.len() {
                                    assert(queue@[k] == qb[k]);
                                    assert(parents[k] == pb[k]);
                                    assert(queue@[pb[k]] == qb[pb[k]]);
                                } else {
                                    assert(queue@[head as int] == q0[head as int]);
                                }
                            }
                            assert forall|k: int| q0.len() <= k < queue@.len() implies !in_some_segment(segs, #[trigger] queue@[k]) && !q0.contains(queue@[k]) by {
                                if k < qb.len() {
                                    assert(queue@[k] == qb[k]);
                                } else {
                                    assert(queue@[k] == n);
                                    if q0.contains(n) {
                                        let j = choose|j: int| 0 <= j < q0.len() && q0[j] == n;
                                        assert(qb[j] == q0[j]);
                                        assert(qb.contains(n));
                                    }
                                }
                            }
                            assert forall|q: int| 0 <= q < t + 1 implies (in_some_segment(segs, #[trigger] nbrs@[q]) || queue@.contains(nbrs@[q])) by {
                                if q < t && !in_some_segment(segs, nbrs@[q]) {
                                    assert(qb.contains(nbrs@[q]));
                                    let k = choose|k: int| 0 <= k < qb.len() && qb[k] == nbrs@[q];
                                    assert(queue@[k] == qb[k]);
                                }
                                if q == t {
                                    assert(queue@[queue@.len() - 1] == n);
                                }
                            }
                        }
                    } else {
                        proof {
                            assert(in_some_segment(segs, n) || queue@.contains(n));
                        }
                    }
                    t = t + 1;
                }
                proof {
                    assert forall|a: int, b: int|
                        1 <= a < b < queue@.len() && #[trigger] parents[a] == #[trigger] parents[b] implies comes_before(
                        shared_clue_cells(m, fr, queue@[parents[a]] as int),
                        queue@[a],
                        queue@[b],
                    ) by {
                        if b < q0.len() {
                            assert(queue@[a] == q0[a] && queue@[b] == q0[b]);
                            assert(parents[a] == p0[a] && parents[b] == p0[b]);
                            assert(queue@[p0[a]] == q0[p0[a]]);
                        } else if a < q0.len() {
                            assert(parents[a] == p0[a]);
                        } else {
                            let ja = a - q0.len();
                            let jb = b - q0.len();
                            assert(pos[ja] < pos[jb]);
                            assert(queue@[head as int] == c);
                            assert forall|tt: int| 0 <= tt < nbrs@.len() && #[trigger] nbrs@[tt] == queue@[b] implies exists|u: int|
                                0 <= u < tt && nbrs@[u] == queue@[a] by {
                                if tt < pos[jb] {
                                    assert(nbrs@[tt] != queue@[q0.len() + jb]);
                                }
                                assert(nbrs@[pos[ja]] == queue@[q0.len() + ja]);
                            }
                        }
                    }
                    assert forall|p: int, b: usize|
                        0 <= p < head + 1 && fr.contains(b) && #[trigger] linked(m, queue@[p] as int, b as int) implies (in_some_segment(segs, b) || queue@.contains(b)) by {
                        assert(queue@[p] == q0[p]);
                        if p < head {
                            if !in_some_segment(segs, b) {
                                assert(linked(m, q0[p] as int, b as int));
                                assert(q0.contains(b));
                                let k = choose|k: int| 0 <= k < q0.len() && q0[k] == b;
                                assert(queue@[k] == q0[k]);
                            }
                        } else {
                            assert(nbrs@.contains(b));
                            let q = choose|q: int| 0 <= q < nbrs@.len() && nbrs@[q] == b;
                            assert(in_some_segment(segs, nbrs@[q]) || queue@.contains(nbrs@[q]));
                        }
                    }
                }
                head = head + 1;
            }
            proof {
                let q = queue@;
                let segs2 = segs.push(queue);
                assert forall|a: int, b: int, pa: int, pb: int|
                    1 <= a < b < q.len() && #[trigger] first_link(m, q, a, pa) && #[trigger] first_link(m, q, b, pb) implies pa <= pb
                    && (pa == pb ==> comes_before(shared_clue_cells(m, fr, q[pa] as int), q[a], q[b])) by {
                    assert(first_link(m, q, a, parents[a]));
                    assert(first_link(m, q, b, parents[b]));
                    if pa < parents[a] {
                        assert(linked(m, q[pa] as int, q[a] as int));
                    }
                    if parents[a] < pa {
                        assert(linked(m, q[parents[a]] as int, q[a] as int));
                    }
                    if pb < parents[b] {
                        assert(linked(m, q[pb] as int, q[b] as int));
                    }
                    if parents[b] < pb {
                        assert(linked(m, q[parents[b]] as int, q[b] as int));
                    }
                    assert(parents[a] <= parents[b]);
                }
                assert(breadth_first(m, fr, q));
                assert forall|s: int| 0 <= s < segs2.len() implies breadth_first(m, fr, (#[trigger] segs2[s])@) by {
                    if s < segs.len() {
                        assert(segs2[s] == segs[s]);
                    }
                }
                // The finished group is closed under links.
                assert forall|p: int, b: usize| 0 <= p < q.len() && fr.contains(b) && #[trigger] linked(m, q[p] as int, b as int) implies q.contains(b) by {
                    if in_some_segment(segs, b) {
                        let s = choose|s: int| 0 <= s < segs.len() && #[trigger] segs[s]@.contains(b);
                        lemma_linked_symmetric(m, q[p] as int, b as int);
                        assert(fr.contains(q[p]));
                        assert(segs[s]@.contains(q[p]));
                        assert(in_some_segment(segs, q[p]));
                    }
                }
                assert forall|s: int| 0 <= s < segs2.len() implies (#[trigger] segs2[s])@.len() > 0 && segs2[s]@.no_duplicates() by {
                    if s < segs.len() {
                        assert(segs2[s] == segs[s]);
                    }
                }
                assert forall|s: int, k: int| 0 <= s < segs2.len() && 0 <= k < segs2[s]@.len() implies fr.contains(#[trigger] segs2[s]@[k]) by {
                    if s < segs.len() {
                        assert(segs2[s] == segs[s]);
                    }
                }
                assert forall|s1: int, s2: int, x: usize|
                    0 <= s1 < segs2.len() && 0 <= s2 < segs2.len() && s1 != s2 && #[trigger] segs2[s1]@.contains(x) implies !#[trigger] segs2[s2]@.contains(x) by {
                    if s1 < segs.len() && s2 < segs.len() {
                        assert(segs2[s1] == segs[s1] && segs2[s2] == segs[s2]);
                    } else if s1 < segs.len() {
                        assert(segs2[s1] == segs[s1]);
                        assert(segs2[s2]@ == q);
                        if q.contains(x) {
                            let k = choose|k: int| 0 <= k < q.len() && q[k] == x;
                            assert(!in_some_segment(segs, q[k]));
                        }
                    } else {
                        assert(segs2[s2] == segs[s2]);
                        assert(segs2[s1]@ == q);
                        let k = choose|k: int| 0 <= k < q.len() && q[k] == x;
                        assert(!in_some_segment(segs, q[k]));
                    }
                }
                assert(segments_disjoint(fr, segs2));
                assert forall|s: int, x: usize, b: usize|
                    0 <= s < segs2.len() && #[trigger] segs2[s]@.contains(x) && fr.contains(b) && #[trigger] linked(m, x as int, b as int) implies segs2[s]@.contains(b) by {
                    if s < segs.len() {
                        assert(segs2[s] == segs[s]);
                    } else {
                        assert(segs2[s]@ == q);
                        let p = choose|p: int| 0 <= p < q.len() && q[p] == x;
                        assert(linked(m, q[p] as int, b as int));
                    }
                }
                assert forall|s: int, k: int|
                    0 <= s < segs2.len() && 1 <= k < segs2[s]@.len() implies #[trigger] linked_to_earlier(m, segs2[s]@, k) by {
                    if s < segs.len() {
                        assert(segs2[s] == segs[s]);
                    } else {
                        assert(segs2[s]@ == q);
                        assert(linked(m, q[parents[k]] as int, q[k] as int));
                    }
                }
                assert forall|x: usize| in_some_segment(segs2, x) <==> (in_some_segment(segs, x) || q.contains(x)) by {
                    if in_some_segment(segs2, x) {
                        let s = choose|s: int| 0 <= s < segs2.len() && #[trigger] segs2[s]@.contains(x);
                        if s < segs.len() {
                            assert(segs2[s] == segs[s]);
                        }
                    }
                    if in_some_segment(segs, x) {
                        let s = choose|s: int| 0 <= s < segs.len() && #[trigger] segs[s]@.contains(x);
                        assert(segs2[s] == segs[s]);
                    }
                    if q.contains(x) {
                        assert(segs2[segs.len() as int]@.contains(x));
                    }
                }
                assert forall|s: int| 0 <= s < segs2.len() implies exists|ii: int|
                    0 <= ii < fr.len() && fr[ii] == (#[trigger] segs2[s])@[0] && forall|qq: int|
                        0 <= qq < ii ==> in_some_segment(segs2.take(s), #[trigger] fr[qq]) by {
                    if s < segs.len() {
                        assert(segs2[s] == segs[s]);
                        assert(segs2.take(s) =~= segs.take(s));
                    } else {
                        assert(segs2.take(s) =~= segs);
                        assert(segs2[s]@[0] == fr[i as int]);
                        assert(forall|qq: int| 0 <= qq < i ==> in_some_segment(segs2.take(s), #[trigger] fr[qq]));
                    }
                }
                assert forall|qq: int| 0 <= qq < i + 1 implies in_some_segment(segs2, #[trigger] fr[qq]) by {
                    if qq < i {
                        assert(in_some_segment(segs, fr[qq]));
                    } else {
                        assert(q[0] == fr[qq]);
                        assert(q.contains(fr[qq]));
                    }
                }
            }
            segments.push(queue);
            i = i + 1;
        }
        proof {
            assert forall|x: usize| fr.contains(x) implies in_some_segment(segments@, x) by {
                let k = choose|k: int| 0 <= k < fr.len() && fr[k] == x;
                assert(in_some_segment(segments@, fr[k]));
            }
        }
        segments
    }
    /// The revealed numbers next to some cell of the segment, each once.
    fn get_segment_clues(&self, segment: &Vec<usize>) -> (r: Vec<usize>)
        requires
            self@.wf(),
            forall|k: int| 0 <= k < segment@.len() ==> #[trigger] segment@[k] < self@.len(),
        ensures
            r@.no_duplicates(),
            forall|c: usize| r@.contains(c) <==> segment_clue(self@, segment@, c as int),
            forall|q: int| 0 <= q < r@.len() ==> segment_clue(self@, segment@, #[trigger] r@[q] as int),
    {
        let ghost m = self@;
        let ghost seg = segment@;
        let mut clues: Vec<usize> = Vec::new();
        let mut i: usize = 0;
        while i < segment.len()
            invariant
                self@ == m,
                m.wf(),
                seg == segment@,
                forall|k: int| 0 <= k < seg.len() ==> #[trigger] seg[k] < m.len(),
                i <= seg.len(),
                clues@.no_duplicates(),
                forall|q: int| 0 <= q < clues@.len() ==> segment_clue(m, seg, #[trigger] clues@[q] as int),
                forall|c: usize|
                    is_clue(m, c as int) && (exists|k: int| 0 <= k < i && #[trigger] m.neighbors(seg[k] as int, c as int)) ==> clues@.contains(c),
            decreases seg.len() - i,
        {
            let found = self.get_adjacent_revealed_numbers(segment[i]);
            let ghost cl0 = clues@;
            let mut t: usize = 0;
            while t < found.len()
                invariant
                    self@ == m,
                    m.wf(),
                    seg == segment@,
                    i < seg.len(),
                    t <= found@.len(),
                    forall|j: usize| found@.contains(j) <==> (m.neighbors(seg[i as int] as int, j as int) && is_clue(m, j as int)),
                    forall|q: int| 0 <= q < found@.len() ==> m.neighbors(seg[i as int] as int, #[trigger] found@[q] as int) && is_clue(m, found@[q] as int),
                    clues@.no_duplicates(),
                    forall|q: int| 0 <= q < clues@.len() ==> segment_clue(m, seg, #[trigger] clues@[q] as int),
                    forall|c: usize| #[trigger] cl0.contains(c) ==> clues@.contains(c),
                    forall|q: int| 0 <= q < t ==> clues@.contains(#[trigger] found@[q]),
                decreases found@.len() - t,
            {
                let c = found[t];
                let ghost before = clues@;
                proof {
                    assert(m.neighbors(seg[i as int] as int, found@[t as int] as int) && is_clue(m, found@[t as int] as int));
                    assert(segment_clue(m, seg, c as int));
                }
                if !slice_contains(clues.as_slice(), c) {
                    clues.push(c);
                    proof {
                        assert forall|a: int, b: int| 0 <= a < b < clues@.len() implies clues@[a] != clues@[b] by {
                            if b == clues@.len() - 1 {
                                assert(clues@[a] == before[a]);
                                assert(before.contains(before[a]));
                            } else {
                                assert(clues@[a] == before[a] && clues@[b] == before[b]);
                            }
                        }
                        assert forall|q: int| 0 <= q < clues@.len() implies segment_clue(m, seg, #[trigger] clues@[q] as int) by {
                            if q < before.len() {
                                assert(clues@[q] == before[q]);
                            }
                        }
                    }
                }
                proof {
                    assert forall|x: usize| #[trigger] before.contains(x) implies clues@.contains(x) by {
                        let q = choose|q: int| 0 <= q < before.len() && before[q] == x;
                        assert(clues@[q] == before[q]);
                    }
                    assert forall|x: usize| #[trigger] cl0.contains(x) implies clues@.contains(x) by {
                        assert(before.contains(x));
                    }
                    assert forall|q: int| 0 <= q < t + 1 implies clues@.contains(#[trigger] found@[q]) by {
                        if q < t {
                            assert(before.contains(found@[q]));
                        } else if clues@.len() > before.len() {
                            assert(clues@[clues@.len() - 1] == c);
                        }
                    }
                }
                t = t + 1;
            }
            proof {
                assert forall|c: usize|
                    is_clue(m, c as int) && (exists|k: int| 0 <= k < i + 1 && #[trigger] m.neighbors(seg[k] as int, c as int)) implies clues@.contains(c) by {
                    let k = choose|k: int| 0 <= k < i + 1 && #[trigger] m.neighbors(seg[k] as int, c as int);
                    if k < i {
                        assert(cl0.contains(c));
                    } else {
                        assert(found@.contains(c));
                        let q = choose|q: int| 0 <= q < found@.len() && found@[q] == c;
                        assert(clues@.contains(found@[q]));
                    }
                }
            }
            i = i + 1;
        }
        proof {
            assert forall|c: usize| clues@.contains(c) <==> segment_clue(m, seg, c as int) by {
                if clues@.contains(c) {
                    let q = choose|q: int| 0 <= q < clues@.len() && clues@[q] == c;
                    assert(segment_clue(m, seg, clues@[q] as int));
                }
                if segment_clue(m, seg, c as int) {
                    let k = choose|k: int| 0 <= k < seg.len() && #[trigger] m.neighbors(seg[k] as int, c as int);
                    assert(0 <= k < i && m.neighbors(seg[k] as int, c as int));
                }
            }
        }
        clues
    }

    /// Whether the mines and safe cells decided for the first `d` positions of
    /// the segment still leave every clue satisfiable.
    fn layout_fits_clues(&self, segment: &Vec<usize>, first: &Vec<bool>, clues: &Vec<usize>, config: &Vec<bool>, d: usize) -> (r: bool)
        requires
            self@.wf(),
            forall|k: int| 0 <= k < segment@.len() ==> #[trigger] segment@[k] < self@.len(),
            first@.len() == segment@.len(),
            forall|k: int| 0 <= k < segment@.len() ==> #[trigger] first@[k] == first_at(segment@, k),
            forall|c: usize| clues@.contains(c) <==> segment_clue(self@, segment@, c as int),
            forall|q: int| 0 <= q < clues@.len() ==> segment_clue(self@, segment@, #[trigger] clues@[q] as int),
            config@.len() == segment@.len(),
            d <= segment@.len(),
        ensures
            r == layout_fits(self@, segment@, config@.take(d as int)),
    {
        let ghost m = self@;
        let ghost seg = segment@;
        let ghost p = config@.take(d as int);
        let n = segment.len();
        let mut a: usize = 0;
        while a < clues.len()
            invariant
                self@ == m,
                m.wf(),
                seg == segment@,
                n == seg.len(),
                p == config@.take(d as int),
                config@.len() == n,
                d <= n,
                forall|k: int| 0 <= k < n ==> #[trigger] seg[k] < m.len(),
                first@.len() == n,
                forall|k: int| 0 <= k < n ==> #[trigger] first@[k] == first_at(seg, k),
                forall|q: int| 0 <= q < clues@.len() ==> segment_clue(m, seg, #[trigger] clues@[q] as int),
                a <= clues@.len(),
                forall|q: int|
                    0 <= q < a ==> mines_for(m, seg, p, #[trigger] clues@[q] as int, d as int) <= clue_value(m, clues@[q] as int)
                        <= mines_for(m, seg, p, clues@[q] as int, d as int) + open_for(m, seg, clues@[q] as int, d as int),
            decreases clues@.len() - a,
        {
            let c = clues[a];
            proof {
                assert(segment_clue(m, seg, clues@[a as int] as int));
            }
            let value: usize = match self.cells[c].content {
                CellContent::Number(v) => v as usize,
                CellContent::Mine => 0,
            };
            let w = self.width;
            let h = self.height;
            let mut confirmed: usize = 0;
            let mut i: usize = 0;
            while i < d
                invariant
                    self@ == m,
                    m.wf(),
                    w == m.width,
                    h == m.height,
                    seg == segment@,
                    n == seg.len(),
                    p == config@.take(d as int),
                    config@.len() == n,
                    d <= n,
                    c < m.len(),
                    forall|k: int| 0 <= k < n ==> #[trigger] seg[k] < m.len(),
                    first@.len() == n,
                    forall|k: int| 0 <= k < n ==> #[trigger] first@[k] == first_at(seg, k),
                    i <= d,
                    confirmed <= i,
                    confirmed == mines_for(m, seg, p, c as int, i as int),
                decreases d - i,
            {
                if first[i] && are_neighbors(w, h, c, segment[i]) && config[i] {
                    confirmed = confirmed + 1;
                }
                proof {
                    assert(p[i as int] == config@[i as int]);
                }
                i = i + 1;
            }
            let mut undecided: usize = 0;
            let mut i: usize = d;
            proof {
                assert(open_for(m, seg, c as int, d as int) - open_for(m, seg, c as int, d as int) == 0);
            }
            while i < n
                invariant
                    self@ == m,
                    m.wf(),
                    w == m.width,
                    h == m.height,
                    seg == segment@,
                    n == seg.len(),
                    d <= i <= n,
                    c < m.len(),
                    forall|k: int| 0 <= k < n ==> #[trigger] seg[k] < m.len(),
                    first@.len() == n,
                    forall|k: int| 0 <= k < n ==> #[trigger] first@[k] == first_at(seg, k),
                    undecided <= i - d,
                    undecided == open_for(m, seg, c as int, d as int) - open_for(m, seg, c as int, i as int),
                decreases n - i,
            {
                if first[i] && are_neighbors(w, h, c, segment[i]) {
                    undecided = undecided + 1;
                }
                i = i + 1;
            }
            proof {
                assert(open_for(m, seg, c as int, n as int) == 0);
            }
            if confirmed > value || confirmed + undecided < value {
                return false;
            }
            a = a + 1;
        }
        proof {
            assert(p.len() == d);
            assert forall|c: int| #[trigger] segment_clue(m, seg, c) implies mines_for(m, seg, p, c, p.len() as int) <= clue_value(m, c)
                <= mines_for(m, seg, p, c, p.len() as int) + open_for(m, seg, c, p.len() as int) by {
                assert(clues@.contains(c as usize));
                let q = choose|q: int| 0 <= q < clues@.len() && clues@[q] == c as usize;
                assert(mines_for(m, seg, p, clues@[q] as int, d as int) <= clue_value(m, clues@[q] as int));
            }
        }
        true
    }

    /// Adds, for every number of mines, the layouts that begin with the first
    /// `d` decided positions and fit every clue, and how often each position
    /// holds a mine in them.
    fn enumerate_layouts(
        &self,
        segment: &Vec<usize>,
        first: &Vec<bool>,
        clues: &Vec<usize>,
        d: usize,
        config: &mut Vec<bool>,
        ways: &mut Vec<usize>,
        tallies: &mut Vec<Vec<usize>>,
    ) -> (ok: bool)
        requires
            self@.wf(),
            forall|k: int| 0 <= k < segment@.len() ==> #[trigger] segment@[k] < self@.len(),
            first@.len() == segment@.len(),
            forall|k: int| 0 <= k < segment@.len() ==> #[trigger] first@[k] == first_at(segment@, k),
            forall|c: usize| clues@.contains(c) <==> segment_clue(self@, segment@, c as int),
            forall|q: int| 0 <= q < clues@.len() ==> segment_clue(self@, segment@, #[trigger] clues@[q] as int),
            old(config)@.len() == segment@.len(),
            d <= segment@.len(),
            old(ways)@.len() == segment@.len() + 1,
            old(tallies)@.len() == segment@.len() + 1,
            forall|k: int| 0 <= k <= segment@.len() ==> (#[trigger] old(tallies)@[k])@.len() == segment@.len(),
            forall|k: int, i: int|
                0 <= k <= segment@.len() && 0 <= i < segment@.len() ==> #[trigger] old(tallies)@[k]@[i] <= old(ways)@[k],
        ensures
            final(config)@.len() == segment@.len(),
            final(config)@.take(d as int) == old(config)@.take(d as int),
            final(ways)@.len() == segment@.len() + 1,
            final(tallies)@.len() == segment@.len() + 1,
            forall|k: int| 0 <= k <= segment@.len() ==> (#[trigger] final(tallies)@[k])@.len() == segment@.len(),
            forall|k: int, i: int|
                0 <= k <= segment@.len() && 0 <= i < segment@.len() ==> #[trigger] final(tallies)@[k]@[i] <= final(ways)@[k],
            ok ==> forall|k: int|
                0 <= k <= segment@.len() ==> #[trigger] final(ways)@[k] == old(ways)@[k] + valid_layouts(
                    self@,
                    segment@,
                    old(config)@.take(d as int),
                    k as nat,
                ),
            ok ==> forall|k: int, i: int|
                0 <= k <= segment@.len() && 0 <= i < segment@.len() ==> #[trigger] final(tallies)@[k]@[i] == old(tallies)@[k]@[i]
                    + mine_tally(self@, segment@, old(config)@.take(d as int), k as nat, i),
            !ok ==> exists|k: int|
                0 <= k <= segment@.len() && #[trigger] old(ways)@[k] + valid_layouts(
                    self@,
                    segment@,
                    old(config)@.take(d as int),
                    k as nat,
                ) > usize::MAX,
        decreases segment@.len() - d,
    {
        let ghost m = self@;
        let ghost seg = segment@;
        let ghost p = config@.take(d as int);
        let n = segment.len();
        if !self.layout_fits_clues(segment, first, clues, config, d) {
            proof {
                assert forall|k: int, i: int| 0 <= k <= n && 0 <= i < n implies #[trigger] mine_tally(m, seg, p, k as nat, i) == 0 by {
                    lemma_unfit_prefix(m, seg, p, k as nat, i);
                }
                assert forall|k: int| 0 <= k <= n implies #[trigger] valid_layouts(m, seg, p, k as nat) == 0 by {
                    lemma_unfit_prefix(m, seg, p, k as nat, 0);
                }
            }
            return true;
        }
        if d == n {
            proof {
                assert(config@.take(d as int) =~= config@);
            }
            let mut mines: usize = 0;
            let mut i: usize = 0;
            while i < n
                invariant
                    n == config@.len(),
                    i <= n,
                    mines <= i,
                    mines == popcount(config@.take(i as int)),
                decreases n - i,
            {
                proof {
                    assert(config@.take(i + 1).drop_last() =~= config@.take(i as int));
                }
                if config[i] {
                    mines = mines + 1;
                }
                i = i + 1;
            }
            proof {
                assert(config@.take(n as int) =~= p);
                assert(forall|k: int| 0 <= k <= n ==> #[trigger] valid_layouts(m, seg, p, k as nat) == if k == mines { 1nat } else { 0nat });
            }
            let ghost w0 = ways@;
            let ghost t0 = tallies@;
            let cur = ways[mines];
            if cur == usize::MAX {
                proof {
                    assert(w0[mines as int] + valid_layouts(m, seg, p, mines as nat) > usize::MAX);
                }
                return false;
            }
            ways.set(mines, cur + 1);
            let mut i: usize = 0;
            while i < n
                invariant
                    n == config@.len(),
                    n == seg.len(),
                    p == config@,
                    mines <= n,
                    i <= n,
                    tallies@.len() == n + 1,
                    t0.len() == n + 1,
                    forall|k: int| 0 <= k <= n ==> (#[trigger] t0[k])@.len() == n,
                    forall|k: int| 0 <= k <= n ==> (#[trigger] tallies@[k])@.len() == n,
                    forall|k: int| 0 <= k <= n && k != mines ==> #[trigger] tallies@[k] == t0[k],
                    forall|j: int| i <= j < n ==> #[trigger] tallies@[mines as int]@[j] == t0[mines as int]@[j],
                    forall|j: int| 0 <= j < i ==> #[trigger] tallies@[mines as int]@[j] == t0[mines as int]@[j] + if p[j] { 1int } else { 0int },
                    forall|k: int, j: int| 0 <= k <= n && 0 <= j < n ==> #[trigger] t0[k]@[j] <= w0[k],
                    ways@ == w0.update(mines as int, (cur + 1) as usize),
                    cur == w0[mines as int],
                    cur < usize::MAX,
                    w0.len() == n + 1,
                    layout_fits(m, seg, p),
                    popcount(p) == mines,
                    p.len() >= seg.len(),
                decreases n - i,
            {
                if config[i] {
                    proof {
                        assert(t0[mines as int]@[i as int] <= cur);
                    }
                    let v = tallies[mines][i];
                    tallies[mines].set(i, v + 1);
                }
                i = i + 1;
            }
            proof {
                assert forall|k: int, j: int| 0 <= k <= n && 0 <= j < n implies #[trigger] tallies@[k]@[j] == t0[k]@[j]
                    + mine_tally(m, seg, p, k as nat, j) by {
                    if k != mines {
                        assert(tallies@[k] == t0[k]);
                    }
                }
                assert forall|k: int, j: int| 0 <= k <= n && 0 <= j < n implies #[trigger] tallies@[k]@[j] <= ways@[k] by {
                    if k != mines {
                        assert(tallies@[k] == t0[k]);
                    }
                }
            }
            return true;
        }
        config.set(d, false);
        proof {
            assert(config@.take(d as int + 1) =~= p.push(false));
        }
        let ghost w_start = ways@;
        let ok1 = self.enumerate_layouts(segment, first, clues, d + 1, config, ways, tallies);
        let ghost cfg1 = config@;
        proof {
            assert forall|q: int| 0 <= q < d implies cfg1[q] == p[q] by {
                assert(cfg1.take(d as int + 1)[q] == p.push(false)[q]);
            }
        }
        config.set(d, true);
        proof {
            assert(config@.take(d as int + 1) =~= p.push(true));
            assert(config@.take(d as int) =~= p);
        }
        if !ok1 {
            proof {
                let k = choose|k: int|
                    0 <= k <= n && #[trigger] w_start[k] + valid_layouts(m, seg, p.push(false), k as nat) > usize::MAX;
                assert(valid_layouts(m, seg, p, k as nat) == valid_layouts(m, seg, p.push(false), k as nat) + valid_layouts(m, seg, p.push(true), k as nat));
                assert(w_start[k] + valid_layouts(m, seg, p, k as nat) > usize::MAX);
            }
            return false;
        }
        let ghost w_mid = ways@;
        let ok2 = self.enumerate_layouts(segment, first, clues, d + 1, config, ways, tallies);
        if !ok2 {
            proof {
                let k = choose|k: int|
                    0 <= k <= n && #[trigger] w_mid[k] + valid_layouts(m, seg, p.push(true), k as nat) > usize::MAX;
                assert(valid_layouts(m, seg, p, k as nat) == valid_layouts(m, seg, p.push(false), k as nat) + valid_layouts(m, seg, p.push(true), k as nat));
                assert(w_start[k] + valid_layouts(m, seg, p, k as nat) > usize::MAX);
            }
            return false;
        }
        proof {
            assert(config@.take(d as int) =~= p);
            assert forall|k: int| 0 <= k <= n implies #[trigger] ways@[k] == old(ways)@[k] + valid_layouts(m, seg, p, k as nat) by {
                assert(valid_layouts(m, seg, p, k as nat) == valid_layouts(m, seg, p.push(false), k as nat) + valid_layouts(m, seg, p.push(true), k as nat));
            }
            assert forall|k: int, i: int| 0 <= k <= n && 0 <= i < n implies #[trigger] tallies@[k]@[i] == old(tallies)@[k]@[i]
                + mine_tally(m, seg, p, k as nat, i) by {
                assert(mine_tally(m, seg, p, k as nat, i) == mine_tally(m, seg, p.push(false), k as nat, i) + mine_tally(m, seg, p.push(true), k as nat, i));
            }
        }
        true
    }

    /// Enumerates every way of laying mines on the cells of a segment that fits
    /// the revealed numbers around it, and counts them by number of mines,
    /// together with how many of them put a mine on each cell; `None` when
    /// some count does not fit in a `usize`.
    ///
    /// The cells of the segment must lie on the board, as every frontier cell does.
    pub fn count_orientations(&self, segment: &Vec<usize>) -> (r: Option<SegmentResult>)
        requires
            self@.wf(),
            forall|k: int| 0 <= k < segment@.len() ==> #[trigger] segment@[k] < self@.len(),
            segment@.len() < usize::MAX,
        ensures
            r is None <==> exists|k: int|
                0 <= k <= segment@.len() && #[trigger] valid_layouts(self@, segment@, Seq::empty(), k as nat) > usize::MAX,
            r matches Some(res) ==> orientations_of(self@, segment@, res),
    {
        let ghost m = self@;
        let ghost seg = segment@;
        let n = segment.len();
        let mut cells: Vec<usize> = Vec::with_capacity(n);
        let mut first: Vec<bool> = Vec::with_capacity(n);
        let mut config: Vec<bool> = Vec::with_capacity(n);
        let mut i: usize = 0;
        while i < n
            invariant
                n == seg.len(),
                seg == segment@,
                i <= n,
                cells@ == seg.take(i as int),
                config@.len() == i,
                first@.len() == i,
                forall|k: int| 0 <= k < i ==> #[trigger] first@[k] == first_at(seg, k),
            decreases n - i,
        {
            let mut fresh = true;
            let mut j: usize = 0;
            while j < i
                invariant
                    n == seg.len(),
                    seg == segment@,
                    i < n,
                    j <= i,
                    fresh == (forall|q: int| 0 <= q < j ==> seg[q] != seg[i as int]),
                decreases i - j,
            {
                if segment[j] == segment[i] {
                    fresh = false;
                }
                j = j + 1;
            }
            first.push(fresh);
            config.push(false);
            cells.push(segment[i]);
            proof {
                assert(cells@ =~= seg.take(i + 1));
            }
            i = i + 1;
        }
        proof {
            assert(cells@ =~= seg);
        }
        let clues = self.get_segment_clues(segment);
        let mut ways: Vec<usize> = Vec::with_capacity(n + 1);
        let mut tallies: Vec<Vec<usize>> = Vec::with_capacity(n + 1);
        let mut k: usize = 0;
        while k <= n
            invariant
                n == seg.len(),
                n < usize::MAX,
                k <= n + 1,
                ways@.len() == k,
                tallies@.len() == k,
                forall|q: int| 0 <= q < k ==> #[trigger] ways@[q] == 0,
                forall|q: int| 0 <= q < k ==> (#[trigger] tallies@[q])@.len() == n,
                forall|q: int, i: int| 0 <= q < k && 0 <= i < n ==> #[trigger] tallies@[q]@[i] == 0,
            decreases n + 1 - k,
        {
            let mut row: Vec<usize> = Vec::with_capacity(n);
            let mut i: usize = 0;
            while i < n
                invariant
                    i <= n,
                    row@.len() == i,
                    forall|q: int| 0 <= q < i ==> #[trigger] row@[q] == 0,
                decreases n - i,
            {
                row.push(0);
                i = i + 1;
            }
            let ghost t0 = tallies@;
            ways.push(0);
            tallies.push(row);
            proof {
                assert forall|q: int, i: int| 0 <= q < k + 1 && 0 <= i < n implies #[trigger] tallies@[q]@[i] == 0 by {
                    if q < k {
                        assert(tallies@[q] == t0[q]);
                    }
                }
                assert forall|q: int| 0 <= q < k + 1 implies (#[trigger] tallies@[q])@.len() == n by {
                    if q < k {
                        assert(tallies@[q] == t0[q]);
                    }
                }
            }
            k = k + 1;
        }
        proof {
            assert(config@.take(0) =~= Seq::<bool>::empty());
        }
        let ghost w_zero = ways@;
        let ok = self.enumerate_layouts(segment, &first, &clues, 0, &mut config, &mut ways, &mut tallies);
        if !ok {
            proof {
                let k = choose|k: int|
                    0 <= k <= n && #[trigger] w_zero[k] + valid_layouts(m, seg, Seq::empty(), k as nat) > usize::MAX;
                assert(w_zero[k] == 0);
            }
            return None;
        }
        let mut total: HashMap<usize, usize> = HashMap::new();
        let mut by_count: HashMap<usize, Vec<usize>> = HashMap::new();
        let mut k: usize = 0;
        while k <= n
            invariant
                n == seg.len(),
                n < usize::MAX,
                k <= n + 1,
                ways@.len() == n + 1,
                tallies@.len() == n + 1,
                forall|q: int| 0 <= q <= n ==> (#[trigger] tallies@[q])@.len() == n,
                forall|q: int| 0 <= q <= n ==> #[trigger] ways@[q] == valid_layouts(m, seg, Seq::empty(), q as nat),
                forall|q: int, i: int| 0 <= q <= n && 0 <= i < n ==> #[trigger] tallies@[q]@[i] == mine_tally(m, seg, Seq::empty(), q as nat, i),
                forall|q: usize| total@.contains_key(q) <==> (q < k && valid_layouts(m, seg, Seq::empty(), q as nat) > 0),
                forall|q: usize| #[trigger] total@.contains_key(q) ==> total@[q] == valid_layouts(m, seg, Seq::empty(), q as nat),
                forall|q: usize| by_count@.contains_key(q) <==> total@.contains_key(q),
                forall|q: usize| #[trigger] by_count@.contains_key(q) ==> by_count@[q]@.len() == n,
                forall|q: usize, i: int|
                    by_count@.contains_key(q) && 0 <= i < n ==> #[trigger] by_count@[q]@[i] == mine_tally(m, seg, Seq::empty(), q as nat, i),
            decreases n + 1 - k,
        {
            if ways[k] > 0 {
                let mut row: Vec<usize> = Vec::with_capacity(n);
                let mut i: usize = 0;
                while i < n
                    invariant
                        n == seg.len(),
                        k <= n,
                        tallies@.len() == n + 1,
                        (tallies@[k as int])@.len() == n,
                        i <= n,
                        row@.len() == i,
                        forall|q: int| 0 <= q < i ==> #[trigger] row@[q] == tallies@[k as int]@[q],
                    decreases n - i,
                {
                    row.push(tallies[k][i]);
                    i = i + 1;
                }
                total.insert(k, ways[k]);
                by_count.insert(k, row);
            }
            k = k + 1;
        }
        proof {
            assert forall|q: int| 0 <= q <= n implies #[trigger] valid_layouts(m, seg, Seq::empty(), q as nat) <= usize::MAX by {
                assert(ways@[q] == valid_layouts(m, seg, Seq::empty(), q as nat));
            }
        }
        Some(SegmentResult { cell_indices: cells, total_ways_per_mine_count: total, cell_mine_tallies_by_count: by_count })
    }

    /// Enumerates every way of laying mines on the cells of a segment that fits
    /// the revealed numbers around it, and counts them by number of mines,
    /// together with how many of them put a mine on each cell.
    ///
    /// Every count must fit in a `usize`; `count_orientations` checks that.
    /// The cells of the segment must lie on the board, as every frontier cell does.
    pub fn get_possible_orientations(&self, segment: &Vec<usize>) -> (r: SegmentResult)
        requires
            self@.wf(),
            forall|k: int| 0 <= k < segment@.len() ==> #[trigger] segment@[k] < self@.len(),
            segment@.len() < usize::MAX,
            forall|k: int| 0 <= k <= segment@.len() ==> #[trigger] valid_layouts(self@, segment@, Seq::empty(), k as nat) <= usize::MAX,
        ensures
            orientations_of(self@, segment@, r),
    {
        match self.count_orientations(segment) {
            Some(r) => r,
            None => {
                proof {
                    let k = choose|k: int|
                        0 <= k <= segment@.len() && #[trigger] valid_layouts(self@, segment@, Seq::empty(), k as nat) > usize::MAX;
                }
                SegmentResult { cell_indices: Vec::new(), total_ways_per_mine_count: HashMap::new(), cell_mine_tallies_by_count: HashMap::new() }
            },
        }
    }
}

/// Whether `v` lists `x`.
pub fn slice_contains(v: &[usize], x: usize) -> (r: bool)
    ensures
        r == v@.contains(x),
{
    let mut i: usize = 0;
    while i < v.len()
        invariant
            i <= v@.len(),
            forall|q: int| 0 <= q < i ==> v@[q] != x,
        decreases v@.len() - i,
    {
        if v[i] == x {
            return true;
        }
        i = i + 1;
    }
    false
}

} // verus!
