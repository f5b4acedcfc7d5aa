//! Operations on the cells of a board: placing a mine, and opening a
//! region of empty cells.
use vstd::prelude::*;

use super::{adjacent_mines, field_wf, is_mine, mine_set, numbers_consistent, Cell, CellContent, CellState};
use crate::grid::{
    col_of, index_of, is_neighbor, lemma_coords, lemma_neighbor_set_finite, neighbor_indices, neighbor_set,
    row_of,
};

verus! {

/// A cell that the player has not opened and that has no mine around it.
pub open spec fn is_unopened_zero(c: Cell) -> bool {
    c.state != CellState::Revealed && c.content == CellContent::Number(0)
}

/// `p` is a walk over the board, from neighbor to neighbor, in which every
/// cell but the last is an unopened cell with no mine around it.
pub open spec fn is_trail(w: int, h: int, cells: Seq<Cell>, p: Seq<int>) -> bool {
    &&& p.len() >= 1
    &&& forall|k: int| 0 <= k < p.len() ==> 0 <= #[trigger] p[k] < cells.len()
    &&& forall|k: int|
        0 <= k < p.len() - 1 ==> is_neighbor(w, h, #[trigger] p[k], p[k + 1]) && is_unopened_zero(
            cells[p[k]],
        )
}

/// Cell `j` lies at the end of a trail that starts in `starts`.
pub open spec fn reached(w: int, h: int, cells: Seq<Cell>, starts: Set<int>, j: int) -> bool {
    exists|p: Seq<int>| #[trigger] is_trail(w, h, cells, p) && starts.contains(p[0]) && p.last() == j
}

/// Cell `j` is opened by a cascade from `starts`: it is reached and holds no mine.
pub open spec fn opened(w: int, h: int, cells: Seq<Cell>, starts: Set<int>, j: int) -> bool {
    reached(w, h, cells, starts, j) && !is_mine(cells[j])
}

/// The board after a cascade from `starts`: every opened cell is revealed,
/// every other cell is as it was.
pub open spec fn cascade(w: int, h: int, cells: Seq<Cell>, starts: Set<int>) -> Seq<Cell> {
    Seq::new(
        cells.len(),
        |j: int|
            if opened(w, h, cells, starts, j) {
                Cell { content: cells[j].content, state: CellState::Revealed }
            } else {
                cells[j]
            },
    )
}

/// The cells listed in `v`, as a set of indices.
pub open spec fn index_set(v: Seq<usize>) -> Set<int> {
    Set::new(|s: int| exists|k: int| 0 <= k < v.len() && v[k] as int == s)
}

/// Appending an entry adds it to the set of entries.
pub proof fn lemma_index_set_push(v: Seq<usize>, x: usize)
    ensures
        index_set(v.push(x)) == index_set(v).insert(x as int),
{
    let w = v.push(x);
    assert forall|s: int| index_set(w).contains(s) <==> index_set(v).insert(x as int).contains(s) by {
        if index_set(w).contains(s) {
            let k = choose|k: int| 0 <= k < w.len() && w[k] as int == s;
            if k < v.len() {
                assert(v[k] == w[k]);
            }
        }
        if index_set(v).contains(s) {
            let k = choose|k: int| 0 <= k < v.len() && v[k] as int == s;
            assert(w[k] == v[k]);
        }
        if s == x as int {
            assert(w[v.len() as int] == x);
        }
    }
    assert(index_set(w) =~= index_set(v).insert(x as int));
}

/// A list without repeats names as many cells as it has entries.
pub proof fn lemma_index_set_len(v: Seq<usize>)
    requires
        v.no_duplicates(),
    ensures
        index_set(v).finite(),
        index_set(v).len() == v.len(),
    decreases v.len(),
{
    if v.len() == 0 {
        assert(index_set(v) =~= Set::<int>::empty());
    } else {
        let u = v.drop_last();
        assert(u.no_duplicates());
        lemma_index_set_len(u);
        assert(u.push(v.last()) =~= v);
        lemma_index_set_push(u, v.last());
        assert(!index_set(u).contains(v.last() as int)) by {
            if index_set(u).contains(v.last() as int) {
                let k = choose|k: int| 0 <= k < u.len() && u[k] as int == v.last() as int;
                assert(v[k] == v[v.len() - 1]);
            }
        }
    }
}

/// A list without repeats of indices below `bound` has at most `bound` entries.
pub proof fn lemma_distinct_below(v: Seq<usize>, bound: int)
    requires
        v.no_duplicates(),
        0 <= bound,
        forall|k: int| 0 <= k < v.len() ==> #[trigger] v[k] < bound,
    ensures
        v.len() <= bound,
{
    lemma_index_set_len(v);
    vstd::set_lib::lemma_int_range(0, bound);
    assert forall|s: int| #[trigger] index_set(v).contains(s) implies vstd::set_lib::set_int_range(0, bound).contains(s) by {
        let k = choose|k: int| 0 <= k < v.len() && v[k] as int == s;
    }
    vstd::set_lib::lemma_len_subset(index_set(v), vstd::set_lib::set_int_range(0, bound));
}

/// The number of cells that are not revealed.
pub open spec fn count_unrevealed(s: Seq<Cell>) -> nat
    decreases s.len(),
{
    if s.len() == 0 {
        0
    } else {
        count_unrevealed(s.drop_last()) + if s.last().state != CellState::Revealed {
            1nat
        } else {
            0nat
        }
    }
}

proof fn lemma_count_unrevealed_update(s: Seq<Cell>, i: int, c: Cell)
    requires
        0 <= i < s.len(),
        s[i].state != CellState::Revealed,
        c.state == CellState::Revealed,
    ensures
        count_unrevealed(s.update(i, c)) + 1 == count_unrevealed(s),
    decreases s.len(),
{
    let t = s.update(i, c);
    if i == s.len() - 1 {
        assert(t.drop_last() =~= s.drop_last());
    } else {
        lemma_count_unrevealed_update(s.drop_last(), i, c);
        assert(t.drop_last() =~= s.drop_last().update(i, c));
    }
}

/// A cell has at most eight neighbors.
pub proof fn lemma_neighbor_count(w: int, h: int, i: int)
    requires
        w > 0,
        h > 0,
        0 <= i < w * h,
    ensures
        neighbor_set(w, h, i).finite(),
        neighbor_set(w, h, i).len() <= 8,
{
    lemma_neighbor_set_finite(w, h, i);
    let cand = seq![
        i - w - 1,
        i - w,
        i - w + 1,
        i - 1,
        i + 1,
        i + w - 1,
        i + w,
        i + w + 1,
    ];
    lemma_coords(w, h, i);
    assert forall|j: int| neighbor_set(w, h, i).contains(j) implies cand.to_set().contains(j) by {
        lemma_coords(w, h, j);
        let dx = col_of(w, j) - col_of(w, i);
        let dy = row_of(w, j) - row_of(w, i);
        assert(j == index_of(w, col_of(w, j), row_of(w, j)));
        assert(row_of(w, j) * w == row_of(w, i) * w + dy * w) by (nonlinear_arith)
            requires
                dy == row_of(w, j) - row_of(w, i),
        ;
        assert(j == i + dy * w + dx);
        if dy == -1 {
            assert(dy * w == -w) by (nonlinear_arith)
                requires
                    dy == -1,
            ;
            if dx == -1 {
                assert(cand[0] == j);
            } else if dx == 0 {
                assert(cand[1] == j);
            } else {
                assert(cand[2] == j);
            }
        } else if dy == 0 {
            assert(dy * w == 0) by (nonlinear_arith)
                requires
                    dy == 0,
            ;
            if dx == -1 {
                assert(cand[3] == j);
            } else {
                assert(cand[4] == j);
            }
        } else {
            assert(dy == 1);
            assert(dy * w == w) by (nonlinear_arith)
                requires
                    dy == 1,
            ;
            if dx == -1 {
                assert(cand[5] == j);
            } else if dx == 0 {
                assert(cand[6] == j);
            } else {
                assert(cand[7] == j);
            }
        }
    }
    cand.lemma_cardinality_of_set();
    vstd::seq_lib::seq_to_set_is_finite(cand);
    vstd::set_lib::lemma_len_subset(neighbor_set(w, h, i), cand.to_set());
}

/// The mines around a cell are finitely many, at most eight.
pub proof fn lemma_adjacent_mines_bound(w: int, h: int, cells: Seq<Cell>, i: int)
    requires
        w > 0,
        h > 0,
        0 <= i < w * h,
    ensures
        adjacent_mines(w, h, cells, i).finite(),
        adjacent_mines(w, h, cells, i).len() <= 8,
{
    lemma_neighbor_count(w, h, i);
    vstd::set_lib::lemma_len_subset(adjacent_mines(w, h, cells, i), neighbor_set(w, h, i));
}

/// Puts a mine on cell `idx` and raises the number of every neighbor without
/// a mine; a cell that already holds a mine is left alone.
pub fn place_mine_on(w: usize, h: usize, cells: &mut Vec<Cell>, idx: usize)
    requires
        field_wf(w as int, h as int, old(cells)@),
        numbers_consistent(w as int, h as int, old(cells)@),
        idx < old(cells)@.len(),
    ensures
        final(cells)@.len() == old(cells)@.len(),
        numbers_consistent(w as int, h as int, final(cells)@),
        mine_set(final(cells)@) == mine_set(old(cells)@).insert(idx as int),
        forall|j: int| 0 <= j < old(cells)@.len() ==> #[trigger] final(cells)@[j].state == old(cells)@[j].state,
        is_mine(old(cells)@[idx as int]) ==> final(cells)@ == old(cells)@,
{
    let ghost wi = w as int;
    let ghost hi = h as int;
    let ghost c0 = cells@;
    if cells[idx].content == CellContent::Mine {
        proof {
            assert(mine_set(c0).insert(idx as int) =~= mine_set(c0));
        }
        return;
    }
    let st = cells[idx].state;
    cells.set(idx, Cell { content: CellContent::Mine, state: st });
    let nbrs = neighbor_indices(w, h, idx);
    let ghost c1 = cells@;
    let mut k: usize = 0;
    while k < nbrs.len()
        invariant
            field_wf(wi, hi, c0),
            numbers_consistent(wi, hi, c0),
            wi == w,
            hi == h,
            idx < c0.len(),
            !is_mine(c0[idx as int]),
            c1 == c0.update(idx as int, Cell { content: CellContent::Mine, state: c0[idx as int].state }),
            cells@.len() == c0.len(),
            k <= nbrs@.len(),
            nbrs@.no_duplicates(),
            forall|j: usize| nbrs@.contains(j) <==> is_neighbor(wi, hi, idx as int, j as int),
            forall|m: int| 0 <= m < nbrs@.len() ==> is_neighbor(wi, hi, idx as int, #[trigger] nbrs@[m] as int),
            forall|j: int|
                0 <= j < c0.len() ==> {
                    &&& (#[trigger] cells@[j]).state == c1[j].state
                    &&& is_mine(cells@[j]) == is_mine(c1[j])
                    &&& (nbrs@.subrange(0, k as int).contains(j as usize) && !is_mine(c1[j])) ==> (
                    match (c1[j].content, cells@[j].content) {
                        (CellContent::Number(a), CellContent::Number(b)) => b == a + 1,
                        _ => false,
                    })
                    &&& !(nbrs@.subrange(0, k as int).contains(j as usize) && !is_mine(c1[j]))
                        ==> cells@[j] == c1[j]
                },
        decreases nbrs@.len() - k,
    {
        let n = nbrs[k];
        let ghost before = cells@;
        proof {
            let sub0 = nbrs@.subrange(0, k as int);
            assert(!sub0.contains(n)) by {
                if sub0.contains(n) {
                    let m = choose|m: int| 0 <= m < sub0.len() && sub0[m] == n;
                    assert(nbrs@[m] == nbrs@[k as int]);
                }
            }
            assert(is_neighbor(wi, hi, idx as int, n as int));
        }
        match cells[n].content {
            CellContent::Number(count) => {
                proof {
                    assert(n != idx);
                    assert(cells@[n as int] == c1[n as int]);
                    assert(c1[n as int] == c0[n as int]);
                    lemma_adjacent_mines_bound(wi, hi, c0, n as int);
                    assert(count == adjacent_mines(wi, hi, c0, n as int).len());
                }
                let st = cells[n].state;
                cells.set(n, Cell { content: CellContent::Number(count + 1), state: st });
            },
            CellContent::Mine => {},
        }
        proof {
            assert forall|j: int| 0 <= j < c0.len() implies {
                &&& (#[trigger] cells@[j]).state == c1[j].state
                &&& is_mine(cells@[j]) == is_mine(c1[j])
                &&& (nbrs@.subrange(0, k + 1).contains(j as usize) && !is_mine(c1[j])) ==> (
                match (c1[j].content, cells@[j].content) {
                    (CellContent::Number(a), CellContent::Number(b)) => b == a + 1,
                    _ => false,
                })
                &&& !(nbrs@.subrange(0, k + 1).contains(j as usize) && !is_mine(c1[j])) ==> cells@[j]
                    == c1[j]
            } by {
                let sub1 = nbrs@.subrange(0, k + 1);
                let sub0 = nbrs@.subrange(0, k as int);
                if j == n as int {
                    assert(sub1[k as int] == n);
                } else {
                    assert(before[j] == cells@[j]);
                    if sub1.contains(j as usize) {
                        let m = choose|m: int| 0 <= m < sub1.len() && sub1[m] == j as usize;
                        assert(m != k);
                        assert(sub0[m] == j as usize);
                    }
                    if sub0.contains(j as usize) {
                        let m = choose|m: int| 0 <= m < sub0.len() && sub0[m] == j as usize;
                        assert(sub1[m] == j as usize);
                    }
                }
            }
        }
        k = k + 1;
    }
    proof {
        let c2 = cells@;
        assert(nbrs@.subrange(0, nbrs@.len() as int) =~= nbrs@);
        assert(mine_set(c2) =~= mine_set(c0).insert(idx as int));
        assert forall|i: int| 0 <= i < c2.len() implies match #[trigger] c2[i].content {
            CellContent::Number(n) => n == adjacent_mines(wi, hi, c2, i).len(),
            CellContent::Mine => true,
        } by {
            if !is_mine(c2[i]) {
                assert(i != idx);
                assert(!is_mine(c0[i]));
                lemma_adjacent_mines_bound(wi, hi, c0, i);
                let old_set = adjacent_mines(wi, hi, c0, i);
                let new_set = adjacent_mines(wi, hi, c2, i);
                assert(c0[i].content == c1[i].content);
                if is_neighbor(wi, hi, i, idx as int) {
                    assert(nbrs@.contains(i as usize));
                    assert(new_set =~= old_set.insert(idx as int));
                    assert(!old_set.contains(idx as int));
                } else {
                    assert(!nbrs@.contains(i as usize));
                    assert(new_set =~= old_set);
                }
            }
        }
    }
}

/// Puts a mine on each of the first `n` cells listed in `order`, in turn.
pub fn place_mines_on(w: usize, h: usize, cells: &mut Vec<Cell>, order: &Vec<usize>, n: usize)
    requires
        field_wf(w as int, h as int, old(cells)@),
        numbers_consistent(w as int, h as int, old(cells)@),
        n <= order@.len(),
        forall|k: int| 0 <= k < order@.len() ==> #[trigger] order@[k] < old(cells)@.len(),
    ensures
        final(cells)@.len() == old(cells)@.len(),
        numbers_consistent(w as int, h as int, final(cells)@),
        mine_set(final(cells)@) == mine_set(old(cells)@) + index_set(order@.take(n as int)),
        forall|j: int| 0 <= j < old(cells)@.len() ==> #[trigger] final(cells)@[j].state == old(cells)@[j].state,
{
    let ghost c0 = cells@;
    let mut k: usize = 0;
    proof {
        assert(index_set(order@.take(0)) =~= Set::<int>::empty());
        assert(mine_set(c0) + Set::<int>::empty() =~= mine_set(c0));
    }
    while k < n
        invariant
            field_wf(w as int, h as int, c0),
            n <= order@.len(),
            forall|q: int| 0 <= q < order@.len() ==> #[trigger] order@[q] < c0.len(),
            k <= n,
            cells@.len() == c0.len(),
            numbers_consistent(w as int, h as int, cells@),
            mine_set(cells@) == mine_set(c0) + index_set(order@.take(k as int)),
            forall|j: int| 0 <= j < c0.len() ==> #[trigger] cells@[j].state == c0[j].state,
        decreases n - k,
    {
        let ghost before = cells@;
        place_mine_on(w, h, cells, order[k]);
        proof {
            assert(order@.take(k + 1) =~= order@.take(k as int).push(order@[k as int]));
            lemma_index_set_push(order@.take(k as int), order@[k as int]);
            assert(mine_set(cells@) =~= mine_set(c0) + index_set(order@.take(k + 1)));
            assert forall|j: int| 0 <= j < c0.len() implies #[trigger] cells@[j].state == c0[j].state by {
                assert(before[j].state == c0[j].state);
            }
        }
        k = k + 1;
    }
}

/// Reveals every cell that a cascade from the listed cells opens.
///
/// A cell that is opened and has no mine around it opens each of its
/// neighbors in turn; the walk goes on until no such cell is left.
pub fn cascade_open_from(w: usize, h: usize, cells: &mut Vec<Cell>, start: Vec<usize>)
    requires
        field_wf(w as int, h as int, old(cells)@),
        forall|k: int| 0 <= k < start@.len() ==> #[trigger] start@[k] < old(cells)@.len(),
    ensures
        final(cells)@ == cascade(w as int, h as int, old(cells)@, index_set(start@)),
{
    let ghost wi = w as int;
    let ghost hi = h as int;
    let ghost c0 = cells@;
    let ghost starts = index_set(start@);
    let mut to_visit = start;
    proof {
        assert forall|s: int| #[trigger] starts.contains(s) implies 0 <= s < c0.len() by {
            let k = choose|k: int| 0 <= k < start@.len() && start@[k] as int == s;
            assert(start@[k] < c0.len());
        }
        assert forall|k: int| 0 <= k < to_visit@.len() implies #[trigger] to_visit@[k] < c0.len()
            && reached(wi, hi, c0, starts, to_visit@[k] as int) by {
            let p = seq![to_visit@[k] as int];
            assert(is_trail(wi, hi, c0, p));
        }
    }
    while to_visit.len() > 0
        invariant
            field_wf(wi, hi, c0),
            wi == w,
            hi == h,
            starts == index_set(start@),
            forall|s: int| #[trigger] starts.contains(s) ==> 0 <= s < c0.len(),
            cells@.len() == c0.len(),
            forall|j: int| 0 <= j < c0.len() ==> (#[trigger] cells@[j]).content == c0[j].content,
            forall|j: int|
                0 <= j < c0.len() ==> #[trigger] cells@[j] == c0[j] || (cells@[j].state
                    == CellState::Revealed && c0[j].state != CellState::Revealed && opened(
                    wi,
                    hi,
                    c0,
                    starts,
                    j,
                )),
            forall|k: int|
                0 <= k < to_visit@.len() ==> #[trigger] to_visit@[k] < c0.len() && reached(
                    wi,
                    hi,
                    c0,
                    starts,
                    to_visit@[k] as int,
                ),
            forall|s: int| #[trigger] starts.contains(s) ==> covered(cells@, to_visit@, s),
            forall|z: int|
                0 <= z < c0.len() && #[trigger] newly_opened_zero(c0, cells@, z) ==> closed_at(
                    wi,
                    hi,
                    cells@,
                    to_visit@,
                    z,
                ),
        decreases 9 * count_unrevealed(cells@) + to_visit@.len(),
    {
        let ghost tv0 = to_visit@;
        let ghost cur0 = cells@;
        let v = to_visit.pop().unwrap();
        proof {
            assert(reached(wi, hi, c0, starts, tv0[tv0.len() - 1] as int));
            assert(to_visit@ =~= tv0.drop_last());
            assert(v == tv0[tv0.len() - 1]);
            // Everything the list covered before is still covered, except possibly `v`.
            assert forall|n: int| 0 <= n < c0.len() && covered(cur0, tv0, n) && n != v as int implies covered(
                cells@,
                to_visit@,
                n,
            ) by {
                if tv0.contains(n as usize) && !(cur0[n].state == CellState::Revealed || is_mine(
                    cur0[n],
                )) {
                    let m = choose|m: int| 0 <= m < tv0.len() && tv0[m] == n as usize;
                    assert(m != tv0.len() - 1);
                    assert(to_visit@[m] == n as usize);
                }
            }
        }
        if cells[v].state == CellState::Revealed {
            proof {
                assert forall|s: int| #[trigger] starts.contains(s) implies covered(cells@, to_visit@, s) by {
                    assert(covered(cur0, tv0, s));
                }
                assert forall|z: int|
                    0 <= z < c0.len() && #[trigger] newly_opened_zero(c0, cells@, z) implies closed_at(
                    wi,
                    hi,
                    cells@,
                    to_visit@,
                    z,
                ) by {
                    assert(closed_at(wi, hi, cur0, tv0, z));
                    assert forall|n: int| is_neighbor(wi, hi, z, n) implies #[trigger] covered(
                        cells@,
                        to_visit@,
                        n,
                    ) by {
                        assert(covered(cur0, tv0, n));
                    }
                }
            }
        } else {
            match cells[v].content {
                CellContent::Number(num) => {
                    let ghost vtrail = choose|p: Seq<int>|
                        #[trigger] is_trail(wi, hi, c0, p) && starts.contains(p[0]) && p.last() == v as int;
                    proof {
                        assert(cur0[v as int] == c0[v as int]);
                        lemma_count_unrevealed_update(
                            cur0,
                            v as int,
                            Cell { content: cur0[v as int].content, state: CellState::Revealed },
                        );
                    }
                    let content = cells[v].content;
                    cells.set(v, Cell { content: content, state: CellState::Revealed });
                    let ghost cur1 = cells@;
                    let ghost tv1 = to_visit@;
                    proof {
                        assert forall|n: int| 0 <= n < c0.len() && covered(cur0, tv0, n) implies covered(cells@, to_visit@, n) by {
                            if n != v as int {
                                assert(cells@[n] == cur0[n]);
                            }
                        }
                        assert forall|s: int| #[trigger] starts.contains(s) implies covered(
                            cells@,
                            to_visit@,
                            s,
                        ) by {
                            assert(covered(cur0, tv0, s));
                        }
                        assert forall|z: int|
                            0 <= z < c0.len() && z != v && #[trigger] newly_opened_zero(c0, cells@, z) implies closed_at(
                            wi,
                            hi,
                            cells@,
                            to_visit@,
                            z,
                        ) by {
                            assert(cells@[z] == cur0[z]);
                            assert(newly_opened_zero(c0, cur0, z));
                            assert(closed_at(wi, hi, cur0, tv0, z));
                            assert forall|n: int| is_neighbor(wi, hi, z, n) implies #[trigger] covered(
                                cells@,
                                to_visit@,
                                n,
                            ) by {
                                assert(covered(cur0, tv0, n));
                            }
                        }
                    }
                    if num == 0 {
                        let nbrs = neighbor_indices(w, h, v);
                        let mut k: usize = 0;
                        while k < nbrs.len()
                            invariant
                                field_wf(wi, hi, c0),
                                wi == w,
                                hi == h,
                                v < c0.len(),
                                cells@ == cur1,
                                cur1.len() == c0.len(),
                                is_trail(wi, hi, c0, vtrail),
                                starts.contains(vtrail[0]),
                                vtrail.last() == v as int,
                                is_unopened_zero(c0[v as int]),
                                k <= nbrs@.len(),
                                nbrs@.len() <= 8,
                                forall|m: int| 0 <= m < nbrs@.len() ==> is_neighbor(wi, hi, v as int, #[trigger] nbrs@[m] as int),
                                forall|j: usize| nbrs@.contains(j) <==> is_neighbor(wi, hi, v as int, j as int),
                                to_visit@.len() <= tv1.len() + k,
                                tv1.len() <= to_visit@.len(),
                                forall|m: int| 0 <= m < tv1.len() ==> #[trigger] to_visit@[m] == tv1[m],
                                forall|m: int|
                                    0 <= m < to_visit@.len() ==> #[trigger] to_visit@[m] < c0.len() && reached(
                                        wi,
                                        hi,
                                        c0,
                                        starts,
                                        to_visit@[m] as int,
                                    ),
                                forall|m: int| 0 <= m < k ==> covered(cur1, to_visit@, #[trigger] nbrs@[m] as int),
                            decreases nbrs@.len() - k,
                        {
                            let n = nbrs[k];
                            let ghost tvb = to_visit@;
                            if cells[n].state != CellState::Revealed {
                                proof {
                                    let p2 = vtrail.push(n as int);
                                    assert(is_trail(wi, hi, c0, p2)) by {
                                        assert forall|q: int| 0 <= q < p2.len() - 1 implies is_neighbor(
                                            wi,
                                            hi,
                                            #[trigger] p2[q],
                                            p2[q + 1],
                                        ) && is_unopened_zero(c0[p2[q]]) by {
                                            if q < vtrail.len() - 1 {
                                                assert(p2[q] == vtrail[q] && p2[q + 1] == vtrail[q + 1]);
                                            }
                                        }
                                        assert forall|q: int| 0 <= q < p2.len() implies 0 <= #[trigger] p2[q] < c0.len() by {
                                            if q < vtrail.len() {
                                                assert(p2[q] == vtrail[q]);
                                            }
                                        }
                                    }
                                    assert(p2[0] == vtrail[0]);
                                }
                                to_visit.push(n);
                                proof {
                                    assert forall|m: int| 0 <= m < tv1.len() implies #[trigger] to_visit@[m] == tv1[m] by {
                                        assert(to_visit@[m] == tvb[m]);
                                    }
                                    assert forall|m: int| 0 <= m < k + 1 implies covered(
                                        cur1,
                                        to_visit@,
                                        #[trigger] nbrs@[m] as int,
                                    ) by {
                                        if m < k {
                                            assert(covered(cur1, tvb, nbrs@[m] as int));
                                            if tvb.contains(nbrs@[m]) {
                                                let q = choose|q: int| 0 <= q < tvb.len() && tvb[q] == nbrs@[m];
                                                assert(to_visit@[q] == tvb[q]);
                                            }
                                        } else {
                                            assert(to_visit@[to_visit@.len() - 1] == n);
                                        }
                                    }
                                }
                            }
                            k = k + 1;
                        }
                        proof {
                            assert forall|n: int| 0 <= n < c0.len() && covered(cur1, tv1, n) implies covered(cells@, to_visit@, n) by {
                                if tv1.contains(n as usize) {
                                    let q = choose|q: int| 0 <= q < tv1.len() && tv1[q] == n as usize;
                                    assert(to_visit@[q] == tv1[q]);
                                }
                            }
                            assert forall|s: int| #[trigger] starts.contains(s) implies covered(
                                cells@,
                                to_visit@,
                                s,
                            ) by {
                                assert(covered(cur1, tv1, s));
                            }
                            assert forall|z: int|
                                0 <= z < c0.len() && #[trigger] newly_opened_zero(c0, cells@, z) implies closed_at(
                                wi,
                                hi,
                                cells@,
                                to_visit@,
                                z,
                            ) by {
                                if z == v as int {
                                    assert forall|n: int| is_neighbor(wi, hi, z, n) implies #[trigger] covered(
                                        cells@,
                                        to_visit@,
                                        n,
                                    ) by {
                                        assert(nbrs@.contains(n as usize));
                                        let m = choose|m: int| 0 <= m < nbrs@.len() && nbrs@[m] == n as usize;
                                        assert(covered(cur1, to_visit@, nbrs@[m] as int));
                                    }
                                } else {
                                    assert(closed_at(wi, hi, cur1, tv1, z));
                                    assert forall|n: int| is_neighbor(wi, hi, z, n) implies #[trigger] covered(
                                        cells@,
                                        to_visit@,
                                        n,
                                    ) by {
                                        assert(covered(cur1, tv1, n));
                                    }
                                }
                            }
                        }
                    } else {
                        proof {
                            assert(!newly_opened_zero(c0, cells@, v as int));
                        }
                    }
                    proof {
                        assert(opened(wi, hi, c0, starts, v as int));
                        assert forall|j: int|
                            0 <= j < c0.len() implies #[trigger] cells@[j] == c0[j] || (cells@[j].state
                            == CellState::Revealed && c0[j].state != CellState::Revealed && opened(
                            wi,
                            hi,
                            c0,
                            starts,
                            j,
                        )) by {
                            if j != v as int {
                                assert(cells@[j] == cur0[j]);
                            }
                        }
                    }
                },
                CellContent::Mine => {
                    proof {
                        assert forall|s: int| #[trigger] starts.contains(s) implies covered(
                            cells@,
                            to_visit@,
                            s,
                        ) by {
                            assert(covered(cur0, tv0, s));
                        }
                        assert forall|z: int|
                            0 <= z < c0.len() && #[trigger] newly_opened_zero(c0, cells@, z) implies closed_at(
                            wi,
                            hi,
                            cells@,
                            to_visit@,
                            z,
                        ) by {
                            assert(closed_at(wi, hi, cur0, tv0, z));
                            assert forall|n: int| is_neighbor(wi, hi, z, n) implies #[trigger] covered(
                                cells@,
                                to_visit@,
                                n,
                            ) by {
                                assert(covered(cur0, tv0, n));
                            }
                        }
                    }
                },
            }
        }
    }
    proof {
        let cur = cells@;
        assert(to_visit@ =~= Seq::<usize>::empty());
        assert forall|j: int| 0 <= j < c0.len() implies #[trigger] cur[j] == cascade(
            wi,
            hi,
            c0,
            starts,
        )[j] by {
            if opened(wi, hi, c0, starts, j) {
                let p = choose|p: Seq<int>|
                    #[trigger] is_trail(wi, hi, c0, p) && starts.contains(p[0]) && p.last() == j;
                lemma_trail_covered(wi, hi, c0, cur, starts, p);
                assert(covered(cur, Seq::empty(), p[p.len() - 1]));
            }
        }
        assert(cur =~= cascade(wi, hi, c0, starts));
    }
}

/// Cell `n` is revealed, holds a mine, or waits in the list `tv`.
pub open spec fn covered(cur: Seq<Cell>, tv: Seq<usize>, n: int) -> bool {
    cur[n].state == CellState::Revealed || is_mine(cur[n]) || tv.contains(n as usize)
}

/// Cell `z` had no mine around it, was unopened, and is now revealed.
pub open spec fn newly_opened_zero(c0: Seq<Cell>, cur: Seq<Cell>, z: int) -> bool {
    is_unopened_zero(c0[z]) && cur[z].state == CellState::Revealed
}

/// Every neighbor of `z` is covered.
pub open spec fn closed_at(w: int, h: int, cur: Seq<Cell>, tv: Seq<usize>, z: int) -> bool {
    forall|n: int| is_neighbor(w, h, z, n) ==> #[trigger] covered(cur, tv, n)
}

/// Once the list of cells to visit is empty, every cell of a trail from a
/// start is revealed or holds a mine.
proof fn lemma_trail_covered(w: int, h: int, c0: Seq<Cell>, cur: Seq<Cell>, starts: Set<int>, p: Seq<int>)
    requires
        is_trail(w, h, c0, p),
        starts.contains(p[0]),
        cur.len() == c0.len(),
        forall|j: int| 0 <= j < c0.len() ==> (#[trigger] cur[j]).content == c0[j].content,
        forall|j: int|
            0 <= j < c0.len() ==> #[trigger] cur[j] == c0[j] || cur[j].state == CellState::Revealed,
        forall|s: int| #[trigger] starts.contains(s) ==> covered(cur, Seq::empty(), s),
        forall|z: int|
            0 <= z < c0.len() && #[trigger] newly_opened_zero(c0, cur, z) ==> closed_at(
                w,
                h,
                cur,
                Seq::empty(),
                z,
            ),
    ensures
        forall|k: int| 0 <= k < p.len() ==> covered(cur, Seq::empty(), #[trigger] p[k]),
    decreases p.len(),
{
    if p.len() == 1 {
        assert(covered(cur, Seq::empty(), p[0]));
    } else {
        let q = p.drop_last();
        assert(is_trail(w, h, c0, q)) by {
            assert forall|k: int| 0 <= k < q.len() - 1 implies is_neighbor(w, h, #[trigger] q[k], q[k + 1])
                && is_unopened_zero(c0[q[k]]) by {
                assert(q[k] == p[k] && q[k + 1] == p[k + 1]);
            }
            assert forall|k: int| 0 <= k < q.len() implies 0 <= #[trigger] q[k] < c0.len() by {
                assert(q[k] == p[k]);
            }
        }
        lemma_trail_covered(w, h, c0, cur, starts, q);
        let z = p[p.len() - 2];
        assert(q[q.len() - 1] == z);
        assert(covered(cur, Seq::empty(), z));
        assert(is_neighbor(w, h, z, p[p.len() - 1]) && is_unopened_zero(c0[z]));
        assert(!is_mine(cur[z]));
        assert(cur[z].state == CellState::Revealed);
        assert(newly_opened_zero(c0, cur, z));
        assert(closed_at(w, h, cur, Seq::empty(), z));
        assert(covered(cur, Seq::empty(), p[p.len() - 1]));
        assert forall|k: int| 0 <= k < p.len() implies covered(cur, Seq::empty(), #[trigger] p[k]) by {
            if k < p.len() - 1 {
                assert(q[k] == p[k]);
            }
        }
    }
}

} // verus!
