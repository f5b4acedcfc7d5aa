//! Laying the mines of a new game.
use vstd::prelude::*;

use rand::seq::SliceRandom;

use super::field::{index_set, lemma_index_set_len, place_mine_on, place_mines_on};
use super::gameplay::with_cells;
use super::{is_mine, mine_set, Board, BoardModel, Cell};

verus! {

/// rand's `ThreadRng`, which the library only carries from `rand::rng` to
/// the shuffle.
#[verifier::external_type_specification]
#[verifier::external_body]
pub struct ExThreadRng(rand::rngs::ThreadRng);

/// `rand::rng`: a handle on the random generator of the current thread,
/// which rand seeds from the operating system on first use (and panics if
/// that fails). Nothing is claimed of the handle; it is only handed on to
/// the shuffle.
#[verifier::external_body]
fn thread_rng() -> rand::rngs::ThreadRng {
    rand::rng()
}

/// `SliceRandom::shuffle` on a vector of indices: the elements are permuted
/// in place (rand's Fisher-Yates loop only swaps elements), so the same
/// elements come out, each as often as it went in. Which order comes out
/// depends on the generator and is not stated.
#[verifier::external_body]
fn shuffle_indices(indices: &mut Vec<usize>, rng: &mut rand::rngs::ThreadRng)
    ensures
        final(indices)@.to_multiset() == old(indices)@.to_multiset(),
{
    indices.shuffle(rng);
}

/// Two boards agree on every cell's state.
pub open spec fn same_states(a: Seq<Cell>, b: Seq<Cell>) -> bool {
    &&& a.len() == b.len()
    &&& forall|j: int| 0 <= j < a.len() ==> #[trigger] a[j].state == b[j].state
}

/// The first `n` entries of `order`, with `n` the number of mines the board
/// is meant to hold (or all of `order` when it is shorter).
pub open spec fn mine_choice(m: BoardModel, order: Seq<usize>) -> Set<int> {
    let n = if m.mines <= order.len() { m.mines as int } else { order.len() as int };
    index_set(order.take(n))
}

/// `new` holds the mines of `old` and `count` more, none of them on cell
/// `start`.
pub open spec fn mines_laid(old: Seq<Cell>, new: Seq<Cell>, start: int, count: nat) -> bool {
    exists|placed: Set<int>|
        {
            &&& placed.finite()
            &&& placed.len() == count
            &&& !placed.contains(start)
            &&& forall|j: int| #[trigger] placed.contains(j) ==> 0 <= j < old.len()
            &&& mine_set(new) == mine_set(old) + placed
        }
}

/// Every cell index below `len` but `start`, in an order the generator picks.
pub(crate) fn shuffled_indices_except(len: usize, start: usize) -> (r: Vec<usize>)
    requires
        start <= len,
    ensures
        r@.no_duplicates(),
        r@.len() == len - (if start < len { 1int } else { 0int }),
        forall|q: int| 0 <= q < r@.len() ==> #[trigger] r@[q] < len && r@[q] != start,
        forall|j: usize| j < len && j != start ==> r@.contains(j),
{
    let mut indices: Vec<usize> = Vec::with_capacity(len);
    let mut i: usize = 0;
    while i < len
        invariant
            i <= len,
            start <= len,
            indices@.no_duplicates(),
            forall|q: int| 0 <= q < indices@.len() ==> #[trigger] indices@[q] < i && indices@[q] != start,
            forall|j: usize| j < i && j != start ==> indices@.contains(j),
            indices@.len() == i - (if start < i { 1int } else { 0int }),
        decreases len - i,
    {
        if i != start {
            let ghost before = indices@;
            indices.push(i);
            proof {
                assert forall|q: int| 0 <= q < indices@.len() implies #[trigger] indices@[q] < i + 1 && indices@[q] != start by {
                    if q < before.len() {
                        assert(indices@[q] == before[q]);
                    }
                }
                assert forall|j: usize| j < i + 1 && j != start implies indices@.contains(j) by {
                    if j < i {
                        assert(before.contains(j));
                        let q = choose|q: int| 0 <= q < before.len() && before[q] == j;
                        assert(indices@[q] == before[q]);
                    } else {
                        assert(indices@[indices@.len() - 1] == j);
                    }
                }
                assert forall|a: int, b: int| 0 <= a < b < indices@.len() implies indices@[a] != indices@[b] by {
                    if b < before.len() {
                        assert(indices@[a] == before[a] && indices@[b] == before[b]);
                    } else {
                        assert(indices@[a] == before[a]);
                    }
                }
            }
        }
        i = i + 1;
    }
    let ghost unshuffled = indices@;
    let mut rng = thread_rng();
    shuffle_indices(&mut indices, &mut rng);
    proof {
        broadcast use vstd::seq_lib::group_to_multiset_ensures;

        unshuffled.lemma_multiset_has_no_duplicates();
        assert forall|x: usize| indices@.to_multiset().contains(x) implies indices@.to_multiset().count(x) == 1 by {
            assert(unshuffled.to_multiset().contains(x));
        }
        indices@.lemma_multiset_has_no_duplicates_conv();
        assert forall|q: int| 0 <= q < indices@.len() implies #[trigger] indices@[q] < len && indices@[q] != start by {
            assert(indices@.contains(indices@[q]));
            assert(indices@.to_multiset().count(indices@[q]) > 0);
            assert(unshuffled.contains(indices@[q]));
        }
        assert forall|j: usize| j < len && j != start implies indices@.contains(j) by {
            assert(unshuffled.contains(j));
            assert(unshuffled.to_multiset().count(j) > 0);
            assert(indices@.to_multiset().count(j) > 0);
        }
        assert(indices@.len() == unshuffled.len()) by {
            assert(indices@.to_multiset().len() == unshuffled.to_multiset().len());
        }
    }
    indices
}

/// The first `n` entries of a list without repeats name `n` distinct cells.
pub proof fn lemma_prefix_choice(order: Seq<usize>, n: int, start: usize, len: int)
    requires
        order.no_duplicates(),
        0 <= n <= order.len(),
        forall|q: int| 0 <= q < order.len() ==> #[trigger] order[q] < len && order[q] != start,
    ensures
        index_set(order.take(n)).finite(),
        index_set(order.take(n)).len() == n,
        !index_set(order.take(n)).contains(start as int),
        forall|j: int| #[trigger] index_set(order.take(n)).contains(j) ==> 0 <= j < len,
{
    let taken = order.take(n);
    assert(taken.no_duplicates());
    lemma_index_set_len(taken);
    assert forall|j: int| #[trigger] index_set(taken).contains(j) implies 0 <= j < len && j != start by {
        let q = choose|q: int| 0 <= q < taken.len() && taken[q] as int == j;
        assert(taken[q] == order[q]);
    }
}

/// `new` is `old` with its mines laid at random away from cell `start`:
/// as many mines as the board is meant to hold, every state unchanged.
pub open spec fn mines_generated(old: BoardModel, new: BoardModel, start: int) -> bool {
    &&& new.wf()
    &&& new == with_cells(old, new.cells)
    &&& same_states(old.cells, new.cells)
    &&& mines_laid(old.cells, new.cells, start, old.mines)
}

/// `new` is `old` with a mine put on cell `idx`: the other mines and every
/// state stay, and the numbers agree with the mines.
pub open spec fn mine_placed(old: BoardModel, new: BoardModel, idx: int) -> bool {
    &&& new.wf()
    &&& new == with_cells(old, new.cells)
    &&& same_states(old.cells, new.cells)
    &&& mine_set(new.cells) == mine_set(old.cells).insert(idx)
    &&& is_mine(old.cells[idx]) ==> new == old
}

impl Board {
    /// Puts a mine on cell `idx` and raises the number of each neighbor
    /// without a mine; a cell that already holds a mine is left alone.
    pub fn place_mine(&mut self, idx: usize)
        requires
            old(self)@.wf(),
            idx < old(self)@.len(),
        ensures
            mine_placed(old(self)@, final(self)@, idx as int),
    {
        let ghost m0 = self@;
        let w = self.width;
        let h = self.height;
        place_mine_on(w, h, &mut self.cells, idx);
        proof {
            assert(self@ == with_cells(m0, self.cells@));
        }
    }

    /// Puts mines on the cells listed first in `order`, as many as the board
    /// is meant to hold.
    pub fn place_mines(&mut self, order: &Vec<usize>)
        requires
            old(self)@.wf(),
            forall|k: int| 0 <= k < order@.len() ==> #[trigger] order@[k] < old(self)@.len(),
        ensures
            final(self)@.wf(),
            final(self)@ == with_cells(old(self)@, final(self)@.cells),
            same_states(old(self)@.cells, final(self)@.cells),
            mine_set(final(self)@.cells) == mine_set(old(self)@.cells) + mine_choice(old(self)@, order@),
    {
        let ghost m0 = self@;
        let n = if self.mines <= order.len() {
            self.mines
        } else {
            order.len()
        };
        let w = self.width;
        let h = self.height;
        place_mines_on(w, h, &mut self.cells, order, n);
        proof {
            assert(self@ == with_cells(m0, self.cells@));
        }
    }

    /// Lays the board's mines at random on cells other than `start_idx`,
    /// so that the first cell clicked is never a mine.
    pub fn generate_mines(&mut self, start_idx: usize)
        requires
            old(self)@.wf(),
            start_idx <= old(self)@.len(),
        ensures
            mines_generated(old(self)@, final(self)@, start_idx as int),
    {
        let ghost m0 = self@;
        let indices = shuffled_indices_except(self.cells.len(), start_idx);
        self.place_mines(&indices);
        proof {
            lemma_prefix_choice(indices@, m0.mines as int, start_idx, m0.len() as int);
            assert(mine_choice(m0, indices@) == index_set(indices@.take(m0.mines as int)));
        }
    }
}

} // verus!
