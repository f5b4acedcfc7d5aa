//! Geometry of a rectangular board stored row by row in a flat vector.
use vstd::prelude::*;

verus! {

/// The column of the cell at linear index `i` on a board `w` cells wide.
pub open spec fn col_of(w: int, i: int) -> int {
    i % w
}

/// The row of the cell at linear index `i` on a board `w` cells wide.
pub open spec fn row_of(w: int, i: int) -> int {
    i / w
}

/// The linear index of the cell in column `x` and row `y`.
pub open spec fn index_of(w: int, x: int, y: int) -> int {
    y * w + x
}

/// `i` and `j` are distinct cells of a `w` by `h` board that touch,
/// orthogonally or diagonally.
pub open spec fn is_neighbor(w: int, h: int, i: int, j: int) -> bool {
    &&& 0 <= i < w * h
    &&& 0 <= j < w * h
    &&& i != j
    &&& -1 <= col_of(w, i) - col_of(w, j) <= 1
    &&& -1 <= row_of(w, i) - row_of(w, j) <= 1
}

/// The place of neighbor `j` in the listing of the neighbors of `i`: column
/// by column from the left, and within a column from the top.
pub open spec fn neighbor_rank(w: int, i: int, j: int) -> int {
    (col_of(w, j) - col_of(w, i)) * 3 + (row_of(w, j) - row_of(w, i))
}

/// `s` lists the cells that touch cell `i`, each once, column by column from
/// the left and within a column from the top.
pub open spec fn lists_neighbors(w: int, h: int, i: int, s: Seq<usize>) -> bool {
    &&& forall|j: usize| s.contains(j) <==> is_neighbor(w, h, i, j as int)
    &&& forall|a: int, b: int| 0 <= a < b < s.len() ==> neighbor_rank(w, i, s[a] as int) < neighbor_rank(w, i, s[b] as int)
}

/// The cells that touch cell `i`, in that order.
pub open spec fn neighbor_list(w: int, h: int, i: int) -> Seq<usize> {
    choose|s: Seq<usize>| lists_neighbors(w, h, i, s)
}

/// Two lists of the same elements, each in strictly increasing order of
/// `key`, are the same list.
pub proof fn lemma_sorted_unique(key: spec_fn(usize) -> int, s1: Seq<usize>, s2: Seq<usize>)
    requires
        forall|x: usize| s1.contains(x) <==> s2.contains(x),
        forall|a: int, b: int| 0 <= a < b < s1.len() ==> key(s1[a]) < key(s1[b]),
        forall|a: int, b: int| 0 <= a < b < s2.len() ==> key(s2[a]) < key(s2[b]),
    ensures
        s1 == s2,
    decreases s1.len(),
{
    if s1.len() == 0 {
        if s2.len() > 0 {
            assert(s2.contains(s2[0]));
        }
        assert(s1 =~= s2);
    } else {
        assert(s1.contains(s1[0]));
        assert(s2.contains(s1[0]));
        let q = choose|q: int| 0 <= q < s2.len() && s2[q] == s1[0];
        assert(s2.contains(s2[0]));
        let p = choose|p: int| 0 <= p < s1.len() && s1[p] == s2[0];
        if q > 0 {
            if p > 0 {
                assert(key(s1[0]) < key(s1[p]));
                assert(key(s2[0]) < key(s2[q]));
            } else {
                assert(key(s2[0]) < key(s2[q]));
            }
        }
        assert(s1[0] == s2[0]);
        let t1 = s1.drop_first();
        let t2 = s2.drop_first();
        assert forall|x: usize| t1.contains(x) <==> t2.contains(x) by {
            if t1.contains(x) {
                let k = choose|k: int| 0 <= k < t1.len() && t1[k] == x;
                assert(s1[k + 1] == x);
                assert(key(s1[0]) < key(s1[k + 1]));
                assert(s2.contains(x));
                let k2 = choose|k2: int| 0 <= k2 < s2.len() && s2[k2] == x;
                assert(k2 != 0);
                assert(t2[k2 - 1] == x);
            }
            if t2.contains(x) {
                let k = choose|k: int| 0 <= k < t2.len() && t2[k] == x;
                assert(s2[k + 1] == x);
                assert(key(s2[0]) < key(s2[k + 1]));
                assert(s1.contains(x));
                let k1 = choose|k1: int| 0 <= k1 < s1.len() && s1[k1] == x;
                assert(k1 != 0);
                assert(t1[k1 - 1] == x);
            }
        }
        assert forall|a: int, b: int| 0 <= a < b < t1.len() implies key(t1[a]) < key(t1[b]) by {
            assert(t1[a] == s1[a + 1] && t1[b] == s1[b + 1]);
        }
        assert forall|a: int, b: int| 0 <= a < b < t2.len() implies key(t2[a]) < key(t2[b]) by {
            assert(t2[a] == s2[a + 1] && t2[b] == s2[b + 1]);
        }
        lemma_sorted_unique(key, t1, t2);
        assert(s1 =~= seq![s1[0]] + t1);
        assert(s2 =~= seq![s2[0]] + t2);
    }
}

/// A list of the neighbors of `i` in their order is the neighbor list.
pub proof fn lemma_neighbor_list(w: int, h: int, i: int, s: Seq<usize>)
    requires
        lists_neighbors(w, h, i, s),
    ensures
        s == neighbor_list(w, h, i),
{
    let t = neighbor_list(w, h, i);
    assert(lists_neighbors(w, h, i, t));
    lemma_sorted_unique(|j: usize| neighbor_rank(w, i, j as int), s, t);
}

/// The set of cells that touch cell `i`.
pub open spec fn neighbor_set(w: int, h: int, i: int) -> Set<int> {
    Set::new(|j: int| is_neighbor(w, h, i, j))
}

/// A linear index on the board splits into a column and a row within bounds.
pub proof fn lemma_coords(w: int, h: int, i: int)
    requires
        w > 0,
        h > 0,
        0 <= i < w * h,
    ensures
        0 <= col_of(w, i) < w,
        0 <= row_of(w, i) < h,
        i == index_of(w, col_of(w, i), row_of(w, i)),
{
    vstd::arithmetic::div_mod::lemma_fundamental_div_mod(i, w);
    assert(i == w * (i / w) + i % w);
    vstd::arithmetic::div_mod::lemma_mod_bound(i, w);
    assert(0 <= i / w) by (nonlinear_arith)
        requires
            0 <= i,
            w > 0,
    ;
    assert(i / w < h) by (nonlinear_arith)
        requires
            0 <= i < w * h,
            w > 0,
    ;
    assert(w * (i / w) == (i / w) * w) by (nonlinear_arith);
}

/// A column and a row within bounds give a linear index within bounds
/// that splits back into the same column and row.
pub proof fn lemma_index(w: int, h: int, x: int, y: int)
    requires
        w > 0,
        0 <= x < w,
        0 <= y < h,
    ensures
        0 <= index_of(w, x, y) < w * h,
        col_of(w, index_of(w, x, y)) == x,
        row_of(w, index_of(w, x, y)) == y,
{
    vstd::arithmetic::div_mod::lemma_fundamental_div_mod_converse(y * w + x, w, y, x);
    assert(0 <= y * w) by (nonlinear_arith)
        requires
            0 <= y,
            w > 0,
    ;
    assert(y * w + x < w * h) by (nonlinear_arith)
        requires
            0 <= x < w,
            0 <= y < h,
    ;
}

/// Every cell has a finite set of neighbors, all on the board.
pub proof fn lemma_neighbor_set_finite(w: int, h: int, i: int)
    requires
        w > 0,
        h > 0,
    ensures
        neighbor_set(w, h, i).finite(),
        neighbor_set(w, h, i).subset_of(vstd::set_lib::set_int_range(0, w * h)),
{
    assert(0 <= w * h) by (nonlinear_arith)
        requires
            w > 0,
            h > 0,
    ;
    vstd::set_lib::lemma_int_range(0, w * h);
    vstd::set_lib::lemma_len_subset(neighbor_set(w, h, i), vstd::set_lib::set_int_range(0, w * h));
}

/// The linear index of column `x`, row `y`.
pub fn index_at(w: usize, h: usize, x: usize, y: usize) -> (r: usize)
    requires
        w > 0,
        x < w,
        y < h,
        w * h <= usize::MAX,
    ensures
        r == index_of(w as int, x as int, y as int),
        r < w * h,
        col_of(w as int, r as int) == x,
        row_of(w as int, r as int) == y,
{
    proof {
        lemma_index(w as int, h as int, x as int, y as int);
    }
    y * w + x
}

/// Whether cells `a` and `b` touch.
pub fn are_neighbors(w: usize, h: usize, a: usize, b: usize) -> (r: bool)
    requires
        w > 0,
        h > 0,
        a < w * h,
        b < w * h,
    ensures
        r == is_neighbor(w as int, h as int, a as int, b as int),
{
    proof {
        lemma_coords(w as int, h as int, a as int);
        lemma_coords(w as int, h as int, b as int);
    }
    let ax = a % w;
    let ay = a / w;
    let bx = b % w;
    let by = b / w;
    a != b && ax <= bx + 1 && bx <= ax + 1 && ay <= by + 1 && by <= ay + 1
}

/// Pushes the cell at column `x + dx - 1`, row `y + dy - 1` when it lies on the board.
fn push_if_on_board(w: usize, h: usize, x: usize, y: usize, dx: usize, dy: usize, out: &mut Vec<usize>)
    requires
        w > 0,
        h > 0,
        w * h <= usize::MAX,
        x < w,
        y < h,
        dx <= 2,
        dy <= 2,
    ensures
        (1 <= x + dx <= w && 1 <= y + dy <= h) ==> final(out)@ == old(out)@.push(
            index_of(w as int, x + dx - 1, y + dy - 1) as usize,
        ),
        !(1 <= x + dx <= w && 1 <= y + dy <= h) ==> final(out)@ == old(out)@,
{
    let x_ok = if dx == 0 {
        x >= 1
    } else if dx == 1 {
        true
    } else {
        x + 1 < w
    };
    let y_ok = if dy == 0 {
        y >= 1
    } else if dy == 1 {
        true
    } else {
        y + 1 < h
    };
    if x_ok && y_ok {
        let i = index_at(w, h, x + dx - 1, y + dy - 1);
        out.push(i);
    }
}

/// The cells that touch cell `idx`, each listed once.
///
/// They come column by column from the left, and within a column from the top.
pub fn neighbor_indices(w: usize, h: usize, idx: usize) -> (r: Vec<usize>)
    requires
        w > 0,
        h > 0,
        w * h <= usize::MAX,
        idx < w * h,
    ensures
        r@.no_duplicates(),
        r@.len() <= 8,
        forall|j: usize| r@.contains(j) <==> is_neighbor(w as int, h as int, idx as int, j as int),
        forall|k: int| 0 <= k < r@.len() ==> is_neighbor(w as int, h as int, idx as int, #[trigger] r@[k] as int),
        forall|a: int, b: int|
            0 <= a < b < r@.len() ==> neighbor_rank(w as int, idx as int, r@[a] as int) < neighbor_rank(
                w as int,
                idx as int,
                r@[b] as int,
            ),
        r@ == neighbor_list(w as int, h as int, idx as int),
{
    let ghost wi = w as int;
    let ghost hi = h as int;
    proof {
        lemma_coords(wi, hi, idx as int);
    }
    let x = idx % w;
    let y = idx / w;
    let ghost xi = x as int;
    let ghost yi = y as int;
    let mut out: Vec<usize> = Vec::with_capacity(8);
    let mut dx: usize = 0;
    while dx < 3
        invariant
            w > 0,
            h > 0,
            w * h <= usize::MAX,
            idx < w * h,
            wi == w,
            hi == h,
            xi == x,
            yi == y,
            x == col_of(wi, idx as int),
            y == row_of(wi, idx as int),
            x < w,
            y < h,
            dx <= 3,
            out@.no_duplicates(),
            forall|a: int, b: int|
                0 <= a < b < out@.len() ==> neighbor_rank(wi, idx as int, out@[a] as int) < neighbor_rank(
                    wi,
                    idx as int,
                    out@[b] as int,
                ),
            out@.len() + (if dx > 1 { 1int } else { 0int }) <= 3 * dx,
            forall|k: int|
                0 <= k < out@.len() ==> {
                    &&& is_neighbor(wi, hi, idx as int, #[trigger] out@[k] as int)
                    &&& col_of(wi, out@[k] as int) - xi + 1 < dx
                },
            forall|j: int|
                is_neighbor(wi, hi, idx as int, j) && col_of(wi, j) - xi + 1 < dx ==> out@.contains(
                    j as usize,
                ),
        decreases 3 - dx,
    {
        let mut dy: usize = 0;
        while dy < 3
            invariant
                w > 0,
                h > 0,
                w * h <= usize::MAX,
                idx < w * h,
                wi == w,
                hi == h,
                xi == x,
                yi == y,
                x == col_of(wi, idx as int),
                y == row_of(wi, idx as int),
                x < w,
                y < h,
                dx < 3,
                dy <= 3,
                out@.no_duplicates(),
                forall|a: int, b: int|
                    0 <= a < b < out@.len() ==> neighbor_rank(wi, idx as int, out@[a] as int) < neighbor_rank(
                        wi,
                        idx as int,
                        out@[b] as int,
                    ),
                out@.len() + (if dx > 1 || (dx == 1 && dy > 1) { 1int } else { 0int }) <= 3 * dx + dy,
                forall|k: int|
                    0 <= k < out@.len() ==> {
                        &&& is_neighbor(wi, hi, idx as int, #[trigger] out@[k] as int)
                        &&& (col_of(wi, out@[k] as int) - xi + 1 < dx || (col_of(
                            wi,
                            out@[k] as int,
                        ) - xi + 1 == dx && row_of(wi, out@[k] as int) - yi + 1 < dy))
                    },
                forall|j: int|
                    is_neighbor(wi, hi, idx as int, j) && (col_of(wi, j) - xi + 1 < dx || (col_of(
                        wi,
                        j,
                    ) - xi + 1 == dx && row_of(wi, j) - yi + 1 < dy)) ==> out@.contains(j as usize),
            decreases 3 - dy,
        {
            if !(dx == 1 && dy == 1) {
                let ghost before = out@;
                push_if_on_board(w, h, x, y, dx, dy, &mut out);
                proof {
                    if 1 <= x + dx <= w && 1 <= y + dy <= h {
                        let c = index_of(wi, x + dx - 1, y + dy - 1);
                        lemma_index(wi, hi, x + dx - 1, y + dy - 1);
                        assert(c != idx);
                        assert(is_neighbor(wi, hi, idx as int, c));
                        assert forall|a: int, b: int|
                            0 <= a < b < out@.len() implies neighbor_rank(wi, idx as int, out@[a] as int) < neighbor_rank(
                            wi,
                            idx as int,
                            out@[b] as int,
                        ) by {
                            assert(out@[a] == before[a]);
                            assert(is_neighbor(wi, hi, idx as int, before[a] as int));
                            if b < before.len() {
                                assert(out@[b] == before[b]);
                            } else {
                                assert(out@[b] == c as usize);
                            }
                        }
                        assert(!before.contains(c as usize)) by {
                            if before.contains(c as usize) {
                                let k = choose|k: int| 0 <= k < before.len() && before[k] == c as usize;
                                assert(is_neighbor(wi, hi, idx as int, before[k] as int));
                            }
                        }
                        assert forall|k: int| 0 <= k < out@.len() implies {
                            &&& is_neighbor(wi, hi, idx as int, #[trigger] out@[k] as int)
                            &&& (col_of(wi, out@[k] as int) - xi + 1 < dx || (col_of(
                                wi,
                                out@[k] as int,
                            ) - xi + 1 == dx && row_of(wi, out@[k] as int) - yi + 1 < dy + 1))
                        } by {
                            if k < before.len() {
                                assert(out@[k] == before[k]);
                            }
                        }
                    }
                    assert forall|j: int|
                        is_neighbor(wi, hi, idx as int, j) && (col_of(wi, j) - xi + 1 < dx || (
                        col_of(wi, j) - xi + 1 == dx && row_of(wi, j) - yi + 1 < dy + 1)) implies out@.contains(
                        j as usize,
                    ) by {
                        if col_of(wi, j) - xi + 1 == dx && row_of(wi, j) - yi + 1 == dy {
                            lemma_coords(wi, hi, j);
                            let c = index_of(wi, x + dx - 1, y + dy - 1);
                            assert(j == c);
                            assert(out@[out@.len() - 1] == c as usize);
                        } else {
                            let k = choose|k: int| 0 <= k < before.len() && before[k] == j as usize;
                            assert(out@[k] == before[k]);
                        }
                    }
                }
            } else {
                proof {
                    assert forall|j: int|
                        is_neighbor(wi, hi, idx as int, j) && (col_of(wi, j) - xi + 1 < dx || (
                        col_of(wi, j) - xi + 1 == dx && row_of(wi, j) - yi + 1 < dy + 1)) implies out@.contains(
                        j as usize,
                    ) by {
                        if col_of(wi, j) - xi + 1 == dx && row_of(wi, j) - yi + 1 == dy {
                            lemma_coords(wi, hi, j);
                            lemma_coords(wi, hi, idx as int);
                            assert(j == idx);
                        }
                    }
                }
            }
            dy = dy + 1;
        }
        dx = dx + 1;
    }
    proof {
        assert forall|j: usize| out@.contains(j) implies is_neighbor(wi, hi, idx as int, j as int) by {
            let k = choose|k: int| 0 <= k < out@.len() && out@[k] == j;
            assert(is_neighbor(wi, hi, idx as int, out@[k] as int));
        }
        lemma_neighbor_list(wi, hi, idx as int, out@);
    }
    out
}

} // verus!
