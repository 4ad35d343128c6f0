use vstd::prelude::*;
use vstd::multiset::Multiset;

use crate::Grid;

verus! {

/// The label `x` occurs somewhere in the row.
pub open spec fn row_has(row: Seq<i32>, x: i32) -> bool {
    exists|j: int| 0 <= j < row.len() && row[j] == x
}

/// The label `x` occurs somewhere in the grid.
pub open spec fn grid_has(g: Seq<Seq<i32>>, x: i32) -> bool {
    exists|i: int| 0 <= i < g.len() && row_has(#[trigger] g[i], x)
}

/// Every label of `t` occurs somewhere in the grid.
pub open spec fn all_present(g: Seq<Seq<i32>>, t: Seq<i32>) -> bool {
    forall|k: int| 0 <= k < t.len() ==> grid_has(g, #[trigger] t[k])
}

/// `p` is the first occurrence of `x` in row-major scan order: no earlier
/// row holds `x`, and no earlier column of `p`'s row holds it.
pub open spec fn is_first_pos(g: Seq<Seq<i32>>, x: i32, p: (int, int)) -> bool {
    &&& 0 <= p.0 < g.len()
    &&& 0 <= p.1 < g[p.0].len()
    &&& g[p.0][p.1] == x
    &&& forall|i: int| 0 <= i < p.0 ==> !row_has(#[trigger] g[i], x)
    &&& forall|j: int| 0 <= j < p.1 ==> g[p.0][j] != x
}

/// The position of the first occurrence of `x` in row-major order, the
/// position the cost objective charges to `x`; `(0, 0)` if `x` is absent.
pub open spec fn first_pos(g: Seq<Seq<i32>>, x: i32) -> (int, int) {
    if grid_has(g, x) {
        choose|p: (int, int)| is_first_pos(g, x, p)
    } else {
        (0, 0)
    }
}

/// Every row has the length of the first one.
pub open spec fn rectangular(g: Seq<Seq<i32>>) -> bool {
    forall|i: int| 0 <= i < g.len() ==> #[trigger] g[i].len() == g[0].len()
}

/// A grid the optimizer accepts: at least one row, at least one column,
/// and no ragged rows.
pub open spec fn valid_grid(g: Seq<Seq<i32>>) -> bool {
    g.len() > 0 && g[0].len() > 0 && rectangular(g)
}

/// The grid after exchanging the values at `(r1, c1)` and `(r2, c2)`.
pub open spec fn spec_swap(g: Seq<Seq<i32>>, r1: int, c1: int, r2: int, c2: int) -> Seq<Seq<i32>> {
    let v1 = g[r1][c1];
    let v2 = g[r2][c2];
    let g1 = g.update(r1, g[r1].update(c1, v2));
    g1.update(r2, g1[r2].update(c2, v1))
}

/// The least index of `x` in a nonempty search of `row`.
proof fn lemma_row_least(row: Seq<i32>, x: i32) -> (j: int)
    requires
        row_has(row, x),
    ensures
        0 <= j < row.len(),
        row[j] == x,
        forall|k: int| 0 <= k < j ==> row[k] != x,
    decreases row.len(),
{
    if row[0] == x {
        0
    } else {
        let tail = row.drop_first();
        assert(row_has(tail, x)) by {
            let w = choose|w: int| 0 <= w < row.len() && row[w] == x;
            assert(tail[w - 1] == x);
        }
        let j0 = lemma_row_least(tail, x);
        assert forall|k: int| 0 <= k < j0 + 1 implies row[k] != x by {
            if k > 0 {
                assert(tail[k - 1] == row[k]);
            }
        }
        j0 + 1
    }
}

/// Wherever `x` occurs at all, a row-major first occurrence exists, and
/// `first_pos` denotes it.
pub proof fn lemma_first_pos_properties(g: Seq<Seq<i32>>, x: i32)
    requires
        grid_has(g, x),
    ensures
        is_first_pos(g, x, first_pos(g, x)),
    decreases g.len(),
{
    if row_has(g[0], x) {
        let j = lemma_row_least(g[0], x);
        assert(is_first_pos(g, x, (0int, j)));
    } else {
        let tail = g.drop_first();
        assert(grid_has(tail, x)) by {
            let w = choose|w: int| 0 <= w < g.len() && row_has(#[trigger] g[w], x);
            assert(tail[w - 1] == g[w]);
        }
        lemma_first_pos_properties(tail, x);
        let p = first_pos(tail, x);
        assert(tail[p.0] == g[p.0 + 1]);
        assert forall|i: int| 0 <= i < p.0 + 1 implies !row_has(#[trigger] g[i], x) by {
            if i > 0 {
                assert(tail[i - 1] == g[i]);
            }
        }
        assert(is_first_pos(g, x, (p.0 + 1, p.1)));
    }
}

/// Row-major first occurrences are unique.
pub proof fn lemma_first_pos_unique(g: Seq<Seq<i32>>, x: i32, p: (int, int), q: (int, int))
    requires
        is_first_pos(g, x, p),
        is_first_pos(g, x, q),
    ensures
        p == q,
{
    assert(row_has(g[p.0], x));
    assert(row_has(g[q.0], x));
    assert(p.0 == q.0);
    assert(p.1 == q.1);
    assert(p =~= q);
}

/// Finds the first occurrence of `x` in row-major scan order.
pub fn find_pos(grid: &Grid, x: i32) -> (r: Option<(usize, usize)>)
    ensures
        (match r {
            Some(p) => grid_has(grid.deep_view(), x) && (p.0 as int, p.1 as int)
                == first_pos(grid.deep_view(), x),
            None => !grid_has(grid.deep_view(), x),
        }),
{
    let ghost g = grid.deep_view();
    let rows = grid.len();
    let mut i: usize = 0;
    while i < rows
        invariant
            rows == g.len(),
            g == grid.deep_view(),
            0 <= i <= rows,
            forall|w: int| 0 <= w < i ==> !row_has(#[trigger] g[w], x),
        decreases rows - i,
    {
        let cols = grid[i].len();
        let mut j: usize = 0;
        assert(g[i as int] == grid@[i as int].deep_view());
        while j < cols
            invariant
                rows == g.len(),
                g == grid.deep_view(),
                0 <= i < rows,
                cols == g[i as int].len(),
                0 <= j <= cols,
                forall|w: int| 0 <= w < i ==> !row_has(#[trigger] g[w], x),
                forall|w: int| 0 <= w < j ==> g[i as int][w] != x,
            decreases cols - j,
        {
            if grid[i][j] == x {
                proof {
                    assert(g[i as int][j as int] == x);
                    assert(is_first_pos(g, x, (i as int, j as int)));
                    assert(grid_has(g, x));
                    lemma_first_pos_properties(g, x);
                    lemma_first_pos_unique(g, x, (i as int, j as int), first_pos(g, x));
                }
                return Some((i, j));
            }
            j += 1;
        }
        proof {
            assert forall|w: int| 0 <= w < i + 1 implies !row_has(#[trigger] g[w], x) by {
                if w == i {
                    assert(forall|c: int| 0 <= c < g[w].len() ==> g[w][c] != x);
                }
            }
        }
        i += 1;
    }
    proof {
        if grid_has(g, x) {
            let w = choose|w: int| 0 <= w < g.len() && row_has(#[trigger] g[w], x);
            assert(!row_has(g[w], x));
        }
    }
    None
}

/// Tests the rectangularity and non-emptiness that `valid_grid` asks for.
pub fn check_grid(grid: &Grid) -> (r: bool)
    ensures
        r == valid_grid(grid.deep_view()),
{
    let ghost g = grid.deep_view();
    if grid.len() == 0 {
        return false;
    }
    let cols = grid[0].len();
    assert(g[0] == grid@[0].deep_view());
    if cols == 0 {
        return false;
    }
    let mut i: usize = 1;
    while i < grid.len()
        invariant
            g == grid.deep_view(),
            g.len() == grid.len(),
            1 <= i <= grid.len(),
            cols == g[0].len() > 0,
            forall|w: int| 0 <= w < i ==> #[trigger] g[w].len() == g[0].len(),
        decreases grid.len() - i,
    {
        assert(g[i as int] == grid@[i as int].deep_view());
        if grid[i].len() != cols {
            return false;
        }
        i += 1;
    }
    true
}

/// Copies one row value for value.
pub fn copy_row(row: &Vec<i32>) -> (out: Vec<i32>)
    ensures
        out@ == row@,
{
    let mut out: Vec<i32> = Vec::new();
    let mut i: usize = 0;
    while i < row.len()
        invariant
            0 <= i <= row.len(),
            out@ =~= row@.subrange(0, i as int),
        decreases row.len() - i,
    {
        out.push(row[i]);
        i += 1;
    }
    proof {
        assert(out@ =~= row@);
    }
    out
}

/// Copies a grid row by row.
pub fn copy_grid(grid: &Grid) -> (out: Grid)
    ensures
        out.deep_view() == grid.deep_view(),
{
    let ghost g = grid.deep_view();
    let mut out: Grid = Vec::new();
    let mut i: usize = 0;
    while i < grid.len()
        invariant
            g == grid.deep_view(),
            0 <= i <= grid.len(),
            out.deep_view() =~= g.subrange(0, i as int),
        decreases grid.len() - i,
    {
        assert(g[i as int] == grid@[i as int].deep_view());
        let ghost pre = out@;
        let row_copy = copy_row(&grid[i]);
        proof {
            assert(row_copy.deep_view() =~= grid@[i as int].deep_view());
        }
        out.push(row_copy);
        proof {
            assert(g.subrange(0, i as int).len() == i);
            assert(Seq::new(pre.len() as nat, |k: int| pre[k].deep_view()) =~= g.subrange(
                0,
                i as int,
            ));
            assert(pre.len() == i);
            assert(out@ == pre.push(row_copy));
            assert(out@.len() == i + 1);
            assert(out.deep_view() =~= g.subrange(0, i + 1)) by {
                assert forall|k: int| 0 <= k < i + 1 implies out.deep_view()[k] == g.subrange(
                    0,
                    i + 1,
                )[k] by {
                    assert(out.deep_view()[k] == out@[k].deep_view());
                    if k < i {
                        assert(out@[k] == pre[k]);
                    }
                }
            }
        }
        i += 1;
    }
    proof {
        assert(out.deep_view() =~= g);
    }
    out
}

/// Returns a copy of the grid with the cells `(r1, c1)` and `(r2, c2)`
/// exchanged: the pairwise transposition out of which every candidate
/// move is built. Drawing the same cell twice gives the grid back
/// unchanged.
pub fn swap_cells(grid: &Grid, r1: usize, c1: usize, r2: usize, c2: usize) -> (out: Grid)
    requires
        r1 < grid.deep_view().len(),
        c1 < grid.deep_view()[r1 as int].len(),
        r2 < grid.deep_view().len(),
        c2 < grid.deep_view()[r2 as int].len(),
    ensures
        out.deep_view() == spec_swap(grid.deep_view(), r1 as int, c1 as int, r2 as int, c2 as int),
{
    let ghost g = grid.deep_view();
    proof {
        assert(g[r1 as int] == grid@[r1 as int].deep_view());
        assert(g[r2 as int] == grid@[r2 as int].deep_view());
    }
    let v1 = grid[r1][c1];
    let v2 = grid[r2][c2];
    let mut out: Grid = copy_grid(grid);
    let ghost pre1 = out@;
    let mut row1 = copy_row(&out[r1]);
    row1.set(c1, v2);
    out.set(r1, row1);
    let ghost g1 = g.update(r1 as int, g[r1 as int].update(c1 as int, v2));
    proof {
        assert(out.deep_view() =~= g1) by {
            assert forall|i: int| 0 <= i < g1.len() implies out.deep_view()[i] == g1[i] by {
                assert(out.deep_view()[i] == out@[i].deep_view());
                if i == r1 {
                    assert(row1.deep_view() =~= pre1[i].deep_view().update(c1 as int, v2));
                } else {
                    assert(out@[i] == pre1[i]);
                }
            }
        }
    }
    let ghost pre2 = out@;
    let mut row2 = copy_row(&out[r2]);
    row2.set(c2, v1);
    out.set(r2, row2);
    proof {
        let g2 = g1.update(r2 as int, g1[r2 as int].update(c2 as int, v1));
        assert(out.deep_view() =~= g2) by {
            assert forall|i: int| 0 <= i < g2.len() implies out.deep_view()[i] == g2[i] by {
                assert(out.deep_view()[i] == out@[i].deep_view());
                if i == r2 {
                    assert(row2.deep_view() =~= pre2[i].deep_view().update(c2 as int, v1));
                } else {
                    assert(out@[i] == pre2[i]);
                }
            }
        }
        assert(g2 == spec_swap(g, r1 as int, c1 as int, r2 as int, c2 as int));
    }
    out
}

/// Drawing the same cell for both ends of the transposition is a no-op:
/// the proposed neighbor is the grid itself.
pub proof fn lemma_noop_swap(g: Seq<Seq<i32>>, r: int, c: int)
    requires
        0 <= r < g.len(),
        0 <= c < g[r].len(),
    ensures
        spec_swap(g, r, c, r, c) == g,
{
    let s = spec_swap(g, r, c, r, c);
    assert forall|i: int| 0 <= i < g.len() implies s[i] =~= g[i] by {
        if i == r {
            assert(s[i] =~= g[i]);
        }
    }
    assert(s =~= g);
}

/// A transposition touches no row length: the swapped grid has the same
/// shape as the grid it came from.
pub proof fn lemma_swap_shape(g: Seq<Seq<i32>>, r1: int, c1: int, r2: int, c2: int)
    requires
        0 <= r1 < g.len(),
        0 <= c1 < g[r1].len(),
        0 <= r2 < g.len(),
        0 <= c2 < g[r2].len(),
    ensures
        spec_swap(g, r1, c1, r2, c2).len() == g.len(),
        forall|i: int| 0 <= i < g.len() ==> #[trigger] spec_swap(g, r1, c1, r2, c2)[i].len()
            == g[i].len(),
{
    let s = spec_swap(g, r1, c1, r2, c2);
    assert forall|i: int| 0 <= i < g.len() implies #[trigger] s[i].len() == g[i].len() by {}
}

/// A transposition creates and destroys no label: exactly the values at
/// the two drawn cells trade places, so every label present before is
/// present after, and conversely.
pub proof fn lemma_swap_preserves_labels(g: Seq<Seq<i32>>, r1: int, c1: int, r2: int, c2: int)
    requires
        0 <= r1 < g.len(),
        0 <= c1 < g[r1].len(),
        0 <= r2 < g.len(),
        0 <= c2 < g[r2].len(),
    ensures
        forall|x: i32| grid_has(spec_swap(g, r1, c1, r2, c2), x) <==> grid_has(g, x),
{
    let s = spec_swap(g, r1, c1, r2, c2);
    lemma_swap_shape(g, r1, c1, r2, c2);
    assert forall|x: i32| grid_has(s, x) <==> grid_has(g, x) by {
        lemma_swap_cell_values(g, r1, c1, r2, c2);
        if grid_has(g, x) {
            let i = choose|i: int| 0 <= i < g.len() && row_has(#[trigger] g[i], x);
            let j = choose|j: int| 0 <= j < g[i].len() && g[i][j] == x;
            if i == r1 && j == c1 {
                assert(s[r2][c2] == x);
                assert(row_has(s[r2], x));
            } else if i == r2 && j == c2 {
                assert(s[r1][c1] == x);
                assert(row_has(s[r1], x));
            } else {
                assert(s[i][j] == x);
                assert(row_has(s[i], x));
            }
            assert(grid_has(s, x));
        }
        if grid_has(s, x) {
            let i = choose|i: int| 0 <= i < s.len() && row_has(#[trigger] s[i], x);
            let j = choose|j: int| 0 <= j < s[i].len() && s[i][j] == x;
            if i == r1 && j == c1 {
                assert(g[r2][c2] == x);
                assert(row_has(g[r2], x));
            } else if i == r2 && j == c2 {
                assert(g[r1][c1] == x);
                assert(row_has(g[r1], x));
            } else {
                assert(g[i][j] == x);
                assert(row_has(g[i], x));
            }
            assert(grid_has(g, x));
        }
    }
}

/// All the labels a grid holds, with multiplicity.
pub open spec fn grid_labels(g: Seq<Seq<i32>>) -> Multiset<i32>
    decreases g.len(),
{
    if g.len() == 0 {
        Multiset::empty()
    } else {
        g[0].to_multiset().add(grid_labels(g.drop_first()))
    }
}

/// Writing one cell trades the old value for the new one in the row's
/// label multiset and touches nothing else.
proof fn lemma_update_to_multiset(s: Seq<i32>, c: int, v: i32)
    requires
        0 <= c < s.len(),
    ensures
        forall|x: i32|
            #[trigger] s.update(c, v).to_multiset().count(x) + (if s[c] == x {
                1int
            } else {
                0int
            }) == s.to_multiset().count(x) + (if v == x {
                1int
            } else {
                0int
            }),
{
    broadcast use vstd::seq_lib::group_to_multiset_ensures;

    let a = s.take(c);
    let b = s.skip(c + 1);
    let u = s.update(c, v);
    assert(s =~= a + seq![s[c]] + b);
    assert(u =~= a + seq![v] + b);
    vstd::seq_lib::lemma_multiset_commutative(a, seq![s[c]]);
    vstd::seq_lib::lemma_multiset_commutative(a + seq![s[c]], b);
    vstd::seq_lib::lemma_multiset_commutative(a, seq![v]);
    vstd::seq_lib::lemma_multiset_commutative(a + seq![v], b);
    assert(seq![s[c]] =~= Seq::<i32>::empty().push(s[c]));
    assert(seq![v] =~= Seq::<i32>::empty().push(v));
    assert(Seq::<i32>::empty().to_multiset() =~= Multiset::empty());
    assert(seq![s[c]].to_multiset() =~= Multiset::empty().insert(s[c]));
    assert(seq![v].to_multiset() =~= Multiset::empty().insert(v));
}

/// Replacing one row trades the old row's labels for the new row's in
/// the grid's label multiset and touches nothing else.
proof fn lemma_row_update_labels(g: Seq<Seq<i32>>, r: int, row2: Seq<i32>)
    requires
        0 <= r < g.len(),
    ensures
        forall|x: i32|
            #[trigger] grid_labels(g.update(r, row2)).count(x) + g[r].to_multiset().count(x)
                == grid_labels(g).count(x) + row2.to_multiset().count(x),
    decreases g.len(),
{
    let u = g.update(r, row2);
    if r == 0 {
        assert(u.drop_first() =~= g.drop_first());
        assert(u[0] == row2);
    } else {
        assert(u[0] == g[0]);
        assert(u.drop_first() =~= g.drop_first().update(r - 1, row2));
        lemma_row_update_labels(g.drop_first(), r - 1, row2);
        assert(g.drop_first()[r - 1] == g[r]);
    }
    assert forall|x: i32|
        #[trigger] grid_labels(u).count(x) + g[r].to_multiset().count(x) == grid_labels(g).count(
            x,
        ) + row2.to_multiset().count(x) by {
        assert(grid_labels(u).count(x) == u[0].to_multiset().count(x) + grid_labels(
            u.drop_first(),
        ).count(x));
        assert(grid_labels(g).count(x) == g[0].to_multiset().count(x) + grid_labels(
            g.drop_first(),
        ).count(x));
        if r > 0 {
            assert(grid_labels(u.drop_first()).count(x) + g.drop_first()[r - 1].to_multiset().count(
                x,
            ) == grid_labels(g.drop_first()).count(x) + row2.to_multiset().count(x));
        }
    }
}

/// A transposition creates and destroys no label: the grid's label
/// multiset is invariant under a swap, whichever cells were drawn.
pub proof fn lemma_swap_label_multiset(g: Seq<Seq<i32>>, r1: int, c1: int, r2: int, c2: int)
    requires
        0 <= r1 < g.len(),
        0 <= c1 < g[r1].len(),
        0 <= r2 < g.len(),
        0 <= c2 < g[r2].len(),
    ensures
        grid_labels(spec_swap(g, r1, c1, r2, c2)) == grid_labels(g),
{
    let v1 = g[r1][c1];
    let v2 = g[r2][c2];
    let row_a = g[r1].update(c1, v2);
    let g1 = g.update(r1, row_a);
    let row_b = g1[r2].update(c2, v1);
    let s = g1.update(r2, row_b);
    assert(s == spec_swap(g, r1, c1, r2, c2));
    lemma_update_to_multiset(g[r1], c1, v2);
    lemma_row_update_labels(g, r1, row_a);
    lemma_update_to_multiset(g1[r2], c2, v1);
    lemma_row_update_labels(g1, r2, row_b);
    assert(grid_labels(s) =~= grid_labels(g)) by {
        assert forall|x: i32| grid_labels(s).count(x) == grid_labels(g).count(x) by {
            assert(grid_labels(g1).count(x) + g[r1].to_multiset().count(x) == grid_labels(
                g,
            ).count(x) + row_a.to_multiset().count(x));
            assert(grid_labels(s).count(x) + g1[r2].to_multiset().count(x) == grid_labels(
                g1,
            ).count(x) + row_b.to_multiset().count(x));
            if r1 == r2 {
                assert(g1[r2] == row_a);
                lemma_update_to_multiset(row_a, c2, v1);
            } else {
                assert(g1[r2] == g[r2]);
            }
        }
    }
}

/// Cell-by-cell description of a transposition: the two drawn cells hold
/// each other's old values and every other cell is untouched.
pub proof fn lemma_swap_cell_values(g: Seq<Seq<i32>>, r1: int, c1: int, r2: int, c2: int)
    requires
        0 <= r1 < g.len(),
        0 <= c1 < g[r1].len(),
        0 <= r2 < g.len(),
        0 <= c2 < g[r2].len(),
    ensures
        spec_swap(g, r1, c1, r2, c2)[r2][c2] == g[r1][c1],
        (r1, c1) != (r2, c2) ==> spec_swap(g, r1, c1, r2, c2)[r1][c1] == g[r2][c2],
        forall|i: int, j: int|
            0 <= i < g.len() && 0 <= j < g[i].len() && (i, j) != (r1, c1) && (i, j) != (r2, c2)
                ==> #[trigger] spec_swap(g, r1, c1, r2, c2)[i][j] == g[i][j],
{
    let s = spec_swap(g, r1, c1, r2, c2);
    if (r1, c1) != (r2, c2) {
        assert(s[r1][c1] == g[r2][c2]);
    }
    assert forall|i: int, j: int|
        0 <= i < g.len() && 0 <= j < g[i].len() && (i, j) != (r1, c1) && (i, j) != (r2, c2)
            implies #[trigger] s[i][j] == g[i][j] by {}
}

} // verus!
