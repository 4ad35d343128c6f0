use vstd::prelude::*;

use crate::errors::AnnealError;
use crate::grid::all_present;
use crate::grid::first_pos;
use crate::grid::grid_has;
use crate::grid::lemma_first_pos_properties;
use crate::grid::valid_grid;
use crate::Grid;

verus! {

/// Manhattan distance between two positions: the sum of the absolute
/// row and column differences.
pub open spec fn spec_manhattan(a: (int, int), b: (int, int)) -> int {
    vstd::math::abs(a.0 - b.0) + vstd::math::abs(a.1 - b.1) as int
}

/// The position each label of `t` is charged at: its first occurrence in
/// row-major order ((0, 0) for an absent label, which the cost evaluator
/// rejects before summing).
pub open spec fn spec_positions(g: Seq<Seq<i32>>, t: Seq<i32>) -> Seq<(int, int)> {
    t.map_values(|x: i32| first_pos(g, x))
}

/// Sum of the Manhattan distances from `p` to every entry of `ps`.
pub open spec fn dist_sum(p: (int, int), ps: Seq<(int, int)>) -> int
    decreases ps.len(),
{
    if ps.len() == 0 {
        0
    } else {
        spec_manhattan(p, ps[0]) + dist_sum(p, ps.drop_first())
    }
}

/// Sum of the Manhattan distances over every unordered pair of entries
/// of `ps`: each pair is counted once.
pub open spec fn pair_sum(ps: Seq<(int, int)>) -> int
    decreases ps.len(),
{
    if ps.len() == 0 {
        0
    } else {
        dist_sum(ps[0], ps.drop_first()) + pair_sum(ps.drop_first())
    }
}

/// The optimization objective: the sum of pairwise Manhattan distances
/// among the first occurrences of the target labels.
pub open spec fn spec_cost(g: Seq<Seq<i32>>, t: Seq<i32>) -> int {
    pair_sum(spec_positions(g, t))
}

/// Every entry of `ps` lies inside a `rows` by `cols` box.
pub open spec fn in_range(ps: Seq<(int, int)>, rows: int, cols: int) -> bool {
    forall|k: int|
        0 <= k < ps.len() ==> 0 <= (#[trigger] ps[k]).0 < rows && 0 <= ps[k].1 < cols
}

pub proof fn lemma_dist_sum_nonneg(p: (int, int), ps: Seq<(int, int)>)
    ensures
        dist_sum(p, ps) >= 0,
    decreases ps.len(),
{
    if ps.len() > 0 {
        lemma_dist_sum_nonneg(p, ps.drop_first());
    }
}

pub proof fn lemma_pair_sum_nonneg(ps: Seq<(int, int)>)
    ensures
        pair_sum(ps) >= 0,
    decreases ps.len(),
{
    if ps.len() > 0 {
        lemma_dist_sum_nonneg(ps[0], ps.drop_first());
        lemma_pair_sum_nonneg(ps.drop_first());
    }
}

proof fn lemma_dist_sum_bound(p: (int, int), ps: Seq<(int, int)>, rows: int, cols: int)
    requires
        rows >= 1,
        cols >= 1,
        0 <= p.0 < rows,
        0 <= p.1 < cols,
        in_range(ps, rows, cols),
    ensures
        dist_sum(p, ps) <= ps.len() * (rows + cols),
    decreases ps.len(),
{
    let l = ps.len() as int;
    let s = rows + cols;
    if l == 0 {
        assert(0 * s == 0) by (nonlinear_arith);
    } else {
        assert(in_range(ps.drop_first(), rows, cols)) by {
            assert(forall|k: int|
                0 <= k < ps.drop_first().len() ==> ps.drop_first()[k] == ps[k + 1]);
        }
        lemma_dist_sum_bound(p, ps.drop_first(), rows, cols);
        assert(spec_manhattan(p, ps[0]) <= s);
        assert((l - 1) * s + s == l * s) by (nonlinear_arith);
    }
}

proof fn lemma_pair_sum_bound(ps: Seq<(int, int)>, rows: int, cols: int)
    requires
        rows >= 1,
        cols >= 1,
        in_range(ps, rows, cols),
    ensures
        pair_sum(ps) <= ps.len() * ps.len() * (rows + cols),
    decreases ps.len(),
{
    let l = ps.len() as int;
    let s = rows + cols;
    if l == 0 {
        assert(0 * 0 * s == 0) by (nonlinear_arith);
    } else {
        assert(in_range(ps.drop_first(), rows, cols)) by {
            assert(forall|k: int|
                0 <= k < ps.drop_first().len() ==> ps.drop_first()[k] == ps[k + 1]);
        }
        lemma_dist_sum_bound(ps[0], ps.drop_first(), rows, cols);
        lemma_pair_sum_bound(ps.drop_first(), rows, cols);
        assert((l - 1) * s + (l - 1) * (l - 1) * s <= l * l * s) by (nonlinear_arith)
            requires
                l >= 1,
                s >= 2,
        ;
    }
}

/// The charged positions of a grid that passed validation all lie inside
/// its `rows` by `cols` box.
pub proof fn lemma_positions_in_range(g: Seq<Seq<i32>>, t: Seq<i32>)
    requires
        valid_grid(g),
    ensures
        in_range(spec_positions(g, t), g.len() as int, g[0].len() as int),
{
    let ps = spec_positions(g, t);
    assert forall|k: int| 0 <= k < ps.len() implies 0 <= (#[trigger] ps[k]).0 < g.len()
        && 0 <= ps[k].1 < g[0].len() by {
        let x = t[k];
        assert(ps[k] == first_pos(g, x));
        if grid_has(g, x) {
            lemma_first_pos_properties(g, x);
            let p = first_pos(g, x);
            assert(g[p.0].len() == g[0].len());
        }
    }
}

/// How large the objective can get: at most one `rows + cols` unit per
/// ordered pair of targets. Callers use it to rule out overflow.
pub proof fn lemma_cost_bound(g: Seq<Seq<i32>>, t: Seq<i32>)
    requires
        valid_grid(g),
    ensures
        0 <= spec_cost(g, t),
        spec_cost(g, t) <= t.len() * t.len() * (g.len() + g[0].len()),
{
    let ps = spec_positions(g, t);
    lemma_positions_in_range(g, t);
    lemma_pair_sum_nonneg(ps);
    lemma_pair_sum_bound(ps, g.len() as int, g[0].len() as int);
}

/// Extracting one term of a distance sum: entry `k` contributes its own
/// distance and the rest keep theirs.
proof fn lemma_dist_sum_remove(p: (int, int), ps: Seq<(int, int)>, k: int)
    requires
        0 <= k < ps.len(),
    ensures
        dist_sum(p, ps) == spec_manhattan(p, ps[k]) + dist_sum(p, ps.remove(k)),
    decreases k,
{
    if k == 0 {
        assert(ps.remove(0) =~= ps.drop_first());
    } else {
        let tail = ps.drop_first();
        lemma_dist_sum_remove(p, tail, k - 1);
        assert(ps.remove(k).drop_first() =~= tail.remove(k - 1));
        assert(ps.remove(k)[0] == ps[0]);
    }
}

/// A distance sum does not care about the order of its entries.
proof fn lemma_dist_sum_permutation(p: (int, int), ps1: Seq<(int, int)>, ps2: Seq<(int, int)>)
    requires
        ps1.to_multiset() == ps2.to_multiset(),
    ensures
        dist_sum(p, ps1) == dist_sum(p, ps2),
    decreases ps1.len(),
{
    broadcast use vstd::seq_lib::group_to_multiset_ensures;

    assert(ps1.len() == ps1.to_multiset().len());
    assert(ps2.len() == ps2.to_multiset().len());
    if ps1.len() == 0 {
        assert(ps2.len() == 0);
    } else {
        let x = ps1[0];
        assert(ps1.to_multiset().contains(x));
        assert(ps2.contains(x));
        let k = choose|k: int| 0 <= k < ps2.len() && ps2[k] == x;
        lemma_dist_sum_remove(p, ps2, k);
        assert(ps1.drop_first() =~= ps1.remove(0));
        assert(ps1.remove(0).to_multiset() == ps1.to_multiset().remove(x));
        assert(ps2.remove(k).to_multiset() == ps2.to_multiset().remove(x));
        lemma_dist_sum_permutation(p, ps1.drop_first(), ps2.remove(k));
    }
}

/// Extracting one entry of the pairwise sum: entry `k` contributes its
/// distances to everything else, and the rest form the pairwise sum of
/// the remainder.
proof fn lemma_pair_sum_remove(ps: Seq<(int, int)>, k: int)
    requires
        0 <= k < ps.len(),
    ensures
        pair_sum(ps) == dist_sum(ps[k], ps.remove(k)) + pair_sum(ps.remove(k)),
    decreases k,
{
    if k == 0 {
        assert(ps.remove(0) =~= ps.drop_first());
    } else {
        let h = ps[0];
        let x = ps[k];
        let tail = ps.drop_first();
        let rem = tail.remove(k - 1);
        lemma_pair_sum_remove(tail, k - 1);
        lemma_dist_sum_remove(h, tail, k - 1);
        assert(ps.remove(k).drop_first() =~= rem);
        assert(ps.remove(k)[0] == h);
        assert(pair_sum(ps.remove(k)) == dist_sum(h, rem) + pair_sum(rem));
        assert(dist_sum(x, ps.remove(k)) == spec_manhattan(x, h) + dist_sum(x, rem));
        assert(spec_manhattan(x, h) == spec_manhattan(h, x));
    }
}

/// The pairwise sum does not care about the order of its entries.
proof fn lemma_pair_sum_permutation(ps1: Seq<(int, int)>, ps2: Seq<(int, int)>)
    requires
        ps1.to_multiset() == ps2.to_multiset(),
    ensures
        pair_sum(ps1) == pair_sum(ps2),
    decreases ps1.len(),
{
    broadcast use vstd::seq_lib::group_to_multiset_ensures;

    assert(ps1.len() == ps1.to_multiset().len());
    assert(ps2.len() == ps2.to_multiset().len());
    if ps1.len() == 0 {
        assert(ps2.len() == 0);
    } else {
        let x = ps1[0];
        assert(ps1.to_multiset().contains(x));
        assert(ps2.contains(x));
        let k = choose|k: int| 0 <= k < ps2.len() && ps2[k] == x;
        lemma_pair_sum_remove(ps2, k);
        assert(ps1.drop_first() =~= ps1.remove(0));
        assert(ps1.remove(0).to_multiset() == ps1.to_multiset().remove(x));
        assert(ps2.remove(k).to_multiset() == ps2.to_multiset().remove(x));
        lemma_dist_sum_permutation(x, ps1.drop_first(), ps2.remove(k));
        lemma_pair_sum_permutation(ps1.drop_first(), ps2.remove(k));
    }
}

/// Mapping a function over two rearrangements of the same labels gives
/// two rearrangements of the same images.
proof fn lemma_map_values_multiset(t1: Seq<i32>, t2: Seq<i32>, f: spec_fn(i32) -> (int, int))
    requires
        t1.to_multiset() == t2.to_multiset(),
    ensures
        t1.map_values(f).to_multiset() == t2.map_values(f).to_multiset(),
    decreases t1.len(),
{
    broadcast use vstd::seq_lib::group_to_multiset_ensures;

    assert(t1.len() == t1.to_multiset().len());
    assert(t2.len() == t2.to_multiset().len());
    if t1.len() == 0 {
        assert(t2.len() == 0);
        assert(t1.map_values(f) =~= t2.map_values(f));
    } else {
        let x = t1[0];
        assert(t1.to_multiset().contains(x));
        assert(t2.contains(x));
        let k = choose|k: int| 0 <= k < t2.len() && t2[k] == x;
        assert(t1.drop_first() =~= t1.remove(0));
        assert(t1.remove(0).to_multiset() == t1.to_multiset().remove(x));
        assert(t2.remove(k).to_multiset() == t2.to_multiset().remove(x));
        lemma_map_values_multiset(t1.drop_first(), t2.remove(k), f);
        let m1 = t1.map_values(f);
        let m2 = t2.map_values(f);
        assert(m1.drop_first() =~= t1.drop_first().map_values(f));
        assert(m2.remove(k) =~= t2.remove(k).map_values(f));
        assert(m1.remove(0) =~= m1.drop_first());
        assert(m1.remove(0).to_multiset() == m1.to_multiset().remove(f(x)));
        assert(m2.remove(k).to_multiset() == m2.to_multiset().remove(f(x)));
        assert(m1[0] == f(x));
        assert(m2[k] == f(x));
        assert(m1.to_multiset().contains(f(x)));
        assert(m2.to_multiset().contains(f(x)));
        assert(m1.to_multiset() =~= m2.to_multiset()) by {
            assert(m1.to_multiset().remove(f(x)) == m2.to_multiset().remove(f(x)));
            assert forall|y: (int, int)| true implies m1.to_multiset().count(y)
                == m2.to_multiset().count(y) by {
                if y == f(x) {
                    assert(m1.to_multiset().remove(f(x)).count(y) == m1.to_multiset().count(y)
                        - 1);
                    assert(m2.to_multiset().remove(f(x)).count(y) == m2.to_multiset().count(y)
                        - 1);
                } else {
                    assert(m1.to_multiset().remove(f(x)).count(y) == m1.to_multiset().count(y));
                    assert(m2.to_multiset().remove(f(x)).count(y) == m2.to_multiset().count(y));
                }
            }
        }
    }
}

/// The objective does not depend on the order in which the target labels
/// are listed: any rearrangement of `t` yields the same cost.
pub proof fn lemma_cost_reorder(g: Seq<Seq<i32>>, t1: Seq<i32>, t2: Seq<i32>)
    requires
        t1.to_multiset() == t2.to_multiset(),
    ensures
        spec_cost(g, t1) == spec_cost(g, t2),
{
    lemma_map_values_multiset(t1, t2, |x: i32| first_pos(g, x));
    lemma_pair_sum_permutation(spec_positions(g, t1), spec_positions(g, t2));
}

/// A degenerate proposal that drew the same cell for both ends of its
/// transposition leaves the grid, and with it the objective, unchanged.
pub proof fn lemma_noop_proposal_cost(g: Seq<Seq<i32>>, t: Seq<i32>, r: int, c: int)
    requires
        0 <= r < g.len(),
        0 <= c < g[r].len(),
    ensures
        crate::grid::spec_swap(g, r, c, r, c) == g,
        spec_cost(crate::grid::spec_swap(g, r, c, r, c), t) == spec_cost(g, t),
{
    crate::grid::lemma_noop_swap(g, r, c);
}

/// Manhattan distance between two grid coordinates.
pub fn manhattan(a: (usize, usize), b: (usize, usize)) -> (r: i32)
    requires
        spec_manhattan((a.0 as int, a.1 as int), (b.0 as int, b.1 as int)) <= i32::MAX as int,
    ensures
        r as int == spec_manhattan((a.0 as int, a.1 as int), (b.0 as int, b.1 as int)),
        r >= 0,
{
    let dr = if a.0 >= b.0 {
        a.0 - b.0
    } else {
        b.0 - a.0
    };
    let dc = if a.1 >= b.1 {
        a.1 - b.1
    } else {
        b.1 - a.1
    };
    (dr + dc) as i32
}

/// The integer coordinates a machine-level position stands for.
pub open spec fn pos_view(p: (usize, usize)) -> (int, int) {
    (p.0 as int, p.1 as int)
}

/// Looks up the first occurrence of every target label, left to right.
fn collect_positions(grid: &Grid, target: &Vec<i32>) -> (r: Result<
    Vec<(usize, usize)>,
    AnnealError,
>)
    ensures
        (match r {
            Ok(ps) => {
                &&& all_present(grid.deep_view(), target@)
                &&& ps@.map_values(|p: (usize, usize)| pos_view(p)) == spec_positions(
                    grid.deep_view(),
                    target@,
                )
            },
            Err(e) => {
                &&& e == AnnealError::MissingLabel
                &&& !all_present(grid.deep_view(), target@)
            },
        }),
{
    let ghost g = grid.deep_view();
    let ghost t = target@;
    let mut ps: Vec<(usize, usize)> = Vec::new();
    let mut k: usize = 0;
    while k < target.len()
        invariant
            g == grid.deep_view(),
            t == target@,
            0 <= k <= t.len(),
            ps@.len() == k,
            forall|w: int| 0 <= w < k ==> grid_has(g, #[trigger] t[w]),
            forall|w: int|
                0 <= w < k ==> pos_view(#[trigger] ps@[w]) == first_pos(g, t[w]),
        decreases target.len() - k,
    {
        match crate::grid::find_pos(grid, target[k]) {
            Some(p) => {
                ps.push(p);
            },
            None => {
                return Err(AnnealError::MissingLabel);
            },
        }
        k += 1;
    }
    proof {
        assert(ps@.map_values(|p: (usize, usize)| pos_view(p)) =~= spec_positions(g, t));
    }
    Ok(ps)
}

/// Adds up the pairwise Manhattan distances among collected positions.
fn sum_pairs(ps: &Vec<(usize, usize)>) -> (r: i32)
    requires
        pair_sum(ps@.map_values(|p: (usize, usize)| pos_view(p))) <= i32::MAX as int,
    ensures
        r as int == pair_sum(ps@.map_values(|p: (usize, usize)| pos_view(p))),
        r >= 0,
{
    let ghost vs = ps@.map_values(|p: (usize, usize)| pos_view(p));
    let ghost total = pair_sum(vs);
    proof {
        lemma_pair_sum_nonneg(vs);
    }
    let mut acc: i32 = 0;
    let mut i: usize = 0;
    proof {
        assert(vs.skip(0) =~= vs);
    }
    while i < ps.len()
        invariant
            vs == ps@.map_values(|p: (usize, usize)| pos_view(p)),
            vs.len() == ps@.len(),
            total == pair_sum(vs),
            total <= i32::MAX as int,
            0 <= i <= ps.len(),
            0 <= acc,
            acc + pair_sum(vs.skip(i as int)) == total,
        decreases ps.len() - i,
    {
        let p = ps[i];
        let mut j: usize = i + 1;
        proof {
            assert(vs.skip(i as int)[0] == vs[i as int]);
            assert(vs.skip(i as int).drop_first() =~= vs.skip(i + 1));
            assert(pair_sum(vs.skip(i as int)) == dist_sum(vs[i as int], vs.skip(i + 1))
                + pair_sum(vs.skip(i + 1)));
            lemma_pair_sum_nonneg(vs.skip(i + 1));
            lemma_dist_sum_nonneg(vs[i as int], vs.skip(i + 1));
        }
        while j < ps.len()
            invariant
                vs == ps@.map_values(|p2: (usize, usize)| pos_view(p2)),
                vs.len() == ps@.len(),
                total == pair_sum(vs),
                total <= i32::MAX as int,
                0 <= i < j <= ps.len(),
                p == ps@[i as int],
                0 <= acc,
                acc + dist_sum(vs[i as int], vs.skip(j as int)) + pair_sum(vs.skip(i + 1))
                    == total,
            decreases ps.len() - j,
        {
            proof {
                assert(vs.skip(j as int)[0] == vs[j as int]);
                assert(vs.skip(j as int).drop_first() =~= vs.skip(j + 1));
                assert(dist_sum(vs[i as int], vs.skip(j as int)) == spec_manhattan(
                    vs[i as int],
                    vs[j as int],
                ) + dist_sum(vs[i as int], vs.skip(j + 1)));
                lemma_dist_sum_nonneg(vs[i as int], vs.skip(j + 1));
                lemma_pair_sum_nonneg(vs.skip(i + 1));
                assert(spec_manhattan(vs[i as int], vs[j as int]) >= 0);
            }
            let d = manhattan(p, ps[j]);
            acc = acc + d;
            j += 1;
        }
        proof {
            assert(vs.skip(ps@.len() as int) =~= Seq::<(int, int)>::empty());
        }
        i += 1;
    }
    proof {
        assert(vs.skip(ps@.len() as int) =~= Seq::<(int, int)>::empty());
    }
    acc
}

/// Evaluates the objective for `grid` and `target`: the sum of Manhattan
/// distances over every unordered pair of target labels, each label
/// charged at its first occurrence in row-major order. A target label
/// absent from the grid is reported as `MissingLabel`; an empty target
/// has no pairs and costs nothing.
pub fn cost(grid: &Grid, target: &Vec<i32>) -> (r: Result<i32, AnnealError>)
    requires
        spec_cost(grid.deep_view(), target@) <= i32::MAX as int,
    ensures
        (match r {
            Ok(c) => {
                &&& all_present(grid.deep_view(), target@)
                &&& c as int == spec_cost(grid.deep_view(), target@)
                &&& c >= 0
                &&& (target@.len() == 0 ==> c == 0)
            },
            Err(e) => {
                &&& e == AnnealError::MissingLabel
                &&& !all_present(grid.deep_view(), target@)
            },
        }),
{
    let ps = match collect_positions(grid, target) {
        Ok(ps) => ps,
        Err(e) => {
            return Err(e);
        },
    };
    let c = sum_pairs(&ps);
    Ok(c)
}

} // verus!
