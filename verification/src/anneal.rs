use vstd::prelude::*;

use crate::cost::cost;
use crate::cost::lemma_cost_bound;
use crate::cost::spec_cost;
use crate::errors::AnnealError;
use crate::grid::all_present;
use crate::grid::check_grid;
use crate::grid::copy_grid;
use crate::grid::grid_labels;
use crate::grid::lemma_swap_label_multiset;
use crate::grid::lemma_swap_preserves_labels;
use crate::grid::lemma_swap_shape;
use crate::grid::rectangular;
use crate::grid::spec_swap;
use crate::grid::swap_cells;
use crate::grid::valid_grid;
use crate::rng::spec_next;
use crate::rng::SeededRng;
use crate::Grid;

verus! {

/// The product bound under which every cost the optimizer can meet fits
/// in an `i32`: swaps keep the grid's shape, so `t.len()² * (rows +
/// cols)` bounds the objective of the input grid and of every candidate.
pub open spec fn cost_fits(g: Seq<Seq<i32>>, t: Seq<i32>) -> bool {
    g.len() == 0 || t.len() * t.len() * (g.len() + g[0].len()) <= i32::MAX as int
}

/// The evolving state of one annealing run, as the contracts speak of
/// it: current grid and cost, best grid and cost, generator state.
pub ghost struct RunModel {
    pub cur: Seq<Seq<i32>>,
    pub cur_cost: int,
    pub best: Seq<Seq<i32>>,
    pub best_cost: int,
    pub rng: u64,
}

/// The state an annealing run starts from: current and best are the
/// input grid at its own cost.
pub open spec fn init_model(g: Seq<Seq<i32>>, t: Seq<i32>, seed_state: u64) -> RunModel {
    RunModel {
        cur: g,
        cur_cost: spec_cost(g, t),
        best: g,
        best_cost: spec_cost(g, t),
        rng: seed_state,
    }
}

/// One neighbor proposal drawn from generator state `s`: two independent
/// uniform coordinate draws (which may coincide, a permitted no-op move)
/// and the transposition they name, with the state the draws leave.
pub open spec fn spec_propose(g: Seq<Seq<i32>>, s: u64, rows: u64, cols: u64) -> (
    Seq<Seq<i32>>,
    u64,
) {
    let s1 = spec_next(s);
    let r1 = s1 % rows;
    let s2 = spec_next(s1);
    let c1 = s2 % cols;
    let s3 = spec_next(s2);
    let r2 = s3 % rows;
    let s4 = spec_next(s3);
    let c2 = s4 % cols;
    (spec_swap(g, r1 as int, c1 as int, r2 as int, c2 as int), s4)
}

/// One iteration of the annealing loop: propose a neighbor, cost it,
/// accept it if it is no worse, otherwise accept at the whim of one more
/// draw (even word accepts); on acceptance a strictly better cost also
/// becomes the best seen.
pub open spec fn spec_step(m: RunModel, t: Seq<i32>, rows: u64, cols: u64) -> RunModel {
    let (cand, s4) = spec_propose(m.cur, m.rng, rows, cols);
    let ncost = spec_cost(cand, t);
    if ncost <= m.cur_cost {
        if ncost < m.best_cost {
            RunModel { cur: cand, cur_cost: ncost, best: cand, best_cost: ncost, rng: s4 }
        } else {
            RunModel { cur: cand, cur_cost: ncost, best: m.best, best_cost: m.best_cost, rng: s4 }
        }
    } else {
        let s5 = spec_next(s4);
        if s5 % 2 == 0 {
            RunModel { cur: cand, cur_cost: ncost, best: m.best, best_cost: m.best_cost, rng: s5 }
        } else {
            RunModel {
                cur: m.cur,
                cur_cost: m.cur_cost,
                best: m.best,
                best_cost: m.best_cost,
                rng: s5,
            }
        }
    }
}

/// The state after `n` iterations from `m`.
pub open spec fn spec_run(m: RunModel, t: Seq<i32>, rows: u64, cols: u64, n: nat) -> RunModel
    decreases n,
{
    if n == 0 {
        m
    } else {
        spec_run(spec_step(m, t, rows, cols), t, rows, cols, (n - 1) as nat)
    }
}

/// Peeling the last iteration off a run instead of the first.
proof fn lemma_run_unfold_back(m: RunModel, t: Seq<i32>, rows: u64, cols: u64, n: nat)
    ensures
        spec_run(m, t, rows, cols, n + 1) == spec_step(spec_run(m, t, rows, cols, n), t, rows, cols),
    decreases n,
{
    let m1 = spec_step(m, t, rows, cols);
    assert(spec_run(m, t, rows, cols, n + 1) == spec_run(m1, t, rows, cols, n));
    if n == 0 {
        assert(spec_run(m1, t, rows, cols, 0) == m1);
    } else {
        lemma_run_unfold_back(m1, t, rows, cols, (n - 1) as nat);
        assert(spec_run(m1, t, rows, cols, n) == spec_step(
            spec_run(m1, t, rows, cols, (n - 1) as nat),
            t,
            rows,
            cols,
        ));
        assert(spec_run(m, t, rows, cols, n) == spec_run(m1, t, rows, cols, (n - 1) as nat));
    }
}

/// Proposes a neighbor of a validated grid: a candidate one (possibly
/// degenerate) transposition away, at coordinates drawn from `rng`.
fn propose_valid(grid: &Grid, rng: &mut SeededRng) -> (out: Grid)
    requires
        valid_grid(grid.deep_view()),
    ensures
        ({
            let (gv, s) = spec_propose(
                grid.deep_view(),
                old(rng).state,
                grid.deep_view().len() as u64,
                grid.deep_view()[0].len() as u64,
            );
            &&& out.deep_view() == gv
            &&& final(rng).state == s
        }),
{
    let ghost g = grid.deep_view();
    let rows = grid.len();
    proof {
        assert(g[0] == grid@[0].deep_view());
    }
    let cols = grid[0].len();
    let r1 = rng.pick(rows);
    let c1 = rng.pick(cols);
    let r2 = rng.pick(rows);
    let c2 = rng.pick(cols);
    proof {
        assert(g[r1 as int].len() == g[0].len());
        assert(g[r2 as int].len() == g[0].len());
    }
    swap_cells(grid, r1, c1, r2, c2)
}

/// Proposes a neighbor of `grid`: a grid at most one transposition away,
/// at two cell coordinates drawn independently and uniformly from `rng`.
/// Drawing the same cell twice returns the grid unchanged, a permitted
/// degenerate move. A grid with no rows, no columns, or ragged rows is
/// rejected as `InvalidGrid` with the generator untouched.
pub fn propose(grid: &Grid, rng: &mut SeededRng) -> (r: Result<Grid, AnnealError>)
    ensures
        (match r {
            Ok(out) => {
                &&& valid_grid(grid.deep_view())
                &&& ({
                    let (gv, s) = spec_propose(
                        grid.deep_view(),
                        old(rng).state,
                        grid.deep_view().len() as u64,
                        grid.deep_view()[0].len() as u64,
                    );
                    out.deep_view() == gv && final(rng).state == s
                })
            },
            Err(e) => {
                &&& e == AnnealError::InvalidGrid
                &&& !valid_grid(grid.deep_view())
                &&& *final(rng) == *old(rng)
            },
        }),
{
    if !check_grid(grid) {
        return Err(AnnealError::InvalidGrid);
    }
    Ok(propose_valid(grid, rng))
}

/// Runs the annealing loop for exactly `n_iters` iterations, seeded by
/// `rng`, and returns the best grid seen, the input grid included.
///
/// The whole run is a function of the inputs and the generator state
/// (stated by the `spec_run` clause), so two calls with equal arguments
/// return identical grids. The returned grid never costs more than the
/// input grid; with `n_iters == 0` it is the input grid itself,
/// unchanged, at the initial cost. Validation happens before any
/// iteration: a grid with no rows, no columns, or ragged rows is
/// `InvalidGrid`, and a target label the grid lacks is `MissingLabel`,
/// each with no partial work and the generator untouched.
///
/// A candidate that costs no more than the current grid is always
/// accepted; a worsening one is accepted on one further draw of the
/// generator (an even word), a fixed one-in-two chance. Pacing that
/// chance by a cooling temperature takes floating point, which this
/// library does not hold: a driver that wants the Metropolis rule runs
/// the loop itself around `anneal_step` and keeps the temperature on
/// its own side.
pub fn simulated_annealing(grid: &Grid, target: &Vec<i32>, n_iters: usize, rng: &mut SeededRng)
    -> (r: Result<Grid, AnnealError>)
    requires
        cost_fits(grid.deep_view(), target@),
    ensures
        (match r {
            Ok(out) => {
                &&& valid_grid(grid.deep_view())
                &&& all_present(grid.deep_view(), target@)
                &&& ({
                    let m = spec_run(
                        init_model(grid.deep_view(), target@, old(rng).state),
                        target@,
                        grid.deep_view().len() as u64,
                        grid.deep_view()[0].len() as u64,
                        n_iters as nat,
                    );
                    &&& out.deep_view() == m.best
                    &&& final(rng).state == m.rng
                })
                &&& spec_cost(out.deep_view(), target@) <= spec_cost(grid.deep_view(), target@)
                &&& grid_labels(out.deep_view()) == grid_labels(grid.deep_view())
                &&& (n_iters == 0 ==> out.deep_view() == grid.deep_view())
            },
            Err(e) => {
                &&& *final(rng) == *old(rng)
                &&& (e == AnnealError::InvalidGrid || e == AnnealError::MissingLabel)
                &&& (e == AnnealError::InvalidGrid <==> !valid_grid(grid.deep_view()))
                &&& (e == AnnealError::MissingLabel <==> valid_grid(grid.deep_view())
                    && !all_present(grid.deep_view(), target@))
            },
        }),
{
    let ghost g = grid.deep_view();
    let ghost t = target@;
    if !check_grid(grid) {
        return Err(AnnealError::InvalidGrid);
    }
    proof {
        lemma_cost_bound(g, t);
    }
    let c0 = match cost(grid, target) {
        Ok(c) => c,
        Err(e) => {
            return Err(e);
        },
    };
    let mut current = copy_grid(grid);
    let mut current_cost = c0;
    let mut best = copy_grid(grid);
    let mut best_cost = c0;
    let rows = current.len();
    proof {
        assert(current.deep_view() == g);
        assert(g[0] == current@[0].deep_view());
    }
    let cols = current[0].len();
    let ghost m0 = init_model(g, t, rng.state);
    let mut it: usize = 0;
    while it < n_iters
        invariant
            g == grid.deep_view(),
            t == target@,
            valid_grid(g),
            all_present(g, t),
            cost_fits(g, t),
            rows == g.len(),
            cols == g[0].len(),
            m0 == init_model(g, t, m0.rng),
            0 <= it <= n_iters,
            ({
                let m = spec_run(m0, t, rows as u64, cols as u64, it as nat);
                &&& current.deep_view() == m.cur
                &&& current_cost as int == m.cur_cost
                &&& best.deep_view() == m.best
                &&& best_cost as int == m.best_cost
                &&& rng.state == m.rng
            }),
            valid_grid(current.deep_view()),
            all_present(current.deep_view(), t),
            current.deep_view().len() == rows,
            current.deep_view()[0].len() == cols,
            current_cost as int == spec_cost(current.deep_view(), t),
            best_cost as int == spec_cost(best.deep_view(), t),
            grid_labels(current.deep_view()) == grid_labels(g),
            grid_labels(best.deep_view()) == grid_labels(g),
            best_cost <= current_cost,
            best_cost as int <= spec_cost(g, t),
        decreases n_iters - it,
    {
        let ghost m_before = spec_run(m0, t, rows as u64, cols as u64, it as nat);
        let ghost cur_view = current.deep_view();
        let cand = propose_valid(&current, rng);
        let ghost cand_view = cand.deep_view();
        proof {
            let s1 = spec_next(m_before.rng);
            let s2 = spec_next(s1);
            let s3 = spec_next(s2);
            let s4 = spec_next(s3);
            let r1 = (s1 % (rows as u64)) as int;
            let c1 = (s2 % (cols as u64)) as int;
            let r2 = (s3 % (rows as u64)) as int;
            let c2 = (s4 % (cols as u64)) as int;
            assert(cur_view[r1].len() == cols);
            assert(cur_view[r2].len() == cols);
            lemma_swap_shape(cur_view, r1, c1, r2, c2);
            lemma_swap_preserves_labels(cur_view, r1, c1, r2, c2);
            lemma_swap_label_multiset(cur_view, r1, c1, r2, c2);
            assert(cand_view == spec_swap(cur_view, r1, c1, r2, c2));
            assert(rectangular(cand_view)) by {
                assert forall|i: int| 0 <= i < cand_view.len() implies #[trigger] cand_view[i].len()
                    == cand_view[0].len() by {
                    assert(cand_view[i].len() == cur_view[i].len());
                    assert(cand_view[0].len() == cur_view[0].len());
                }
            }
            assert(valid_grid(cand_view));
            assert(all_present(cand_view, t));
            lemma_cost_bound(cand_view, t);
            assert(cand_view.len() == g.len());
            assert(cand_view[0].len() == g[0].len());
        }
        let ncost = match cost(&cand, target) {
            Ok(c) => c,
            Err(_) => {
                proof {
                    assert(false);
                }
                return Err(AnnealError::MissingLabel);
            },
        };
        let accept = if ncost <= current_cost {
            true
        } else {
            rng.pick(2) == 0
        };
        if accept {
            current = cand;
            current_cost = ncost;
            if current_cost < best_cost {
                best = copy_grid(&current);
                best_cost = current_cost;
            }
        }
        proof {
            lemma_run_unfold_back(m0, t, rows as u64, cols as u64, it as nat);
            assert(spec_run(m0, t, rows as u64, cols as u64, (it + 1) as nat) == spec_step(
                m_before,
                t,
                rows as u64,
                cols as u64,
            ));
        }
        it += 1;
    }
    Ok(best)
}

/// The state a driver threads through an annealing run it paces itself:
/// the grid the walk stands on, the best grid seen, and their costs.
pub struct AnnealState {
    pub current: Grid,
    pub current_cost: i32,
    pub best: Grid,
    pub best_cost: i32,
}

/// What every reachable `AnnealState` satisfies: both grids are valid,
/// hold every target label, have the same shape, carry their true costs,
/// and the best cost never exceeds the current one.
pub open spec fn state_wf(s: AnnealState, t: Seq<i32>) -> bool {
    &&& valid_grid(s.current.deep_view())
    &&& valid_grid(s.best.deep_view())
    &&& all_present(s.current.deep_view(), t)
    &&& all_present(s.best.deep_view(), t)
    &&& s.current_cost as int == spec_cost(s.current.deep_view(), t)
    &&& s.best_cost as int == spec_cost(s.best.deep_view(), t)
    &&& s.best_cost <= s.current_cost
    &&& s.best.deep_view().len() == s.current.deep_view().len()
    &&& s.best.deep_view()[0].len() == s.current.deep_view()[0].len()
    &&& grid_labels(s.best.deep_view()) == grid_labels(s.current.deep_view())
}

/// Validates the inputs and builds the state an annealing run starts
/// from: current and best are the input grid at its own cost. A grid
/// with no rows, no columns, or ragged rows is `InvalidGrid`; a target
/// label the grid lacks is `MissingLabel`; both before any other work.
pub fn start_state(grid: &Grid, target: &Vec<i32>) -> (r: Result<AnnealState, AnnealError>)
    requires
        cost_fits(grid.deep_view(), target@),
    ensures
        (match r {
            Ok(s) => {
                &&& state_wf(s, target@)
                &&& s.current.deep_view() == grid.deep_view()
                &&& s.best.deep_view() == grid.deep_view()
                &&& s.current_cost as int == spec_cost(grid.deep_view(), target@)
                &&& s.best_cost == s.current_cost
            },
            Err(e) => {
                &&& (e == AnnealError::InvalidGrid || e == AnnealError::MissingLabel)
                &&& (e == AnnealError::InvalidGrid <==> !valid_grid(grid.deep_view()))
                &&& (e == AnnealError::MissingLabel <==> valid_grid(grid.deep_view())
                    && !all_present(grid.deep_view(), target@))
            },
        }),
{
    let ghost g = grid.deep_view();
    let ghost t = target@;
    if !check_grid(grid) {
        return Err(AnnealError::InvalidGrid);
    }
    proof {
        lemma_cost_bound(g, t);
    }
    let c0 = match cost(grid, target) {
        Ok(c) => c,
        Err(e) => {
            return Err(e);
        },
    };
    Ok(
        AnnealState {
            current: copy_grid(grid),
            current_cost: c0,
            best: copy_grid(grid),
            best_cost: c0,
        },
    )
}

/// One annealing iteration for a driver that draws its own coordinates
/// and makes its own acceptance draw (say, against a Metropolis
/// probability at some temperature, which is the driver's affair): the
/// candidate is the transposition of `(r1, c1)` and `(r2, c2)`; it is
/// accepted if it costs no more than the current grid, or if the driver
/// set `accept_worse`; an accepted cost below the best seen becomes the
/// new best. The best cost never increases.
pub fn anneal_step(
    state: &mut AnnealState,
    target: &Vec<i32>,
    r1: usize,
    c1: usize,
    r2: usize,
    c2: usize,
    accept_worse: bool,
)
    requires
        state_wf(*old(state), target@),
        cost_fits(old(state).current.deep_view(), target@),
        r1 < old(state).current.deep_view().len(),
        r2 < old(state).current.deep_view().len(),
        c1 < old(state).current.deep_view()[0].len(),
        c2 < old(state).current.deep_view()[0].len(),
    ensures
        state_wf(*final(state), target@),
        ({
            let g0 = old(state).current.deep_view();
            let cand = spec_swap(g0, r1 as int, c1 as int, r2 as int, c2 as int);
            let ncost = spec_cost(cand, target@);
            let accepted = ncost <= old(state).current_cost as int || accept_worse;
            &&& (accepted ==> final(state).current.deep_view() == cand
                && final(state).current_cost as int == ncost)
            &&& (!accepted ==> final(state).current.deep_view() == g0
                && final(state).current_cost == old(state).current_cost)
            &&& (if accepted && ncost < old(state).best_cost as int {
                final(state).best.deep_view() == cand && final(state).best_cost as int == ncost
            } else {
                final(state).best.deep_view() == old(state).best.deep_view()
                    && final(state).best_cost == old(state).best_cost
            })
        }),
        final(state).best_cost <= old(state).best_cost,
        final(state).current.deep_view().len() == old(state).current.deep_view().len(),
        final(state).current.deep_view()[0].len() == old(state).current.deep_view()[0].len(),
        grid_labels(final(state).current.deep_view()) == grid_labels(
            old(state).current.deep_view(),
        ),
        cost_fits(final(state).current.deep_view(), target@),
{
    let ghost g0 = state.current.deep_view();
    let ghost t = target@;
    proof {
        assert(g0[r1 as int].len() == g0[0].len());
        assert(g0[r2 as int].len() == g0[0].len());
    }
    let cand = swap_cells(&state.current, r1, c1, r2, c2);
    let ghost cand_view = cand.deep_view();
    proof {
        lemma_swap_shape(g0, r1 as int, c1 as int, r2 as int, c2 as int);
        lemma_swap_preserves_labels(g0, r1 as int, c1 as int, r2 as int, c2 as int);
        lemma_swap_label_multiset(g0, r1 as int, c1 as int, r2 as int, c2 as int);
        assert(rectangular(cand_view)) by {
            assert forall|i: int| 0 <= i < cand_view.len() implies #[trigger] cand_view[i].len()
                == cand_view[0].len() by {
                assert(cand_view[i].len() == g0[i].len());
                assert(cand_view[0].len() == g0[0].len());
            }
        }
        assert(valid_grid(cand_view));
        assert(all_present(cand_view, t));
        lemma_cost_bound(cand_view, t);
    }
    let ncost = match cost(&cand, target) {
        Ok(c) => c,
        Err(_) => {
            proof {
                assert(false);
            }
            return;
        },
    };
    if ncost <= state.current_cost || accept_worse {
        state.current = cand;
        state.current_cost = ncost;
        if state.current_cost < state.best_cost {
            state.best = copy_grid(&state.current);
            state.best_cost = state.current_cost;
        }
    }
}

} // verus!
