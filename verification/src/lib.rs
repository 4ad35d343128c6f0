//! Simulated-annealing rearrangement of integer labels on a 2D grid.
//!
//! The objective is the sum of pairwise Manhattan distances between the
//! positions of a chosen set of target labels; the optimizer permutes the
//! grid by random pairwise swaps, accepting worsening moves at the whim of
//! an injected random source, and returns the best grid it saw.

use vstd::prelude::*;

mod anneal;
mod cost;
mod errors;
mod grid;
mod naming;
mod rng;

pub use anneal::anneal_step;
pub use anneal::AnnealState;
pub use anneal::cost_fits;
pub use anneal::init_model;
pub use anneal::propose;
pub use anneal::RunModel;
pub use anneal::simulated_annealing;
pub use anneal::spec_propose;
pub use anneal::spec_run;
pub use anneal::spec_step;
pub use anneal::start_state;
pub use anneal::state_wf;
pub use cost::cost;
pub use cost::dist_sum;
pub use cost::in_range;
pub use cost::lemma_cost_bound;
pub use cost::lemma_cost_reorder;
pub use cost::lemma_dist_sum_nonneg;
pub use cost::lemma_noop_proposal_cost;
pub use cost::lemma_pair_sum_nonneg;
pub use cost::lemma_positions_in_range;
pub use cost::manhattan;
pub use cost::pair_sum;
pub use cost::pos_view;
pub use cost::spec_cost;
pub use cost::spec_manhattan;
pub use cost::spec_positions;
pub use errors::AnnealError;
pub use grid::all_present;
pub use grid::check_grid;
pub use grid::find_pos;
pub use grid::first_pos;
pub use grid::grid_has;
pub use grid::grid_labels;
pub use grid::is_first_pos;
pub use grid::lemma_first_pos_properties;
pub use grid::lemma_first_pos_unique;
pub use grid::lemma_noop_swap;
pub use grid::lemma_swap_cell_values;
pub use grid::lemma_swap_label_multiset;
pub use grid::lemma_swap_preserves_labels;
pub use grid::lemma_swap_shape;
pub use grid::rectangular;
pub use grid::row_has;
pub use grid::spec_swap;
pub use grid::swap_cells;
pub use grid::valid_grid;
pub use naming::all_digits;
pub use naming::digits_value;
pub use naming::is_digit;
pub use naming::is_numbered_csv;
pub use naming::next_file_index;
pub use naming::numbered_csv_value;
pub use naming::numeral_digits;
pub use naming::parse_numbered_csv;
pub use naming::parses_as_u32;
pub use rng::SEED_FALLBACK;
pub use rng::SeededRng;
pub use rng::spec_next;
pub use rng::spec_pick;

verus! {

/// A grid of integer labels: an ordered collection of rows.
pub type Grid = Vec<Vec<i32>>;

} // verus!
