use grid_anneal::anneal_step;
use grid_anneal::cost;
use grid_anneal::propose;
use grid_anneal::simulated_annealing;
use grid_anneal::start_state;
use grid_anneal::AnnealError;
use grid_anneal::SeededRng;

fn grid_2x2() -> Vec<Vec<i32>> {
    vec![vec![1, 2], vec![3, 4]]
}

fn sorted_labels(g: &Vec<Vec<i32>>) -> Vec<i32> {
    let mut all: Vec<i32> = g.iter().flatten().copied().collect();
    all.sort();
    all
}

#[test]
fn zero_iterations_return_input_unchanged() {
    let g = grid_2x2();
    let t = vec![1, 4];
    let mut rng = SeededRng::new(99);
    let out = simulated_annealing(&g, &t, 0, &mut rng).unwrap();
    assert_eq!(out, g);
    assert_eq!(cost(&out, &t), cost(&g, &t));
}

#[test]
fn runs_are_deterministic_for_equal_seeds() {
    let g = vec![vec![1, 2, 3], vec![4, 5, 6], vec![7, 8, 9]];
    let t = vec![1, 5, 9];
    let mut rng_a = SeededRng::new(2024);
    let mut rng_b = SeededRng::new(2024);
    let a = simulated_annealing(&g, &t, 500, &mut rng_a).unwrap();
    let b = simulated_annealing(&g, &t, 500, &mut rng_b).unwrap();
    assert_eq!(a, b);
}

#[test]
fn zero_seed_falls_back_deterministically() {
    let g = grid_2x2();
    let t = vec![1, 4];
    let mut rng_a = SeededRng::new(0);
    let mut rng_b = SeededRng::new(0);
    let a = simulated_annealing(&g, &t, 100, &mut rng_a).unwrap();
    let b = simulated_annealing(&g, &t, 100, &mut rng_b).unwrap();
    assert_eq!(a, b);
}

#[test]
fn best_never_regresses_from_start() {
    let g = vec![vec![9, 8, 7], vec![6, 5, 4], vec![3, 2, 1]];
    let t = vec![9, 5, 1];
    let start_cost = cost(&g, &t).unwrap();
    for seed in 1..6u64 {
        let mut rng = SeededRng::new(seed);
        let out = simulated_annealing(&g, &t, 300, &mut rng).unwrap();
        assert!(cost(&out, &t).unwrap() <= start_cost);
    }
}

#[test]
fn run_preserves_the_label_multiset() {
    let g = vec![vec![1, 2, 3], vec![4, 5, 6], vec![7, 8, 9]];
    let t = vec![2, 6, 7];
    let mut rng = SeededRng::new(7);
    let out = simulated_annealing(&g, &t, 400, &mut rng).unwrap();
    assert_eq!(sorted_labels(&out), sorted_labels(&g));
    assert_eq!(out.len(), g.len());
    assert!(out.iter().all(|row| row.len() == g[0].len()));
}

#[test]
fn scenario_generous_run_reaches_adjacent_pair() {
    // From [[1,2],[3,4]] with targets 1 and 4 at cost 2, a generous run
    // must find one of the arrangements where they are adjacent (cost 1).
    let g = grid_2x2();
    let t = vec![1, 4];
    let mut rng = SeededRng::new(1);
    let out = simulated_annealing(&g, &t, 10000, &mut rng).unwrap();
    assert_eq!(cost(&out, &t), Ok(1));
}

#[test]
fn scenario_single_cell_grid_is_returned_unchanged() {
    let g = vec![vec![5]];
    let t = vec![5];
    for iters in [0usize, 1, 50, 1000] {
        let mut rng = SeededRng::new(13);
        let out = simulated_annealing(&g, &t, iters, &mut rng).unwrap();
        assert_eq!(out, g);
        assert_eq!(cost(&out, &t), Ok(0));
    }
}

#[test]
fn scenario_missing_target_label_fails() {
    let g = grid_2x2();
    let t = vec![1, 40];
    let mut rng = SeededRng::new(3);
    assert_eq!(
        simulated_annealing(&g, &t, 100, &mut rng),
        Err(AnnealError::MissingLabel)
    );
}

#[test]
fn invalid_grids_are_rejected() {
    let t = vec![1];
    let mut rng = SeededRng::new(5);
    let empty: Vec<Vec<i32>> = vec![];
    assert_eq!(
        simulated_annealing(&empty, &t, 10, &mut rng),
        Err(AnnealError::InvalidGrid)
    );
    let no_cols: Vec<Vec<i32>> = vec![vec![]];
    assert_eq!(
        simulated_annealing(&no_cols, &t, 10, &mut rng),
        Err(AnnealError::InvalidGrid)
    );
    let ragged = vec![vec![1, 2], vec![3]];
    assert_eq!(
        simulated_annealing(&ragged, &t, 10, &mut rng),
        Err(AnnealError::InvalidGrid)
    );
    assert_eq!(propose(&ragged, &mut rng), Err(AnnealError::InvalidGrid));
}

#[test]
fn propose_moves_at_most_one_transposition() {
    let g = vec![vec![1, 2, 3], vec![4, 5, 6], vec![7, 8, 9]];
    let mut rng = SeededRng::new(11);
    for _ in 0..20 {
        let out = propose(&g, &mut rng).unwrap();
        assert_eq!(sorted_labels(&out), sorted_labels(&g));
        let differing: usize = g
            .iter()
            .flatten()
            .zip(out.iter().flatten())
            .filter(|(a, b)| a != b)
            .count();
        assert!(differing == 0 || differing == 2);
    }
}

#[test]
fn start_state_holds_the_input_at_its_cost() {
    let g = grid_2x2();
    let t = vec![1, 4];
    let s = start_state(&g, &t).unwrap();
    assert_eq!(s.current, g);
    assert_eq!(s.best, g);
    assert_eq!(s.current_cost, 2);
    assert_eq!(s.best_cost, 2);
}

#[test]
fn start_state_rejects_bad_inputs() {
    let ragged = vec![vec![1, 2], vec![3]];
    assert!(matches!(
        start_state(&ragged, &vec![1]),
        Err(AnnealError::InvalidGrid)
    ));
    assert!(matches!(
        start_state(&grid_2x2(), &vec![77]),
        Err(AnnealError::MissingLabel)
    ));
}

#[test]
fn anneal_step_accepts_improvements_and_tracks_best() {
    let g = grid_2x2();
    let t = vec![1, 4];
    let mut s = start_state(&g, &t).unwrap();
    // Swapping (0,1) with (1,1) yields [[1,4],[3,2]]: cost drops to 1.
    anneal_step(&mut s, &t, 0, 1, 1, 1, false);
    assert_eq!(s.current, vec![vec![1, 4], vec![3, 2]]);
    assert_eq!(s.current_cost, 1);
    assert_eq!(s.best_cost, 1);
    assert_eq!(s.best, s.current);
}

#[test]
fn anneal_step_rejects_a_worse_move_unless_told() {
    let g = vec![vec![1, 4], vec![3, 2]];
    let t = vec![1, 4];
    let mut s = start_state(&g, &t).unwrap();
    assert_eq!(s.current_cost, 1);
    // Swapping 4 away to (1,1) worsens the cost to 2.
    anneal_step(&mut s, &t, 0, 1, 1, 1, false);
    assert_eq!(s.current, g);
    assert_eq!(s.current_cost, 1);
    // The same move forced through is taken, but the best stays.
    anneal_step(&mut s, &t, 0, 1, 1, 1, true);
    assert_eq!(s.current, vec![vec![1, 2], vec![3, 4]]);
    assert_eq!(s.current_cost, 2);
    assert_eq!(s.best, g);
    assert_eq!(s.best_cost, 1);
}

#[test]
fn seeded_rng_pick_stays_below_bound() {
    let mut rng = SeededRng::new(17);
    for bound in [1usize, 2, 3, 10, 1000] {
        for _ in 0..50 {
            assert!(rng.pick(bound) < bound);
        }
    }
}
