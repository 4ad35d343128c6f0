use grid_anneal::cost;
use grid_anneal::manhattan;
use grid_anneal::swap_cells;
use grid_anneal::AnnealError;

fn grid_2x2() -> Vec<Vec<i32>> {
    vec![vec![1, 2], vec![3, 4]]
}

#[test]
fn manhattan_same_cell_is_zero() {
    assert_eq!(manhattan((3, 7), (3, 7)), 0);
}

#[test]
fn manhattan_exact_values() {
    assert_eq!(manhattan((0, 0), (1, 1)), 2);
    assert_eq!(manhattan((2, 5), (4, 1)), 6);
    assert_eq!(manhattan((4, 1), (2, 5)), 6);
}

#[test]
fn cost_empty_target_is_zero() {
    let g = grid_2x2();
    assert_eq!(cost(&g, &vec![]), Ok(0));
    let single = vec![vec![5]];
    assert_eq!(cost(&single, &vec![]), Ok(0));
}

#[test]
fn cost_scenario_a_initial_value() {
    // 1 sits at (0,0) and 4 at (1,1): |0-1| + |0-1| = 2.
    let g = grid_2x2();
    assert_eq!(cost(&g, &vec![1, 4]), Ok(2));
}

#[test]
fn cost_three_targets_exact_value() {
    let g = vec![vec![1, 2, 3], vec![4, 5, 6], vec![7, 8, 9]];
    // 1@(0,0), 5@(1,1), 9@(2,2): 2 + 4 + 2 = 8.
    assert_eq!(cost(&g, &vec![1, 5, 9]), Ok(8));
}

#[test]
fn cost_invariant_to_target_reorder() {
    let g = grid_2x2();
    assert_eq!(cost(&g, &vec![1, 4]), cost(&g, &vec![4, 1]));
    let g3 = vec![vec![1, 2, 3], vec![4, 5, 6], vec![7, 8, 9]];
    let a = cost(&g3, &vec![1, 5, 9]);
    assert_eq!(a, cost(&g3, &vec![9, 1, 5]));
    assert_eq!(a, cost(&g3, &vec![5, 9, 1]));
}

#[test]
fn cost_missing_label_is_reported() {
    let g = grid_2x2();
    assert_eq!(cost(&g, &vec![7]), Err(AnnealError::MissingLabel));
    assert_eq!(cost(&g, &vec![1, 7]), Err(AnnealError::MissingLabel));
}

#[test]
fn cost_charges_first_occurrence_of_duplicates() {
    // 7 occurs twice; the first occurrence in row-major order, (0,0), wins.
    let g = vec![vec![7, 1], vec![7, 4]];
    assert_eq!(cost(&g, &vec![7, 4]), Ok(2));
}

#[test]
fn swap_cells_exchanges_two_values() {
    let g = grid_2x2();
    let s = swap_cells(&g, 0, 0, 1, 1);
    assert_eq!(s, vec![vec![4, 2], vec![3, 1]]);
}

#[test]
fn noop_swap_keeps_grid_and_cost() {
    let g = grid_2x2();
    let s = swap_cells(&g, 0, 1, 0, 1);
    assert_eq!(s, g);
    assert_eq!(cost(&s, &vec![1, 4]), cost(&g, &vec![1, 4]));
}

#[test]
fn error_descriptions_name_the_condition() {
    assert!(AnnealError::MissingLabel.describe().contains("label"));
    assert!(AnnealError::InvalidGrid.describe().contains("grid"));
    assert!(AnnealError::InvalidParameter.describe().contains("parameter"));
}
