use aoc2023::d17::{run_part_1, run_part_2, search, Grid, SearchError};

const SAMPLE: &str = "2413432311323
3215453535623
3255245654254
3446585845452
4546657867536
1438598798454
4457876987766
3637877979653
4654967986887
4564679986453
1224686865563
2546548887735
4322674655533
";

fn uniform(rows: usize, cols: usize, cost: u64) -> Grid {
    Grid::new(rows, cols, vec![cost; rows * cols]).unwrap()
}

#[test]
fn part_1_test() {
    assert_eq!(run_part_1(SAMPLE.to_string()).unwrap(), 102);
}

#[test]
fn part_2_test() {
    assert_eq!(run_part_2(SAMPLE.to_string()).unwrap(), 94);
}

#[test]
fn part_2_single_row_corridor() {
    let input = "111111111111\n999999999991\n999999999991\n999999999991\n999999999991\n";
    assert_eq!(run_part_2(input.to_string()).unwrap(), 71);
}

#[test]
fn small_regime_on_uniform_square() {
    let g = uniform(3, 3, 1);
    assert_eq!(search(&g, 1, 3, (0, 0), (2, 2)), Ok(4));
}

#[test]
fn long_runs_on_uniform_square() {
    let g = uniform(5, 5, 1);
    assert_eq!(search(&g, 4, 10, (0, 0), (4, 4)), Ok(8));
}

#[test]
fn turn_longer_than_grid_is_unreachable() {
    let g = uniform(2, 3, 1);
    assert_eq!(search(&g, 4, 10, (0, 0), (1, 2)), Err(SearchError::NotReachable));
}

#[test]
fn single_cell_costs_nothing() {
    let g = uniform(1, 1, 7);
    assert_eq!(search(&g, 4, 10, (0, 0), (0, 0)), Ok(0));
}

#[test]
fn origin_equal_destination_costs_nothing() {
    let g = uniform(4, 4, 5);
    assert_eq!(search(&g, 1, 3, (2, 1), (2, 1)), Ok(0));
    assert_eq!(search(&g, 4, 10, (2, 1), (2, 1)), Ok(0));
}

#[test]
fn raising_a_cell_never_lowers_the_cost() {
    let base = Grid::new(3, 3, vec![1, 1, 1, 1, 1, 1, 1, 1, 1]).unwrap();
    let raised = Grid::new(3, 3, vec![1, 9, 1, 1, 1, 1, 1, 1, 1]).unwrap();
    let a = search(&base, 1, 3, (0, 0), (2, 2)).unwrap();
    let b = search(&raised, 1, 3, (0, 0), (2, 2)).unwrap();
    assert!(a <= b);
}

#[test]
fn repeated_runs_agree() {
    let a = run_part_1(SAMPLE.to_string());
    let b = run_part_1(SAMPLE.to_string());
    assert_eq!(a, b);
}

#[test]
fn no_reversal_straight_corridor() {
    // with one-cell turns and runs as long as the grid, the cost is that of a plain shortest path
    let g = Grid::new(3, 3, vec![0, 1, 9, 9, 1, 9, 9, 1, 1]).unwrap();
    assert_eq!(search(&g, 1, 3, (0, 0), (2, 2)), Ok(4));
}

#[test]
fn out_of_bounds_cells_are_rejected() {
    let g = uniform(2, 2, 1);
    assert_eq!(search(&g, 1, 3, (2, 0), (1, 1)), Err(SearchError::OriginOutOfBounds));
    assert_eq!(search(&g, 1, 3, (0, 0), (1, 5)), Err(SearchError::DestinationOutOfBounds));
}

#[test]
fn malformed_grids_are_rejected() {
    assert_eq!(run_part_1("123\n45\n".to_string()), Err(SearchError::InvalidGrid));
    assert_eq!(run_part_1("12a\n456\n".to_string()), Err(SearchError::InvalidGrid));
    assert_eq!(run_part_1("   \n".to_string()), Err(SearchError::InvalidGrid));
}

#[test]
fn grid_needs_matching_cost_count() {
    assert!(Grid::new(2, 2, vec![1, 2, 3]).is_none());
    assert!(Grid::new(2, 2, vec![1, 2, 3, 4]).is_some());
}

#[test]
fn unicode_whitespace_is_trimmed() {
    assert_eq!(run_part_1("\u{0B}5".to_string()), Ok(0));
    assert_eq!(run_part_2("\u{3000}5\u{00A0}\u{2028}".to_string()), Ok(0));
}

#[test]
fn crlf_line_endings_are_read() {
    assert_eq!(run_part_1("19\r\n11\r\n".to_string()), Ok(2));
}
