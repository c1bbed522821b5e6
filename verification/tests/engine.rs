use vgraph::{Cycles, Ex, RingPuzzle, State, a_star_search, breadth_first_search, path_length};

#[test]
fn breadth_first_search_works() {
    assert_eq!(Some(vec![1, 2, 3]), breadth_first_search(Ex::new(), 1, 3));
}

#[test]
fn breadth_first_search_for_non_path_terminates() {
    assert_eq!(None, breadth_first_search(Cycles {}, 1, 33));
}

#[test]
fn path_length_works() {
    assert_eq!(2, path_length::<Ex>(Ex::new(), vec![1, 2, 3]))
}

#[test]
fn a_star_search_works() {
    assert_eq!(Some(vec![1, 2, 3]), a_star_search(Ex::new(), 1, |n| n == 3, |_| 0));
}

#[test]
fn a_star_search_for_non_path_terminates() {
    assert_eq!(None, a_star_search(Cycles {}, 1, |n| n == 33, |_| 0));
}

#[test]
fn breadth_first_search_start_equals_end_returns_single_node() {
    assert_eq!(Some(vec![1]), breadth_first_search(Ex::new(), 1, 1));
    assert_eq!(0, path_length::<Ex>(Ex::new(), vec![1]));
}

#[test]
fn a_star_search_goal_at_start_returns_single_node() {
    assert_eq!(Some(vec![1]), a_star_search(Ex::new(), 1, |n| n == 1, |_| 0));
}

#[test]
fn path_length_of_empty_and_single_node_paths_is_zero() {
    assert_eq!(0, path_length::<Ex>(Ex::new(), vec![]));
    assert_eq!(0, path_length::<Ex>(Ex::new(), vec![7]));
}

#[test]
fn a_star_search_with_zero_heuristic_finds_cheapest_path() {
    // Reaching 5 costs 4 via [1, 3, 5]; the alternatives through 2 or 4 cost 5.
    assert_eq!(Some(vec![1, 3, 5]), a_star_search(Cycles {}, 1, |n| n == 5, |_| 0));
    assert_eq!(4, path_length::<Cycles>(Cycles {}, vec![1, 3, 5]));
}

#[test]
fn path_length_sums_dist_over_search_result() {
    let path = breadth_first_search(Cycles {}, 1, 5).unwrap();
    assert_eq!(vec![1, 3, 5], path);
    assert_eq!(1 + 3, path_length::<Cycles>(Cycles {}, path));
}

#[test]
fn ring_puzzle_reaches_target_sum() {
    let puzzle = RingPuzzle::new(vec![-3, 7, -9, 4, -8, 1]);
    let start = State { position: 0, sum: 10 };
    let solution = a_star_search(puzzle, start, |s: State| s.sum == 0, |_| 0).unwrap();
    assert_eq!(start, solution[0]);
    assert_eq!(0, solution[solution.len() - 1].sum);
}

#[test]
fn ring_puzzle_without_target_sum_returns_none() {
    // All tiles are negative, so every game ends quickly and no state sums to 1.
    let puzzle = RingPuzzle::new(vec![-1, -2, -3]);
    let start = State { position: 0, sum: 2 };
    assert_eq!(None, a_star_search(puzzle, start, |s: State| s.sum == 1, |_| 0));
}
