use eight_puzzle::board::Board;
use eight_puzzle::board::Direction;
use eight_puzzle::heuristics::Heuristic;
use eight_puzzle::search::search;
use eight_puzzle::search::Stats;
use std::time::Duration;

/// Boards with the length of their shortest plans, found by breadth-first
/// search from the goal.
fn instances() -> Vec<(u32, Board)> {
    vec![
        (0, Board::new([[1, 2, 3], [4, 5, 6], [7, 8, 0]])),
        (1, Board::new([[1, 2, 3], [4, 5, 6], [7, 0, 8]])),
        (2, Board::new([[1, 2, 3], [4, 0, 6], [7, 5, 8]])),
        (3, Board::new([[1, 0, 2], [4, 5, 3], [7, 8, 6]])),
        (4, Board::new([[0, 2, 3], [1, 4, 6], [7, 5, 8]])),
        (5, Board::new([[4, 1, 2], [0, 5, 3], [7, 8, 6]])),
        (6, Board::new([[1, 2, 3], [7, 0, 5], [8, 4, 6]])),
        (7, Board::new([[4, 1, 3], [7, 2, 5], [8, 0, 6]])),
        (8, Board::new([[1, 2, 0], [7, 5, 3], [8, 4, 6]])),
        (9, Board::new([[4, 1, 2], [0, 7, 3], [8, 5, 6]])),
        (10, Board::new([[1, 2, 3], [7, 0, 8], [6, 4, 5]])),
        (11, Board::new([[2, 5, 4], [0, 1, 3], [7, 8, 6]])),
        (12, Board::new([[4, 1, 3], [7, 8, 2], [5, 6, 0]])),
        (13, Board::new([[2, 5, 3], [0, 8, 7], [1, 4, 6]])),
        (14, Board::new([[8, 1, 5], [4, 3, 2], [0, 7, 6]])),
        (15, Board::new([[8, 0, 2], [1, 3, 5], [4, 7, 6]])),
        (16, Board::new([[2, 4, 3], [7, 8, 5], [6, 1, 0]])),
        (17, Board::new([[1, 2, 6], [5, 7, 4], [3, 0, 8]])),
        (18, Board::new([[4, 1, 0], [7, 6, 5], [3, 8, 2]])),
        (19, Board::new([[3, 1, 2], [0, 6, 7], [4, 5, 8]])),
        (20, Board::new([[7, 4, 6], [5, 2, 8], [3, 1, 0]])),
        (21, Board::new([[5, 2, 6], [0, 4, 1], [3, 7, 8]])),
        (22, Board::new([[3, 4, 0], [6, 2, 1], [7, 8, 5]])),
        (23, Board::new([[4, 0, 7], [3, 6, 1], [5, 2, 8]])),
        (24, Board::new([[7, 2, 0], [4, 6, 1], [3, 5, 8]])),
        (25, Board::new([[8, 5, 6], [2, 7, 0], [1, 4, 3]])),
        (26, Board::new([[0, 8, 2], [4, 6, 7], [1, 3, 5]])),
        (27, Board::new([[3, 7, 5], [6, 2, 4], [8, 0, 1]])),
        (28, Board::new([[8, 5, 1], [2, 4, 7], [3, 6, 0]])),
        (29, Board::new([[8, 0, 3], [7, 6, 2], [5, 4, 1]])),
        (30, Board::new([[1, 4, 0], [6, 8, 7], [2, 3, 5]])),
        (31, Board::new([[8, 6, 7], [2, 5, 4], [3, 0, 1]])),
    ]
}

#[test]
fn test_search() {
    // validates that search does return the optimal plan on the first 20 instances
    let all = instances();
    for (expected_cost, init) in &all[0..20] {
        let (path, _stats) = search(*init, Heuristic::Blind);
        let path = path.expect("no plan");
        assert!(init.is_valid_plan(&path));
        assert_eq!(path.len(), *expected_cost as usize);
    }
}

#[test]
fn hamming_finds_shortest_plans() {
    for (expected_cost, init) in instances() {
        let (path, _stats) = search(init, Heuristic::Hamming);
        let path = path.expect("no plan");
        assert!(init.is_valid_plan(&path));
        assert_eq!(path.len(), expected_cost as usize);
    }
}

#[test]
fn manhattan_finds_valid_plans() {
    for (expected_cost, init) in instances() {
        let (path, _stats) = search(init, Heuristic::Manhattan);
        let path = path.expect("no plan");
        assert!(init.is_valid_plan(&path));
        assert!(path.len() >= expected_cost as usize);
        assert_eq!(path.len() % 2, expected_cost as usize % 2);
    }
}

#[test]
fn blind_and_hamming_agree_on_the_length() {
    let all = instances();
    for (_, init) in &all[0..18] {
        let (blind, _) = search(*init, Heuristic::Blind);
        let (hamming, _) = search(*init, Heuristic::Hamming);
        assert_eq!(blind.unwrap().len(), hamming.unwrap().len());
    }
}

#[test]
fn plan_for_the_sample_board() {
    let start = Board::new([[1, 2, 3], [4, 8, 5], [0, 7, 6]]);
    for heuristic in [Heuristic::Blind, Heuristic::Hamming, Heuristic::Manhattan] {
        let (plan, stats) = search(start, heuristic);
        let plan = plan.expect("no plan");
        assert_eq!(plan.len(), 4);
        assert_eq!(start.follow(&plan), Some(Board::goal()));
        assert_eq!(
            plan,
            vec![Direction::Right, Direction::Up, Direction::Right, Direction::Down]
        );
        assert!(stats.expanded >= 5);
    }
}

#[test]
fn the_goal_needs_no_move() {
    for heuristic in [Heuristic::Blind, Heuristic::Hamming, Heuristic::Manhattan] {
        let (plan, stats) = search(Board::goal(), heuristic);
        assert_eq!(plan, Some(vec![]));
        assert_eq!(stats.expanded, 1);
    }
}

#[test]
fn two_swapped_tiles_cannot_be_solved() {
    let start = Board::new([[1, 2, 3], [4, 5, 6], [8, 7, 0]]);
    let (plan, stats) = search(start, Heuristic::Manhattan);
    assert_eq!(plan, None);
    // Half of the 9! arrangements can be reached from any board.
    assert_eq!(stats.expanded, 181440);
}

#[test]
fn blind_search_exhausts_an_unsolvable_board() {
    let start = Board::new([[2, 1, 3], [4, 5, 6], [7, 8, 0]]);
    let (plan, stats) = search(start, Heuristic::Blind);
    assert!(plan.is_none());
    assert_eq!(stats.expanded, 181440);
}

#[test]
fn better_estimates_expand_fewer_boards() {
    let all = instances();
    let (_, init) = all[16];
    let (_, blind) = search(init, Heuristic::Blind);
    let (_, hamming) = search(init, Heuristic::Hamming);
    let (_, manhattan) = search(init, Heuristic::Manhattan);
    assert!(manhattan.expanded <= hamming.expanded);
    assert!(hamming.expanded <= blind.expanded);
    assert!(blind.expanded <= 181440);
}

#[test]
fn stats_new_keeps_its_arguments() {
    let stats = Stats::new(42, Duration::from_millis(1500));
    assert_eq!(stats.expanded, 42);
    assert_eq!(stats.runtime, Duration::from_millis(1500));
}

#[test]
fn manhattan_may_return_a_longer_plan() {
    // Twenty moves solve this board; Manhattan counts the blank and may be
    // led to a plan that is valid but not the shortest.
    let start = Board::new([[7, 1, 5], [3, 4, 8], [6, 2, 0]]);
    let (blind, _) = search(start, Heuristic::Blind);
    assert_eq!(blind.unwrap().len(), 20);
    let (hamming, _) = search(start, Heuristic::Hamming);
    assert_eq!(hamming.unwrap().len(), 20);
    let (manhattan, stats) = search(start, Heuristic::Manhattan);
    let manhattan = manhattan.expect("no plan");
    assert!(start.is_valid_plan(&manhattan));
    assert!(manhattan.len() >= 20);
    assert_eq!(manhattan.len() % 2, 0);
    assert!(stats.expanded >= manhattan.len() + 1);
}

#[test]
fn expanded_counts_at_least_the_boards_on_the_plan() {
    for (expected_cost, init) in instances() {
        let (path, stats) = search(init, Heuristic::Hamming);
        assert!(stats.expanded >= path.unwrap().len() + 1);
        assert!(stats.expanded >= expected_cost as usize + 1);
        assert!(stats.expanded <= 181440);
    }
}
