use eight_puzzle::board::Board;
use eight_puzzle::board::Direction;
use eight_puzzle::heuristics::Heuristic;

#[test]
fn test_heuristic() {
    let board = Board::new([[8, 7, 3], [2, 0, 5], [1, 4, 6]]);
    assert_eq!(Heuristic::Blind.estimate(&board), 0);
    assert_eq!(Heuristic::Hamming.estimate(&board), 8);
    assert_eq!(Heuristic::Manhattan.estimate(&board), 16);
}

#[test]
fn every_estimate_is_zero_at_the_goal() {
    let goal = Board::goal();
    assert_eq!(Heuristic::Blind.estimate(&goal), 0);
    assert_eq!(Heuristic::Hamming.estimate(&goal), 0);
    assert_eq!(Heuristic::Manhattan.estimate(&goal), 0);
}

#[test]
fn hamming_and_manhattan_are_positive_off_the_goal() {
    let boards = [
        Board::new([[1, 2, 3], [4, 5, 6], [7, 0, 8]]),
        Board::new([[1, 2, 3], [4, 8, 5], [0, 7, 6]]),
        Board::new([[0, 1, 2], [3, 4, 5], [6, 7, 8]]),
    ];
    for board in boards {
        assert_eq!(Heuristic::Blind.estimate(&board), 0);
        assert!(Heuristic::Hamming.estimate(&board) > 0);
        assert!(Heuristic::Manhattan.estimate(&board) > 0);
    }
}

#[test]
fn estimates_count_the_blank() {
    // One move from the goal: the tile and the blank are both out of place.
    let board = Board::goal().apply(Direction::Left).unwrap();
    assert_eq!(Heuristic::Hamming.estimate(&board), 2);
    assert_eq!(Heuristic::Manhattan.estimate(&board), 2);
}

#[test]
fn estimates_on_known_boards() {
    let board = Board::new([[1, 2, 3], [4, 8, 5], [0, 7, 6]]);
    assert_eq!(Heuristic::Hamming.estimate(&board), 5);
    assert_eq!(Heuristic::Manhattan.estimate(&board), 6);
    let board = Board::new([[0, 1, 2], [3, 4, 5], [6, 7, 8]]);
    assert_eq!(Heuristic::Hamming.estimate(&board), 9);
    assert_eq!(Heuristic::Manhattan.estimate(&board), 16);
    let board = Board::new([[8, 6, 7], [2, 5, 4], [3, 0, 1]]);
    assert_eq!(Heuristic::Hamming.estimate(&board), 8);
    assert_eq!(Heuristic::Manhattan.estimate(&board), 22);
}

#[test]
fn one_move_changes_an_estimate_by_two_at_most() {
    let board = Board::new([[8, 7, 3], [2, 0, 5], [1, 4, 6]]);
    for heuristic in [Heuristic::Blind, Heuristic::Hamming, Heuristic::Manhattan] {
        let here = heuristic.estimate(&board);
        for direction in [Direction::Left, Direction::Right, Direction::Up, Direction::Down] {
            let next = board.apply(direction).unwrap();
            let there = heuristic.estimate(&next);
            assert!(here.abs_diff(there) <= 2);
        }
    }
}

#[test]
fn blind_never_exceeds_the_distance() {
    let board = Board::new([[1, 2, 3], [4, 8, 5], [0, 7, 6]]);
    assert!(Heuristic::Blind.estimate(&board) <= 4);
    assert!(Heuristic::Hamming.estimate(&board) <= 4 + 1);
    assert!(Heuristic::Manhattan.estimate(&board) <= 2 * 4);
}
