use eight_puzzle::board::Board;
use eight_puzzle::board::Direction;
use eight_puzzle::board::CODE_LIMIT;

fn sample() -> Board {
    Board::new([[1, 2, 3], [4, 8, 5], [0, 7, 6]])
}

#[test]
fn new_keeps_rows_in_reading_order() {
    let board = Board::new([[8, 7, 3], [2, 0, 5], [1, 4, 6]]);
    let rows: [[u8; 3]; 3] = [[8, 7, 3], [2, 0, 5], [1, 4, 6]];
    for row in 0..3 {
        for col in 0..3 {
            assert_eq!(board.value_at(row, col), rows[row][col]);
        }
    }
}

#[test]
fn goal_is_tiles_in_order_then_blank() {
    let goal = Board::goal();
    assert_eq!(goal, Board::new([[1, 2, 3], [4, 5, 6], [7, 8, 0]]));
    assert_eq!(goal.value_at(0, 0), 1);
    assert_eq!(goal.value_at(1, 1), 5);
    assert_eq!(goal.value_at(2, 2), 0);
}

#[test]
fn position_finds_every_label() {
    let board = Board::new([[8, 7, 3], [2, 0, 5], [1, 4, 6]]);
    assert_eq!(board.position(8), (0, 0));
    assert_eq!(board.position(0), (1, 1));
    assert_eq!(board.position(6), (2, 2));
    assert_eq!(board.position(1), (2, 0));
    for label in 0..9u8 {
        let (row, col) = board.position(label);
        assert_eq!(board.value_at(row, col), label);
    }
}

#[test]
fn apply_slides_the_blank_in_each_direction() {
    let centre = Board::new([[1, 2, 3], [4, 0, 5], [6, 7, 8]]);
    assert_eq!(
        centre.apply(Direction::Left),
        Some(Board::new([[1, 2, 3], [0, 4, 5], [6, 7, 8]]))
    );
    assert_eq!(
        centre.apply(Direction::Right),
        Some(Board::new([[1, 2, 3], [4, 5, 0], [6, 7, 8]]))
    );
    assert_eq!(
        centre.apply(Direction::Up),
        Some(Board::new([[1, 0, 3], [4, 2, 5], [6, 7, 8]]))
    );
    assert_eq!(
        centre.apply(Direction::Down),
        Some(Board::new([[1, 2, 3], [4, 7, 5], [6, 0, 8]]))
    );
}

#[test]
fn apply_is_blocked_at_the_edges() {
    let top_left = Board::new([[0, 1, 2], [3, 4, 5], [6, 7, 8]]);
    assert_eq!(top_left.apply(Direction::Left), None);
    assert_eq!(top_left.apply(Direction::Up), None);
    assert!(top_left.apply(Direction::Right).is_some());
    assert!(top_left.apply(Direction::Down).is_some());
    let bottom_right = Board::goal();
    assert_eq!(bottom_right.apply(Direction::Right), None);
    assert_eq!(bottom_right.apply(Direction::Down), None);
    assert!(bottom_right.apply(Direction::Left).is_some());
    assert!(bottom_right.apply(Direction::Up).is_some());
}

#[test]
fn apply_leaves_the_receiver_unchanged() {
    let board = sample();
    let before: Vec<u8> = (0..9).map(|i| board.value_at(i / 3, i % 3)).collect();
    for direction in [Direction::Left, Direction::Right, Direction::Up, Direction::Down] {
        let _ = board.apply(direction);
        let after: Vec<u8> = (0..9).map(|i| board.value_at(i / 3, i % 3)).collect();
        assert_eq!(before, after);
    }
    assert_eq!(board, sample());
}

#[test]
fn opposite_moves_cancel() {
    let board = sample();
    let there = board.apply(Direction::Up).unwrap();
    assert_ne!(there, board);
    assert_eq!(there.apply(Direction::Down), Some(board));
    let there = board.apply(Direction::Right).unwrap();
    assert_eq!(there.apply(Direction::Left), Some(board));
}

#[test]
fn follow_replays_a_plan() {
    let board = sample();
    let plan = [Direction::Right, Direction::Up];
    assert_eq!(board.follow(&plan), Some(Board::new([[1, 2, 3], [4, 0, 5], [7, 8, 6]])));
    assert_eq!(board.follow(&[]), Some(board));
    assert_eq!(board.follow(&[Direction::Right, Direction::Down]), None);
}

#[test]
fn is_valid_plan_accepts_a_plan_that_reaches_the_goal() {
    let board = sample();
    let plan = [Direction::Right, Direction::Up, Direction::Right, Direction::Down];
    assert!(board.is_valid_plan(&plan));
    assert!(Board::goal().is_valid_plan(&[]));
}

#[test]
fn is_valid_plan_rejects_blocked_and_unfinished_plans() {
    let board = sample();
    assert!(!board.is_valid_plan(&[]));
    assert!(!board.is_valid_plan(&[Direction::Right, Direction::Up, Direction::Right]));
    assert!(!board.is_valid_plan(&[Direction::Left]));
    assert!(!board.is_valid_plan(&[Direction::Down, Direction::Right]));
    let overshoot = [
        Direction::Right,
        Direction::Up,
        Direction::Right,
        Direction::Down,
        Direction::Left,
    ];
    assert!(!board.is_valid_plan(&overshoot));
}

#[test]
fn code_is_the_grid_in_base_nine() {
    assert_eq!(Board::goal().code(), 42374116);
    assert_eq!(Board::new([[8, 7, 3], [2, 0, 5], [1, 4, 6]]).code(), 278240660);
    assert_eq!(Board::new([[0, 1, 2], [3, 4, 5], [6, 7, 8]]).code(), 381367044);
    assert!(Board::new([[0, 1, 2], [3, 4, 5], [6, 7, 8]]).code() < CODE_LIMIT);
    assert_eq!(CODE_LIMIT, 387420489);
}

#[test]
fn equal_boards_have_equal_codes_and_different_boards_do_not() {
    let a = Board::new([[1, 2, 3], [4, 5, 6], [7, 0, 8]]);
    let b = Board::goal().apply(Direction::Left).unwrap();
    assert_eq!(a, b);
    assert_eq!(a.code(), b.code());
    assert_ne!(a, Board::goal());
    assert_ne!(a.code(), Board::goal().code());
}

#[test]
fn try_new_accepts_each_label_once() {
    let made = Board::try_new([[8, 7, 3], [2, 0, 5], [1, 4, 6]]);
    assert_eq!(made, Some(Board::new([[8, 7, 3], [2, 0, 5], [1, 4, 6]])));
    assert_eq!(Board::try_new([[1, 2, 3], [4, 5, 6], [7, 8, 0]]), Some(Board::goal()));
}

#[test]
fn try_new_rejects_repeated_and_foreign_labels() {
    assert_eq!(Board::try_new([[1, 2, 3], [4, 5, 6], [7, 8, 8]]), None);
    assert_eq!(Board::try_new([[0, 0, 0], [0, 0, 0], [0, 0, 0]]), None);
    assert_eq!(Board::try_new([[1, 2, 3], [4, 5, 6], [7, 8, 9]]), None);
    assert_eq!(Board::try_new([[1, 2, 3], [4, 5, 6], [7, 255, 0]]), None);
}
