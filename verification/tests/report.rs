use klotski::board::Board;
use klotski::direction::Direction;
use klotski::move_path::MovePath;
use klotski::piece::Piece;
use klotski::report::{decimal, describe, describe_step};
use klotski::state::State;

#[test]
fn decimal_writes_numbers_without_leading_zeros() {
    assert_eq!(decimal(0), "0");
    assert_eq!(decimal(7), "7");
    assert_eq!(decimal(10), "10");
    assert_eq!(decimal(81), "81");
    assert_eq!(decimal(1203), "1203");
    assert_eq!(decimal(usize::MAX), usize::MAX.to_string());
}

#[test]
fn describe_step_writes_one_line() {
    assert_eq!(
        describe_step(1, Piece::new(7), &MovePath::One(Direction::Down)),
        "step 1: Move piece #7: Down"
    );
    assert_eq!(
        describe_step(12, Piece::new(0xa), &MovePath::Two(Direction::Left, Direction::Up)),
        "step 12: Move piece #a: Left and Up"
    );
}

#[test]
fn describe_says_when_no_path_was_found() {
    assert_eq!(describe(&None), vec![String::from("path not found.")]);
}

#[test]
fn describe_leaves_out_the_start() {
    let start = Board::new(0x2113_2113_4556_4786_900a);
    let path = vec![
        State { board: start, piece: None, path: MovePath::Start },
        State {
            board: Board::new(0x2113_2113_4556_4086_970a),
            piece: Some(Piece::new(7)),
            path: MovePath::One(Direction::Down),
        },
        State {
            board: Board::new(0x2113_2113_4556_4086_97a0),
            piece: Some(Piece::new(0xa)),
            path: MovePath::One(Direction::Left),
        },
        State {
            board: Board::new(0x2113_2113_4550_4086_97a6),
            piece: Some(Piece::new(6)),
            path: MovePath::Two(Direction::Down, Direction::Down),
        },
    ];
    assert_eq!(
        describe(&Some(path)),
        vec![
            String::from("step 1: Move piece #7: Down"),
            String::from("step 2: Move piece #a: Left"),
            String::from("step 3: Move piece #6: Down and Down"),
        ]
    );
    let alone = vec![State { board: start, piece: None, path: MovePath::Start }];
    assert_eq!(describe(&Some(alone)), Vec::<String>::new());
}
