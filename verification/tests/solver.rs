use klotski::bit_pattern::BitPattern;
use klotski::board::Board;
use klotski::board_key::BoardKey;
use klotski::direction::Direction;
use klotski::move_path::MovePath;
use klotski::piece::Piece;
use klotski::rule::Rule;
use klotski::solver::{get_neighbors, solve};
use klotski::state::State;

#[test]
fn solver_test_create_key() {
    // Test BoardKey::create produces expected key
    let rule = Rule::new(
        &Board::new(0x3112_3112_5544_9876_9006),
        &BitPattern::new(0x0000_0000_0000_0ff0_0ff0),
    );
    let actual_key = BoardKey::create(&rule, &rule.start);
    let expected_key = BoardKey {
        key: BitPattern::new(0x2113_2113_4455_6789_6009),
    };
    assert_eq!(actual_key, expected_key);
}

#[test]
fn test_move_path_display() {
    // Test the text of a MovePath
    let up = Direction::Up;
    let down = Direction::Down;
    let path_none = MovePath::Start;
    let path_one = MovePath::One(up);
    let path_two = MovePath::Two(up, down);
    assert_eq!(path_none.render(), "None");
    assert_eq!(path_one.render(), up.name());
    assert_eq!(path_two.render(), format!("{} and {}", up.name(), down.name()));
}

#[test]
fn test_get_neighbors() {
    // Test that get_neighbors does not move the same piece twice in a row
    let rule = Rule::new(
        &Board::new(0x2113_2113_4556_4786_900a),
        &BitPattern::new(0x0000_0000_0000_0ff0_0ff0),
    );
    let state = State {
        board: rule.start.clone(),
        piece: Some(rule.pieces[0]),
        path: MovePath::Start,
    };
    let neighbors = get_neighbors(&rule, &state);
    assert_eq!(
        neighbors,
        vec![
            State {
                board: Board::new(0x2113_2113_4556_4086_970a),
                piece: Some(Piece::new(7)),
                path: MovePath::One(Direction::Down),
            },
            State {
                board: Board::new(0x2113_2113_4556_4086_907a),
                piece: Some(Piece::new(7)),
                path: MovePath::Two(Direction::Down, Direction::Right),
            },
            State {
                board: Board::new(0x2113_2113_4556_4706_908a),
                piece: Some(Piece::new(8)),
                path: MovePath::One(Direction::Down),
            },
            State {
                board: Board::new(0x2113_2113_4556_4706_980a),
                piece: Some(Piece::new(8)),
                path: MovePath::Two(Direction::Down, Direction::Left),
            },
            State {
                board: Board::new(0x2113_2113_4556_4786_090a),
                piece: Some(Piece::new(9)),
                path: MovePath::One(Direction::Right),
            },
            State {
                board: Board::new(0x2113_2113_4556_4786_009a),
                piece: Some(Piece::new(9)),
                path: MovePath::Two(Direction::Right, Direction::Right),
            },
            State {
                board: Board::new(0x2113_2113_4556_4786_90a0),
                piece: Some(Piece::new(0xa)),
                path: MovePath::One(Direction::Left),
            },
            State {
                board: Board::new(0x2113_2113_4556_4786_9a00),
                piece: Some(Piece::new(0xa)),
                path: MovePath::Two(Direction::Left, Direction::Left),
            },
        ]
    );
}

#[test]
fn test_solve_returns_none_for_unsolvable() {
    // Test solve returns None for unsolvable puzzle
    let rule = Rule::new(
        &Board::new(0x2112_2112_3344_5678_5008),
        &BitPattern::new(0x0000_0000_0000_0ff0_0ff0),
    );
    let result = solve(&rule);
    assert_eq!(result, None);
}

#[test]
fn get_neighbors_leaves_out_the_piece_that_moved_last() {
    let rule = Rule::new(
        &Board::new(0x2113_2113_4556_4786_900a),
        &BitPattern::new(0x0000_0000_0000_0ff0_0ff0),
    );
    let state = State {
        board: rule.start,
        piece: Some(Piece::new(7)),
        path: MovePath::One(Direction::Up),
    };
    let neighbors = get_neighbors(&rule, &state);
    assert_eq!(neighbors.len(), 6);
    assert!(neighbors.iter().all(|s| s.piece != Some(Piece::new(7))));
    assert_eq!(
        neighbors[0],
        State {
            board: Board::new(0x2113_2113_4556_4706_908a),
            piece: Some(Piece::new(8)),
            path: MovePath::One(Direction::Down),
        }
    );
}

#[test]
fn get_neighbors_of_a_board_that_is_full_are_none() {
    let board = Board::new(0x2113_2113_4556_4786_9aab);
    let rule = Rule::new(&board, &BitPattern::new(0x0000_0000_0000_0ff0_0ff0));
    let state = State { board, piece: None, path: MovePath::Start };
    assert_eq!(get_neighbors(&rule, &state), vec![]);
}

#[test]
fn solve_standard_puzzle_takes_eighty_one_steps() {
    let goal = BitPattern::new(0x0000_0000_0000_0ff0_0ff0);
    let rule = Rule::new(&Board::new(0x2113_2113_4556_4786_900a), &goal);
    let path = solve(&rule).expect("the standard puzzle has a solution");
    assert_eq!(path.len() - 1, 81);
    assert_eq!(
        path[0],
        State { board: rule.start, piece: None, path: MovePath::Start }
    );
    assert_eq!(
        path[1],
        State {
            board: Board::new(0x2113_2113_4556_4086_970a),
            piece: Some(Piece::new(7)),
            path: MovePath::One(Direction::Down),
        }
    );
    let last = &path[path.len() - 1];
    assert_eq!(last.board.image.mask_of(Piece::new(1)), goal);
    assert_eq!(last.board, Board::new(0x2436_2436_7855_0119_011a));
    assert_eq!(last.piece, Some(Piece::new(1)));
    for i in 0..path.len() - 1 {
        assert!(get_neighbors(&rule, &path[i]).contains(&path[i + 1]));
        assert!(!rule.is_finished(&path[i].board));
    }
}

#[test]
fn solve_returns_the_start_alone_when_it_is_the_goal() {
    let rule = Rule::new(
        &Board::new(0x2113_2113_4556_4786_900a),
        &BitPattern::new(0x0ff0_0ff0_0000_0000_0000),
    );
    let result = solve(&rule);
    assert_eq!(
        result,
        Some(vec![State { board: rule.start, piece: None, path: MovePath::Start }])
    );
}

#[test]
fn solve_finds_a_goal_one_step_away() {
    let rule = Rule::new(
        &Board::new(0x2003_2113_4113_4556_7889),
        &BitPattern::new(0x0ff0_0ff0_0000_0000_0000),
    );
    let result = solve(&rule);
    assert_eq!(
        result,
        Some(vec![
            State { board: rule.start, piece: None, path: MovePath::Start },
            State {
                board: Board::new(0x2113_2113_4003_4556_7889),
                piece: Some(Piece::new(1)),
                path: MovePath::One(Direction::Up),
            },
        ])
    );
}
