use klotski::bit_pattern::BitPattern;
use klotski::board::Board;
use klotski::board_key::BoardKey;
use klotski::direction::Direction;
use klotski::piece::Piece;
use klotski::rule::Rule;

#[test]
fn test_board() {
    let board = Board::new(0x2113_2113_4455_6789_6009);
    let expected_image = BitPattern::new(0x2113_2113_4455_6789_6009);
    assert_eq!(board.image, expected_image);
}

#[test]
fn test_move_piece() {
    let board = Board::new(0x2113_2113_4455_6789_6009);

    let moved_result = board.move_piece(Piece::new(8), Direction::Down);
    let expected_board = Board::new(0x2113_2113_4455_6709_6089);
    assert_eq!(moved_result, Some(expected_board));

    let case_of_on_edge = board.move_piece(Piece::new(9), Direction::Right);
    assert_eq!(case_of_on_edge, None);

    let case_of_overlap = board.move_piece(Piece::new(9), Direction::Left);
    assert_eq!(case_of_overlap, None);

    let board2 = Board::new(0x2113_2113_4455_6709_6809);
    let moved_result2 = board2.move_piece(Piece::new(9), Direction::Left);
    let expected_board2 = Board::new(0x2113_2113_4455_6790_6890);
    assert_eq!(moved_result2, Some(expected_board2));
}

#[test]
fn board_key_test_create_key() {
    let rule = Rule::new(
        &Board::new(0x3112_3112_5544_9876_9006),
        &BitPattern::new(0x0000_0000_0000_0ff0_0ff0),
    );
    let actual_key = BoardKey::create(&rule, &rule.start);
    let expected_key = BoardKey {
        key: BitPattern::new(0x2113_2113_4455_6789_6009),
    };
    assert_eq!(actual_key, expected_key);
}

#[test]
fn test_direction_reversed() {
    assert_eq!(Direction::Up.reversed(), Direction::Down);
    assert_eq!(Direction::Down.reversed(), Direction::Up);
    assert_eq!(Direction::Left.reversed(), Direction::Right);
    assert_eq!(Direction::Right.reversed(), Direction::Left);
}

#[test]
fn test_piece() {
    let piece = Piece::new(5);
    assert_eq!(piece.id, 5);
    assert_eq!(piece.render(), "5");

    assert_eq!(Piece::new(0xa).render(), "a");
}

#[test]
fn piece_with_a_wide_label_is_written_with_two_digits() {
    assert_eq!(Piece::new(0).render(), "0");
    assert_eq!(Piece::new(0xf).render(), "f");
    assert_eq!(Piece::new(0x10).render(), "10");
    assert_eq!(Piece::new(0xff).render(), "ff");
}

#[test]
fn direction_names() {
    assert_eq!(Direction::Up.name(), "Up");
    assert_eq!(Direction::Down.name(), "Down");
    assert_eq!(Direction::Left.name(), "Left");
    assert_eq!(Direction::Right.name(), "Right");
}

#[test]
fn from_bitpattern_keeps_the_image() {
    let image = BitPattern::new(0x2113_2113_4556_4786_900a);
    assert_eq!(Board::from_bitpattern(image).image, image);
}

#[test]
fn move_piece_of_a_piece_that_is_not_on_the_board_gives_nothing() {
    let board = Board::new(0x2113_2113_4455_6789_6009);
    for direction in [Direction::Up, Direction::Down, Direction::Left, Direction::Right] {
        assert_eq!(board.move_piece(Piece::new(0xa), direction), None);
    }
}

#[test]
fn move_piece_stops_at_every_edge() {
    let board = Board::new(0x2003_0110_0110_0000_4005);
    assert_eq!(board.move_piece(Piece::new(2), Direction::Up), None);
    assert_eq!(board.move_piece(Piece::new(2), Direction::Left), None);
    assert_eq!(board.move_piece(Piece::new(3), Direction::Right), None);
    assert_eq!(board.move_piece(Piece::new(4), Direction::Down), None);
    assert_eq!(
        board.move_piece(Piece::new(1), Direction::Up),
        Some(Board::new(0x2113_0110_0000_0000_4005))
    );
}

#[test]
fn move_piece_and_back_restores_the_board() {
    let board = Board::new(0x2113_2113_4455_6789_6009);
    let down = board.move_piece(Piece::new(8), Direction::Down);
    assert_eq!(down, Some(Board::new(0x2113_2113_4455_6709_6089)));
    let back = down.and_then(|b| b.move_piece(Piece::new(8), Direction::Up));
    assert_eq!(back, Some(board));

    let start = Board::new(0x2113_2113_4556_4786_900a);
    for id in 1u8..=10 {
        for direction in [Direction::Up, Direction::Down, Direction::Left, Direction::Right] {
            if let Some(next) = start.move_piece(Piece::new(id), direction) {
                assert_eq!(
                    next.move_piece(Piece::new(id), direction.reversed()),
                    Some(start)
                );
            }
        }
    }
}

#[test]
fn key_is_the_same_for_a_board_and_its_mirror_image() {
    let start = Board::new(0x2113_2113_4556_4786_900a);
    let rule = Rule::new(&start, &BitPattern::new(0x0000_0000_0000_0ff0_0ff0));
    let board = Board::new(0x2113_2113_4556_4086_970a);
    let mirror = Board::from_bitpattern(board.image.mirrored());
    assert_eq!(BoardKey::create(&rule, &board), BoardKey::create(&rule, &mirror));
    assert_eq!(
        BoardKey::create(&rule, &start).key,
        BitPattern::new(0x2113_2113_4556_4786_900a)
    );
}

#[test]
fn key_is_the_same_for_a_board_and_its_symmetrized_form() {
    let start = Board::new(0x2113_2113_4556_4786_900a);
    let rule = Rule::new(&start, &BitPattern::new(0x0000_0000_0000_0ff0_0ff0));
    assert!(!rule.pairs.is_empty());
    let board = Board::new(0x2113_2113_4556_4086_970a);
    let exchanged = Board::from_bitpattern(board.image.symmetrized(&rule.pairs));
    assert_eq!(exchanged, Board::new(0x3112_3112_6554_6074_a809));
    assert_eq!(BoardKey::create(&rule, &board), BoardKey::create(&rule, &exchanged));
    assert_eq!(
        BoardKey::create(&rule, &board).key,
        BitPattern::new(0x2113_2113_4556_4086_970a)
    );
}

#[test]
fn key_without_pairs_is_the_smaller_of_image_and_mirror_image() {
    let rule = Rule::new(
        &Board::new(0x2113_2113_4556_7896_700a),
        &BitPattern::new(0x0000_0000_0000_0ff0_0ff0),
    );
    assert!(rule.pairs.is_empty());
    let board = Board::new(0x3112_3112_5544_9876_9006);
    assert_eq!(
        BoardKey::create(&rule, &board).key,
        BitPattern::new(0x2113_2113_4455_6789_6009)
    );
}
