use klotski::bit_pattern::BitPattern;
use klotski::board::Board;
use klotski::piece::Piece;
use klotski::rule::Rule;

#[test]
fn rule_new_should_initialize_fields() {
    let rule = Rule::new(
        &Board::new(0x2113_2113_4556_4786_900a),
        &BitPattern::new(0x0000_0000_0000_0ff0_0ff0),
    );
    let expected_start_board = Board::new(0x2113_2113_4556_4786_900a);
    assert_eq!(rule.start, expected_start_board);

    let expected_pieces = vec![
        Piece::new(1),
        Piece::new(2),
        Piece::new(3),
        Piece::new(4),
        Piece::new(5),
        Piece::new(6),
        Piece::new(7),
        Piece::new(8),
        Piece::new(9),
        Piece::new(10),
    ];
    assert_eq!(rule.pieces, expected_pieces);

    let mut sorted_pairs = rule.pairs.clone();
    sorted_pairs.sort();
    let expected_sorted_pairs = vec![
        (Piece::new(2), Piece::new(3)),
        (Piece::new(4), Piece::new(6)),
        (Piece::new(7), Piece::new(8)),
        (Piece::new(9), Piece::new(10)),
    ];
    assert_eq!(sorted_pairs, expected_sorted_pairs);

    assert!(rule.is_finished(&Board::new(0x2003_2783_4455_6119_6119)));
}

#[test]
fn rule_new_should_handle_asymmetric_goal() {
    let rule = Rule::new(
        &Board::new(0x2113_2113_4556_7896_700a),
        &BitPattern::new(0x0000_0000_0000_0ff0_0ff0),
    );
    let expected_start_board = Board::new(0x2113_2113_4556_7896_700a);
    assert_eq!(rule.start, expected_start_board);

    let expected_pieces = vec![
        Piece::new(1),
        Piece::new(2),
        Piece::new(3),
        Piece::new(4),
        Piece::new(5),
        Piece::new(6),
        Piece::new(7),
        Piece::new(8),
        Piece::new(9),
        Piece::new(10),
    ];
    assert_eq!(rule.pieces, expected_pieces);

    let expected_pairs = vec![];
    assert_eq!(rule.pairs, expected_pairs);
}

#[test]
fn is_finished_should_return_true_for_goal() {
    let rule = Rule::new(
        &Board::new(0x2113_2113_4556_4786_900a),
        &BitPattern::new(0x0ff0_0ff0_0000_0000_0000),
    );
    let goal_board = Board::new(0x2113_2113_4556_4786_900a);
    assert!(rule.is_finished(&goal_board));
}

#[test]
fn create_pieces_should_return_empty_for_empty_board() {
    let empty_board = Board::new(0x0000_0000_0000_0000_0000);
    let pieces = Rule::create_pieces(&empty_board);
    assert_eq!(pieces, vec![]);
}

#[test]
fn create_pairs_should_return_empty_for_asymmetric_goal() {
    let board = Board::new(0x2113_2113_4556_4786_900a);
    let asymmetric_goal_mask = BitPattern::new(0x0000_0000_0000_00ff_00ff);
    let pieces = Rule::create_pieces(&board);
    let pairs = Rule::create_pairs(&board, &asymmetric_goal_mask, &pieces);
    assert_eq!(pairs, vec![]);
}

#[test]
fn rule_new_keeps_the_goal_mask() {
    let goal = BitPattern::new(0x0000_0000_0000_0ff0_0ff0);
    let rule = Rule::new(&Board::new(0x2113_2113_4556_4786_900a), &goal);
    assert_eq!(rule.goal_mask, goal);
}

#[test]
fn is_finished_is_false_while_the_large_piece_is_elsewhere() {
    let rule = Rule::new(
        &Board::new(0x2113_2113_4556_4786_900a),
        &BitPattern::new(0x0000_0000_0000_0ff0_0ff0),
    );
    assert!(!rule.is_finished(&Board::new(0x2113_2113_4556_4786_900a)));
    assert!(!rule.is_finished(&Board::new(0x2003_2783_4455_1169_1169)));
}

#[test]
fn create_pieces_lists_present_labels_in_ascending_order() {
    let pieces = Rule::create_pieces(&Board::new(0xf000_0000_0300_0000_0001));
    assert_eq!(pieces, vec![Piece::new(1), Piece::new(3), Piece::new(15)]);
}

#[test]
fn create_pairs_come_in_ascending_order_of_the_smaller_label() {
    let board = Board::new(0x2113_2113_4556_4786_900a);
    let goal = BitPattern::new(0x0000_0000_0000_0ff0_0ff0);
    let pieces = Rule::create_pieces(&board);
    let pairs = Rule::create_pairs(&board, &goal, &pieces);
    assert_eq!(
        pairs,
        vec![
            (Piece::new(2), Piece::new(3)),
            (Piece::new(4), Piece::new(6)),
            (Piece::new(7), Piece::new(8)),
            (Piece::new(9), Piece::new(10)),
        ]
    );
}

#[test]
fn create_pairs_are_none_when_a_piece_has_no_mirror_image() {
    let board = Board::new(0x2113_2113_4556_7896_700a);
    let goal = BitPattern::new(0x0000_0000_0000_0ff0_0ff0);
    let pieces = Rule::create_pieces(&board);
    assert_eq!(Rule::create_pairs(&board, &goal, &pieces), vec![]);
}
