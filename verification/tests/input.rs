use klotski::bit_pattern::BitPattern;
use klotski::hex::{digit_of, hex_digit, hex_of_u8};
use klotski::input::{
    count_empty_spaces, is_valid_regular_piece_shapes, parse_20_hex_digits, parse_args_to_rule,
    piece_shape, KlotskiError,
};
use klotski::piece::Piece;

#[test]
fn test_parse_20_hex_digits_valid() {
    // Valid 20-digit hex string with underscores
    let s = "0x1234_5678_9abc_def0_1234";
    let pat = parse_20_hex_digits(s);
    assert_eq!(pat, Some(BitPattern::new(0x1234_5678_9abc_def0_1234)));
}

#[test]
fn test_parse_20_hex_digits_invalid() {
    // Invalid: 21 digits
    let s = "0x1234_5678_9abc_def0_12345";
    assert_eq!(parse_20_hex_digits(s), None);
    // Invalid: Non-hex characters
    let s = "0x1234_5678_9abc_defg_1234";
    assert_eq!(parse_20_hex_digits(s), None);
}

#[test]
fn test_count_empty_spaces() {
    let pat = BitPattern::new(0x2113_2113_4556_4786_900a);
    assert_eq!(count_empty_spaces(&pat), 2);
    // All empty
    let pat = BitPattern::new(0);
    assert_eq!(count_empty_spaces(&pat), 20);
    // No empty
    let pat = BitPattern::new(0x1111_1111_1111_1111_1111);
    assert_eq!(count_empty_spaces(&pat), 0);
}

#[test]
fn test_piece_shape_and_is_valid_regular_piece_shapes() {
    // Small piece
    let pat = BitPattern::new(0x0000_000f);
    assert!(is_valid_regular_piece_shapes(&pat));
    // Horizontal piece
    let pat = BitPattern::new(0x0000_00ff);
    assert!(is_valid_regular_piece_shapes(&pat));
    // Vertical piece
    let pat = BitPattern::new(0x000f_000f);
    assert!(is_valid_regular_piece_shapes(&pat));
    // Unused
    let pat = BitPattern::new(0x0000_0000);
    assert!(is_valid_regular_piece_shapes(&pat));
    // Invalid shape
    let pat = BitPattern::new(0x0000_0fff);
    assert!(!is_valid_regular_piece_shapes(&pat));
}

#[test]
fn test_parse_args_to_rule_valid_and_invalid() {
    let start = "0x2113_2113_4556_4786_900a";
    let goal = "0x0000_0000_0000_0ff0_0ff0";
    let result = parse_args_to_rule(start, goal);
    assert!(result.is_ok());

    // Invalid start
    let bad_start = "0x0000_0000_0000_0000_0000";
    let result = parse_args_to_rule(bad_start, goal);
    assert!(result.is_err());

    // Invalid goal
    let bad_goal = "0x0000_0000_0000_0000_0001";
    let result = parse_args_to_rule(start, bad_goal);
    assert!(result.is_err());
}

#[test]
fn parse_takes_short_numbers_capitals_and_a_plus_sign() {
    assert_eq!(parse_20_hex_digits("12"), Some(BitPattern::new(0x12)));
    assert_eq!(parse_20_hex_digits("0"), Some(BitPattern::new(0)));
    assert_eq!(parse_20_hex_digits("0xAbCd"), Some(BitPattern::new(0xabcd)));
    assert_eq!(parse_20_hex_digits("+ff"), Some(BitPattern::new(0xff)));
    assert_eq!(parse_20_hex_digits("_+_f_"), Some(BitPattern::new(0xf)));
    assert_eq!(
        parse_20_hex_digits("ffffffffffffffffffff"),
        Some(BitPattern::new(0xffff_ffff_ffff_ffff_ffff))
    );
    assert_eq!(
        parse_20_hex_digits("0000_0000_0000_0000_ffff_ffff_ffff_ffff_ffff"),
        Some(BitPattern::new(0xffff_ffff_ffff_ffff_ffff))
    );
}

#[test]
fn parse_strips_every_mark_at_the_beginning_and_none_later() {
    assert_eq!(parse_20_hex_digits("0x0x12"), Some(BitPattern::new(0x12)));
    assert_eq!(parse_20_hex_digits("0x0"), Some(BitPattern::new(0)));
    assert_eq!(parse_20_hex_digits("120x"), None);
    assert_eq!(parse_20_hex_digits("_0x12"), None);
    assert_eq!(parse_20_hex_digits("0_x12"), None);
    assert_eq!(parse_20_hex_digits("+0x12"), None);
}

#[test]
fn parse_turns_down_what_is_no_number() {
    assert_eq!(parse_20_hex_digits(""), None);
    assert_eq!(parse_20_hex_digits("0x"), None);
    assert_eq!(parse_20_hex_digits("___"), None);
    assert_eq!(parse_20_hex_digits("+"), None);
    assert_eq!(parse_20_hex_digits("++1"), None);
    assert_eq!(parse_20_hex_digits("-1"), None);
    assert_eq!(parse_20_hex_digits("1+"), None);
    assert_eq!(parse_20_hex_digits(" 1"), None);
    assert_eq!(parse_20_hex_digits("1é"), None);
}

#[test]
fn parse_turns_down_what_does_not_fit_in_eighty_bits() {
    assert_eq!(parse_20_hex_digits("1_0000_0000_0000_0000_0000"), None);
    assert_eq!(
        parse_20_hex_digits("ffffffffffffffffffffffffffffffffffffffffffffffffff"),
        None
    );
}

#[test]
fn piece_shape_moves_the_piece_to_the_last_cell() {
    let board = BitPattern::new(0x2113_2113_4556_4786_900a);
    assert_eq!(piece_shape(&board, 1), BitPattern::new(0x00ff_00ff));
    assert_eq!(piece_shape(&board, 2), BitPattern::new(0x000f_000f));
    assert_eq!(piece_shape(&board, 5), BitPattern::new(0x0000_00ff));
    assert_eq!(piece_shape(&board, 7), BitPattern::new(0x0000_000f));
    assert_eq!(piece_shape(&board, 0xa), BitPattern::new(0x0000_000f));
    assert_eq!(piece_shape(&board, 0xb), BitPattern::new(0));
    let goal = BitPattern::new(0x0000_0000_0000_0ff0_0ff0);
    assert_eq!(piece_shape(&goal, 0xf), BitPattern::new(0x00ff_00ff));
    let top = BitPattern::new(0x3000_0000_0000_0000_0000);
    assert_eq!(piece_shape(&top, 3), BitPattern::new(0x0000_000f));
}

#[test]
fn count_empty_spaces_counts_cells_not_bits() {
    assert_eq!(count_empty_spaces(&BitPattern::new(0x8421_8421_8421_8421_8421)), 0);
    assert_eq!(count_empty_spaces(&BitPattern::new(0x0000_0000_0000_0ff0_0ff0)), 16);
    assert_eq!(count_empty_spaces(&BitPattern::new(0x1000_0000_0000_0000_0000)), 19);
}

fn message_for(start: &str, goal: &str) -> String {
    match parse_args_to_rule(start, goal) {
        Ok(_) => panic!("the texts were taken"),
        Err(error) => error.message(),
    }
}

#[test]
fn parse_args_to_rule_names_each_flaw() {
    let start = "0x2113_2113_4556_4786_900a";
    let goal = "0x0000_0000_0000_0ff0_0ff0";
    assert_eq!(
        message_for("0x2113_2113_4556_4786_900g", goal),
        "START_BOARD must be a 20 hex digit number."
    );
    assert_eq!(
        message_for("0x0000_0000_0000_0000_0000", goal),
        "START_BOARD must have only two empty spaces."
    );
    assert_eq!(
        message_for("0x2113_2113_4556_4786_9aab", goal),
        "START_BOARD must have only two empty spaces."
    );
    assert_eq!(
        message_for("0x2222_2222_2222_2222_2200", goal),
        "START_BOARD must have the #1 large piece."
    );
    assert_eq!(
        message_for("0x2113_2113_4556_4786_9001", goal),
        "START_BOARD must have the #1 large piece."
    );
    assert_eq!(
        message_for("0x2112_2112_2222_2222_2200", goal),
        "START_BOARD contains a piece that is not of a legal shape."
    );
    assert_eq!(
        message_for("0x2113_2113_4556_4786_900f", "0x2113"),
        "GOAL_MASK shape is incorrect."
    );
    assert_eq!(message_for(start, "goal"), "GOAL_MASK must be a 20 hex digit number.");
    assert_eq!(
        message_for(start, "0x0"),
        "GOAL_MASK must be a mask that indicates the goal position."
    );
    assert_eq!(message_for(start, "0xffff"), "GOAL_MASK shape is incorrect.");
    assert_eq!(message_for(start, "0x0110_0110"), "GOAL_MASK shape is incorrect.");
}

#[test]
fn parse_args_to_rule_finds_the_first_flaw_of_several() {
    assert_eq!(message_for("x", "y"), "START_BOARD must be a 20 hex digit number.");
    assert_eq!(
        message_for("0x0", "y"),
        "START_BOARD must have only two empty spaces."
    );
}

#[test]
fn parse_args_to_rule_makes_the_rule_of_the_standard_puzzle() {
    let rule = match parse_args_to_rule("0x2113_2113_4556_4786_900a", "0x0000_0000_0000_0ff0_0ff0") {
        Ok(rule) => rule,
        Err(error) => panic!("{}", error.message()),
    };
    assert_eq!(rule.start.image, BitPattern::new(0x2113_2113_4556_4786_900a));
    assert_eq!(rule.goal_mask, BitPattern::new(0x0000_0000_0000_0ff0_0ff0));
    assert_eq!(rule.pieces.len(), 10);
    assert_eq!(
        rule.pairs,
        vec![
            (Piece::new(2), Piece::new(3)),
            (Piece::new(4), Piece::new(6)),
            (Piece::new(7), Piece::new(8)),
            (Piece::new(9), Piece::new(10)),
        ]
    );
}

#[test]
fn error_shows_its_message() {
    let error = KlotskiError::Validation(String::from("no good"));
    assert_eq!(error.message(), "no good");
}

#[test]
fn hex_digits_both_ways() {
    assert_eq!(hex_digit(0), "0");
    assert_eq!(hex_digit(9), "9");
    assert_eq!(hex_digit(10), "a");
    assert_eq!(hex_digit(15), "f");
    assert_eq!(digit_of('0'), Some(0));
    assert_eq!(digit_of('9'), Some(9));
    assert_eq!(digit_of('a'), Some(10));
    assert_eq!(digit_of('f'), Some(15));
    assert_eq!(digit_of('A'), Some(10));
    assert_eq!(digit_of('F'), Some(15));
    assert_eq!(digit_of('g'), None);
    assert_eq!(digit_of('G'), None);
    assert_eq!(digit_of('/'), None);
    assert_eq!(digit_of(':'), None);
    assert_eq!(digit_of('_'), None);
    assert_eq!(hex_of_u8(0), "0");
    assert_eq!(hex_of_u8(0x0f), "f");
    assert_eq!(hex_of_u8(0x10), "10");
    assert_eq!(hex_of_u8(0xa7), "a7");
}
