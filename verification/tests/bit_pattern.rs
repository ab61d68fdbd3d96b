use klotski::bit_pattern::BitPattern;
use klotski::direction::Direction;
use klotski::piece::Piece;

#[test]
fn from_u16_array_should_create_correct_pattern() {
    let bit_pattern = BitPattern::from_u16_array([0x2113, 0x2113, 0x4455, 0x6789, 0x6009]);
    let expected_array = [0x2113, 0x2113, 0x4455, 0x6789, 0x6009];
    assert_eq!(bit_pattern.to_u16_array(), expected_array);
}

#[test]
fn bit_pattern_from_u128_should_create_correct_pattern() {
    let bit_pattern = BitPattern::new(0x2113_2113_4455_6789_6009);
    let expected_array = [0x2113, 0x2113, 0x4455, 0x6789, 0x6009];
    assert_eq!(bit_pattern.to_u16_array(), expected_array);
}

#[test]
fn bit_pattern_get_u128_should_return_original_value() {
    let bit_pattern = BitPattern::new(0x2113_2113_4455_6789_6009);
    let expected_u128 = 0x2113_2113_4455_6789_6009u128;
    assert_eq!(bit_pattern.get_u128(), expected_u128);
}

#[test]
fn bit_pattern_is_empty_and_is_not_empty_should_work() {
    let bit_pattern = BitPattern::new(0x00000000000000000000);
    let expected_array = [0, 0, 0, 0, 0];
    assert_eq!(bit_pattern.to_u16_array(), expected_array);
    assert!(bit_pattern.is_empty());
    assert!(!bit_pattern.is_not_empty());

    let non_empty = BitPattern::new(0x0001_0000_0000_0000_0000);
    assert!(!non_empty.is_empty());
    assert!(non_empty.is_not_empty());
}

#[test]
fn bit_pattern_bitwise_operations_should_work() {
    let bit_pattern = BitPattern::new(0x2113_2113_4455_6789_6009);
    let bit_mask = BitPattern::new(0xffff_0000_ffff_0000_ffff);
    let and_result = bit_pattern & bit_mask;
    assert_eq!(and_result.to_u16_array(), [0x2113, 0x0000, 0x4455, 0x0000, 0x6009]);

    let or_result = bit_pattern | bit_mask;
    assert_eq!(or_result.to_u16_array(), [0xffff, 0x2113, 0xffff, 0x6789, 0xffff]);

    let xor_result = bit_pattern ^ bit_mask;
    assert_eq!(
        xor_result.to_u16_array(),
        [!0x2113, 0x2113, !0x4455, 0x6789, !0x6009]
    );

    let not_result = !bit_pattern;
    assert_eq!(
        not_result.to_u16_array(),
        [!0x2113, !0x2113, !0x4455, !0x6789, !0x6009]
    );
}

#[test]
fn bit_pattern_moved_should_shift_pattern_correctly() {
    let bit_pattern = BitPattern::new(0x2113_2113_4455_6789_6009);

    assert_eq!(
        bit_pattern.moved(Direction::Up),
        BitPattern::new(0x2113_4455_6789_6009_0000)
    );
    assert_eq!(
        bit_pattern.moved(Direction::Down),
        BitPattern::new(0x0000_2113_2113_4455_6789)
    );
    assert_eq!(
        bit_pattern.moved(Direction::Left),
        BitPattern::new(0x1130_1130_4550_7890_0090)
    );
    assert_eq!(
        bit_pattern.moved(Direction::Right),
        BitPattern::new(0x0211_0211_0445_0678_0600)
    );
}

#[test]
fn bit_pattern_mirrored_should_reverse_each_row() {
    let bit_pattern = BitPattern::new(0x2113_2113_4455_6789_6009);

    assert_eq!(
        bit_pattern.mirrored(),
        BitPattern::new(0x3112_3112_5544_9876_9006)
    );
}

#[test]
fn mirrored_u16_should_reverse_nibbles() {
    assert_eq!(BitPattern::mirrored_u16(0x1234), 0x4321);
    assert_eq!(BitPattern::mirrored_u16(0x5678), 0x8765);
    assert_eq!(BitPattern::mirrored_u16(0x9abc), 0xcba9);
}

#[test]
fn bit_pattern_symmetrized_should_swap_pairs() {
    let bit_pattern = BitPattern::new(0x2113_2113_4455_6789_6009);
    let pairs: Vec<(Piece, Piece)> = vec![
        (Piece::new(2), Piece::new(3)),
        (Piece::new(4), Piece::new(5)),
        (Piece::new(6), Piece::new(9)),
        (Piece::new(7), Piece::new(8)),
    ];

    let swapped_bitpattern = bit_pattern.symmetrized(&pairs);
    let expected_bitpattern = BitPattern::new(0x3112_3112_5544_9876_9006);

    assert_eq!(swapped_bitpattern, expected_bitpattern);
}

#[test]
fn symmetrized_u16_should_swap_pairs() {
    let pairs: Vec<(Piece, Piece)> = vec![
        (Piece::new(2), Piece::new(3)),
        (Piece::new(4), Piece::new(5)),
    ];
    // swap 2 <-> 3, 4 <-> 5
    let swapped_data = BitPattern::symmetrized_u16(0x1234, &pairs);
    assert_eq!(swapped_data, 0x1325);
}

#[test]
fn bit_pattern_mask_of_should_return_piece_mask() {
    let bit_pattern = BitPattern::new(0x2113_2113_4455_6789_6009);

    assert_eq!(
        bit_pattern.mask_of(Piece::new(1)),
        BitPattern::new(0x0ff0_0ff0_0000_0000_0000)
    );
    assert_eq!(
        bit_pattern.mask_of(Piece::new(2)),
        BitPattern::new(0xf000_f000_0000_0000_0000)
    );
    assert_eq!(
        bit_pattern.mask_of(Piece::new(3)),
        BitPattern::new(0x000f_000f_0000_0000_0000)
    );
    assert_eq!(
        bit_pattern.mask_of(Piece::new(4)),
        BitPattern::new(0x0000_0000_ff00_0000_0000)
    );
}

#[test]
fn mask_of_piece_u16_should_return_piece_mask() {
    assert_eq!(BitPattern::mask_of_piece_u16(0x1221, Piece::new(1)), 0xf00f);
    assert_eq!(BitPattern::mask_of_piece_u16(0x1221, Piece::new(2)), 0x0ff0);
    assert_eq!(BitPattern::mask_of_piece_u16(0x1234, Piece::new(4)), 0x000f);
    assert_eq!(BitPattern::mask_of_piece_u16(0x5678, Piece::new(6)), 0x0f00);
    assert_eq!(BitPattern::mask_of_piece_u16(0x5678, Piece::new(7)), 0x00f0);
}

#[test]
fn bit_pattern_display_should_format_as_hex_string() {
    let bit_pattern = BitPattern::new(0x2113_2113_4455_6789_6009);
    let displayed = bit_pattern.render();
    assert_eq!(displayed, "[2113_2113_4455_6789_6009]");
}

#[test]
fn bit_pattern_moved_should_return_empty_when_all_zero() {
    let bit_pattern = BitPattern::new(0x0000_0000_0000_0000_0000);
    assert_eq!(
        bit_pattern.moved(Direction::Up),
        BitPattern::new(0x0000_0000_0000_0000_0000)
    );
    assert_eq!(
        bit_pattern.moved(Direction::Down),
        BitPattern::new(0x0000_0000_0000_0000_0000)
    );
    assert_eq!(
        bit_pattern.moved(Direction::Left),
        BitPattern::new(0x0000_0000_0000_0000_0000)
    );
    assert_eq!(
        bit_pattern.moved(Direction::Right),
        BitPattern::new(0x0000_0000_0000_0000_0000)
    );
}

#[test]
fn bit_pattern_mask_of_should_return_empty_for_nonexistent_piece() {
    let bit_pattern = BitPattern::new(0x2113_2113_4455_6789_6009);
    // Piece 0 does not exist in this pattern
    assert_eq!(
        bit_pattern.mask_of(Piece::new(0xa)),
        BitPattern::new(0x0000_0000_0000_0000_0000)
    );
}

#[test]
fn impl_u128_from_u128_should_create_correct_pattern() {
    let bit_pattern = BitPattern::new(0x2113_2113_4455_6789_6009);
    assert_eq!(bit_pattern.get_u128(), 0x2113_2113_4455_6789_6009u128);
}

#[test]
fn impl_u128_get_u128_should_return_original_value() {
    let bit_pattern = BitPattern::new(0x2113_2113_4455_6789_6009);
    let expected_u128 = 0x2113_2113_4455_6789_6009u128;
    assert_eq!(bit_pattern.get_u128(), expected_u128);
}

#[test]
fn impl_u128_is_empty_and_is_not_empty_should_work() {
    let bit_pattern = BitPattern::new(0x0000_0000_0000_0000_0000);
    assert_eq!(bit_pattern.get_u128(), 0x0000_0000_0000_0000_0000u128);
    assert!(bit_pattern.is_empty());
    assert!(!bit_pattern.is_not_empty());

    let non_empty = BitPattern::new(0x0001_0000_0000_0000_0000);
    assert_eq!(non_empty.get_u128(), 0x0001_0000_0000_0000_0000u128);
    assert!(!non_empty.is_empty());
    assert!(non_empty.is_not_empty());
}

#[test]
fn impl_u128_bitwise_operations_should_work() {
    let bit_pattern = BitPattern::new(0x2113_2113_4455_6789_6009);
    let bit_mask = BitPattern::new(0xffff_0000_ffff_0000_ffff);
    let and_result = bit_pattern & bit_mask;
    assert_eq!(and_result.get_u128(), 0x2113_0000_4455_0000_6009u128);

    let or_result = bit_pattern | bit_mask;
    assert_eq!(or_result.get_u128(), 0xffff_2113_ffff_6789_ffffu128);

    let xor_result = bit_pattern ^ bit_mask;
    assert_eq!(xor_result.get_u128(), 0xdeec_2113_bbaa_6789_9ff6u128);

    let not_result = !bit_pattern;
    assert_eq!(not_result.get_u128(), 0xdeec_deec_bbaa_9876_9ff6u128);
}

#[test]
fn impl_u128_moved_should_shift_pattern_correctly() {
    let bit_pattern = BitPattern::new(0x2113_2113_4455_6789_6009);

    assert_eq!(
        bit_pattern.moved(Direction::Up),
        BitPattern::new(0x2113_4455_6789_6009_0000)
    );
    assert_eq!(
        bit_pattern.moved(Direction::Down),
        BitPattern::new(0x0000_2113_2113_4455_6789)
    );
    assert_eq!(
        bit_pattern.moved(Direction::Left),
        BitPattern::new(0x1130_1130_4550_7890_0090)
    );
    assert_eq!(
        bit_pattern.moved(Direction::Right),
        BitPattern::new(0x0211_0211_0445_0678_0600)
    );
}

#[test]
fn impl_u128_mirrored_should_reverse_each_row() {
    let bit_pattern = BitPattern::new(0x2113_2113_4455_6789_6009);

    assert_eq!(
        bit_pattern.mirrored(),
        BitPattern::new(0x3112_3112_5544_9876_9006)
    );
}

#[test]
fn impl_u128_symmetrized_should_swap_pairs() {
    let bit_pattern = BitPattern::new(0x2113_2113_4455_6789_6009);
    let pairs: Vec<(Piece, Piece)> = vec![
        (Piece::new(2), Piece::new(3)),
        (Piece::new(4), Piece::new(5)),
        (Piece::new(6), Piece::new(9)),
        (Piece::new(7), Piece::new(8)),
    ];

    let swapped_bitpattern = bit_pattern.symmetrized(&pairs);
    let expected_bitpattern = BitPattern::new(0x3112_3112_5544_9876_9006);

    assert_eq!(swapped_bitpattern, expected_bitpattern);
}

#[test]
fn impl_u128_mask_of_should_return_piece_mask() {
    let bit_pattern = BitPattern::new(0x2113_2113_4455_6789_6009);

    assert_eq!(
        bit_pattern.mask_of(Piece::new(1)),
        BitPattern::new(0x0ff0_0ff0_0000_0000_0000)
    );
    assert_eq!(
        bit_pattern.mask_of(Piece::new(2)),
        BitPattern::new(0xf000_f000_0000_0000_0000)
    );
    assert_eq!(
        bit_pattern.mask_of(Piece::new(3)),
        BitPattern::new(0x000f_000f_0000_0000_0000)
    );
    assert_eq!(
        bit_pattern.mask_of(Piece::new(4)),
        BitPattern::new(0x0000_0000_ff00_0000_0000)
    );
}

#[test]
fn impl_u128_display_should_format_as_hex_string() {
    let bit_pattern = BitPattern::new(0x2113_2113_4455_6789_6009);
    let displayed = bit_pattern.render();
    assert_eq!(displayed, "[2113_2113_4455_6789_6009]");
}

#[test]
fn impl_u128_moved_should_return_empty_when_all_zero() {
    let bit_pattern = BitPattern::new(0x0000_0000_0000_0000_0000);
    assert_eq!(
        bit_pattern.moved(Direction::Up),
        BitPattern::new(0x0000_0000_0000_0000_0000)
    );
    assert_eq!(
        bit_pattern.moved(Direction::Down),
        BitPattern::new(0x0000_0000_0000_0000_0000)
    );
    assert_eq!(
        bit_pattern.moved(Direction::Left),
        BitPattern::new(0x0000_0000_0000_0000_0000)
    );
    assert_eq!(
        bit_pattern.moved(Direction::Right),
        BitPattern::new(0x0000_0000_0000_0000_0000)
    );
}

#[test]
fn impl_u128_mask_of_should_return_empty_for_nonexistent_piece() {
    let bit_pattern = BitPattern::new(0x2113_2113_4455_6789_6009);
    // Piece 0 does not exist in this pattern
    assert_eq!(
        bit_pattern.mask_of(Piece::new(0xa)),
        BitPattern::new(0x0000_0000_0000_0000_0000)
    );
}

#[test]
fn new_then_get_u128_gives_the_bits_back() {
    for value in [0u128, 1, 0x2113_2113_4455_6789_6009, 0xffff_ffff_ffff_ffff_ffff] {
        assert_eq!(BitPattern::new(value).get_u128(), value);
    }
}

#[test]
fn moved_up_drops_the_top_row() {
    assert_eq!(
        BitPattern::new(0x2113_2113_4455_6789_6009).moved(Direction::Up),
        BitPattern::new(0x2113_4455_6789_6009_0000)
    );
}

#[test]
fn mirrored_twice_is_the_pattern_itself() {
    for value in [0u128, 0x2113_2113_4455_6789_6009, 0x1234_5678_9abc_def0_1234] {
        let pattern = BitPattern::new(value);
        assert_eq!(pattern.mirrored().mirrored(), pattern);
    }
}

#[test]
fn moved_there_and_back_keeps_an_image_away_from_the_edge() {
    let inner = BitPattern::new(0x0000_0120_0340_0560_0000);
    for direction in [Direction::Up, Direction::Down, Direction::Left, Direction::Right] {
        assert_eq!(inner.moved(direction).moved(direction.reversed()), inner);
    }
    let touching = BitPattern::new(0x1000_0000_0000_0000_0000);
    assert_eq!(
        touching.moved(Direction::Up).moved(Direction::Down),
        BitPattern::new(0)
    );
    assert_eq!(
        touching.moved(Direction::Left).moved(Direction::Right),
        BitPattern::new(0)
    );
}

#[test]
fn masks_of_different_pieces_share_no_cell() {
    let pattern = BitPattern::new(0x2113_2113_4455_6789_6009);
    for p in 0u8..16 {
        for q in 0u8..16 {
            if p != q {
                let both = pattern.mask_of(Piece::new(p)) & pattern.mask_of(Piece::new(q));
                assert!(both.is_empty());
            }
        }
    }
}

#[test]
fn every_cell_belongs_to_one_piece_or_is_empty() {
    let pattern = BitPattern::new(0x2113_2113_4455_6789_6009);
    let mut cells = 0;
    for p in 1u8..16 {
        cells += pattern.mask_of(Piece::new(p)).get_u128().count_ones() / 4;
    }
    let empty = pattern.mask_of(Piece::new(0)).get_u128().count_ones() / 4;
    assert_eq!(empty, 2);
    assert_eq!(cells + empty, 20);
}

#[test]
fn cell_at_reads_cells_in_reading_order() {
    let pattern = BitPattern::new(0x2113_2113_4455_6789_6009);
    assert_eq!(pattern.cell_at(0), 2);
    assert_eq!(pattern.cell_at(3), 3);
    assert_eq!(pattern.cell_at(8), 4);
    assert_eq!(pattern.cell_at(15), 9);
    assert_eq!(pattern.cell_at(16), 6);
    assert_eq!(pattern.cell_at(19), 9);
}

#[test]
fn rows_and_pattern_convert_both_ways() {
    let rows = [0xffff, 0x0000, 0x1234, 0xabcd, 0x0001];
    let pattern = BitPattern::from_u16_array(rows);
    assert_eq!(pattern.get_u128(), 0xffff_0000_1234_abcd_0001);
    assert_eq!(pattern.to_u16_array(), rows);
}

#[test]
fn symmetrized_with_no_pairs_changes_nothing() {
    let pattern = BitPattern::new(0x2113_2113_4455_6789_6009);
    assert_eq!(pattern.symmetrized(&vec![]), pattern);
}

#[test]
fn symmetrized_twice_by_a_matching_is_the_pattern_itself() {
    let pattern = BitPattern::new(0x2113_2113_4556_4786_900a);
    let pairs = vec![
        (Piece::new(2), Piece::new(3)),
        (Piece::new(4), Piece::new(6)),
        (Piece::new(7), Piece::new(8)),
        (Piece::new(9), Piece::new(10)),
    ];
    let once = pattern.symmetrized(&pairs);
    assert_eq!(once, BitPattern::new(0x3112_3112_6554_6874_a009));
    assert_eq!(once.symmetrized(&pairs), pattern);
}

#[test]
fn render_shows_leading_zeros() {
    assert_eq!(BitPattern::new(0).render(), "[0000_0000_0000_0000_0000]");
    assert_eq!(
        BitPattern::new(0x000a_bcde_f012_3456_789f).render(),
        "[000a_bcde_f012_3456_789f]"
    );
}

#[test]
fn patterns_are_ordered_as_numbers() {
    assert!(BitPattern::new(0x2113_2113_4455_6789_6009) < BitPattern::new(0x3112_3112_5544_9876_9006));
    assert!(BitPattern::new(0) < BitPattern::new(1));
}
