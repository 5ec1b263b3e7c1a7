use bit_board::bitboard::BitBoard;
use bit_board::bitboard::BoardIterator;
use bit_board::bitboard::Coord;

fn test_pattern() -> BitBoard {
    let mut board = BitBoard::empty();
    board.set_value_at(Coord::new(0, 0).unwrap(), true);
    board.set_value_at(Coord::new(0, 7).unwrap(), true);
    board.set_value_at(Coord::new(7, 0).unwrap(), true);
    board.set_value_at(Coord::new(7, 7).unwrap(), true);
    board.set_value_at(Coord::new(2, 2).unwrap(), true);
    board
}

#[test]
fn test_board_creation() {
    // When the board is printed, rows look 'reversed' because the most
    // significant bit is to the right.
    assert_eq!(
        test_pattern(),
        BitBoard(0b10000001_00000000_00000000_00000000_00000000_00000100_00000000_10000001u64)
    );
}

#[test]
fn test_print_board() {
    let out = test_pattern().to_board_string();
    assert_eq!(
        out,
        "\n10000001\n00000000\n00100000\n00000000\n00000000\n00000000\n00000000\n10000001"
    );
}

#[test]
fn test_shift_right() {
    let out = test_pattern().shift_right().to_board_string();
    assert_eq!(
        out,
        "\n01000000\n00000000\n00010000\n00000000\n00000000\n00000000\n00000000\n01000000"
    );
}

#[test]
fn test_shift_up() {
    let out = test_pattern().shift_up().to_board_string();
    assert_eq!(
        out,
        "\n00000000\n00100000\n00000000\n00000000\n00000000\n00000000\n10000001\n00000000"
    );
}

#[test]
fn test_shift_left() {
    let out = test_pattern().shift_left().to_board_string();
    assert_eq!(
        out,
        "\n00000010\n00000000\n01000000\n00000000\n00000000\n00000000\n00000000\n00000010"
    );
}

#[test]
fn test_shift_down() {
    let out = test_pattern().shift_down().to_board_string();
    assert_eq!(
        out,
        "\n00000000\n10000001\n00000000\n00100000\n00000000\n00000000\n00000000\n00000000"
    );
}

#[test]
fn test_coord_from_string() {
    assert_eq!(Coord::from_str("a0"), None);
    assert_eq!(Coord::from_str("a9"), None);
    assert_eq!(Coord::from_str("s1"), None);
    assert_eq!(Coord::from_str(""), None);
    assert_eq!(Coord::from_str("a1sdfg"), None);

    let coord = Coord::from_str("a1").unwrap();
    assert_eq!(coord.get_row(), 0);
    assert_eq!(coord.get_col(), 0);

    let coord = Coord::from_str("b3").unwrap();
    assert_eq!(coord.get_row(), 2);
    assert_eq!(coord.get_col(), 1);
}

#[test]
fn coord_round_trip_all_squares() {
    for row in 0u32..8 {
        for col in 0u32..8 {
            let c = Coord::new(row, col).unwrap();
            assert_eq!(c.get_row(), row);
            assert_eq!(c.get_col(), col);
            assert_eq!(c.get_idx(), col + row * 8);
        }
    }
    assert_eq!(Coord::new(8, 0), None);
    assert_eq!(Coord::new(0, 8), None);
    assert_eq!(Coord::new(9, 9), None);
}

#[test]
fn shift_round_trip_inner_bit() {
    let mut board = BitBoard::empty();
    board.set_value_at(Coord::new(3, 3).unwrap(), true);
    assert_eq!(board.shift_right().shift_left(), board);
    assert_eq!(board.shift_up().shift_down(), board);
}

#[test]
fn shift_right_from_rightmost_column_is_empty() {
    let mut board = BitBoard::empty();
    board.set_value_at(Coord::new(4, 7).unwrap(), true);
    assert!(board.shift_right().is_empty());
}

#[test]
fn shift_full_board_complements() {
    let full = BitBoard(!0u64);
    assert_eq!(full.shift_right().0 | full.shift_left().0, full.0);
    assert_eq!(full.shift_up().0 | full.shift_down().0, full.0);
    // The shifted full board misses exactly the column the pieces came across.
    assert_eq!(full.shift_right(), BitBoard(!BitBoard::leftmost_column().0));
    assert_eq!(full.shift_left(), BitBoard(!BitBoard::rightmost_column().0));
}

#[test]
fn count_ones_counts_discs() {
    assert_eq!(test_pattern().count_ones(), 5);
    assert_eq!(BitBoard::empty().count_ones(), 0);
    assert_eq!(BitBoard(!0u64).count_ones(), 64);
}

#[test]
fn first_one_finds_lowest_bit() {
    assert_eq!(BitBoard::empty().first_one(), None);
    let c = test_pattern().first_one().unwrap();
    assert_eq!(c.get_row(), 0);
    assert_eq!(c.get_col(), 0);
}

#[test]
fn board_iterator_walks_in_order() {
    let mut iter = test_pattern().into_iter();
    let mut seen: Vec<u32> = Vec::new();
    while let Some(c) = iter.next() {
        seen.push(c.get_idx());
    }
    assert_eq!(seen, vec![0, 7, 18, 56, 63]);
}
