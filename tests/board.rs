use rand::rngs::StdRng;
use rand::{Rng, SeedableRng};
use sudoku::board::{HEIGHT, WIDTH};
use sudoku::Board;

#[test]
fn board_empty() {
    let board = Board::new_empty();
    for x in 0..WIDTH {
        for y in 0..HEIGHT {
            assert_eq!(None, board.field(x, y).get());
            assert!(board.field(x, y).is_empty());
        }
    }
    let mut board = board;
    for x in 0..WIDTH {
        for y in 0..HEIGHT {
            assert!(board.field_mut(x, y).is_empty());
        }
    }
}

#[test]
fn random() {
    let mut rng = StdRng::seed_from_u64(0);
    let mut board = Board::new_empty();
    for x in 0..WIDTH {
        for y in 0..HEIGHT {
            let value: u8 = rng.random_range(0..=9);
            board
                .field_mut(x, y)
                .set(if value == 0 { None } else { Some(value) });
        }
    }

    let mut rng = StdRng::seed_from_u64(0);
    for x in 0..WIDTH {
        for y in 0..HEIGHT {
            let value: u8 = rng.random_range(0..=9);
            let expected = if value == 0 { None } else { Some(value) };
            assert_eq!(expected, board.field(x, y).get());
            assert_eq!(expected, board.field_mut(x, y).get());
            assert_eq!(expected, board.get(x, y));
            assert_eq!(expected.is_none(), board.field(x, y).is_empty());
            assert_eq!(expected.is_none(), board.field_mut(x, y).is_empty());
        }
    }
}

#[test]
fn from_str() {
    let board = Board::from_str(
        "
            124 367 598
            598 241 36_
            376 895 412

            832 654 179
            _51 9_3 846
            649 718 253

            483 179 625
            217 536 98_
            ___ 482 731
        ",
    );

    let expected: [[Option<u8>; 9]; 9] = [
        [Some(1), Some(2), Some(4), Some(3), Some(6), Some(7), Some(5), Some(9), Some(8)],
        [Some(5), Some(9), Some(8), Some(2), Some(4), Some(1), Some(3), Some(6), None],
        [Some(3), Some(7), Some(6), Some(8), Some(9), Some(5), Some(4), Some(1), Some(2)],
        [Some(8), Some(3), Some(2), Some(6), Some(5), Some(4), Some(1), Some(7), Some(9)],
        [None, Some(5), Some(1), Some(9), None, Some(3), Some(8), Some(4), Some(6)],
        [Some(6), Some(4), Some(9), Some(7), Some(1), Some(8), Some(2), Some(5), Some(3)],
        [Some(4), Some(8), Some(3), Some(1), Some(7), Some(9), Some(6), Some(2), Some(5)],
        [Some(2), Some(1), Some(7), Some(5), Some(3), Some(6), Some(9), Some(8), None],
        [None, None, None, Some(4), Some(8), Some(2), Some(7), Some(3), Some(1)],
    ];
    for y in 0..HEIGHT {
        for x in 0..WIDTH {
            assert_eq!(expected[y][x], board.field(x, y).get(), "cell {x}/{y}");
        }
    }
}

const SOLVED: &str = "
    274 685 319
    183 749 265
    965 123 874
    618 534 792
    492 817 653
    357 962 481
    839 256 147
    541 378 926
    726 491 538
";

#[test]
fn set_and_get_round_trip() {
    let mut board = Board::new_empty();
    board.set(3, 7, Some(9));
    assert_eq!(Some(9), board.get(3, 7));
    assert_eq!(Some(9), board.field(3, 7).get());
    assert_eq!(80, board.num_empty());
    board.set(3, 7, None);
    assert_eq!(None, board.get(3, 7));
    assert_eq!(81, board.num_empty());
}

#[test]
fn solved_board_is_filled_without_conflicts() {
    let board = Board::from_str(SOLVED);
    assert!(board.is_filled());
    assert!(!board.has_conflicts());
    assert_eq!(0, board.num_empty());
    assert_eq!(None, board.first_empty_field_index());
}

#[test]
fn first_empty_field_is_column_major() {
    let mut board = Board::from_str(SOLVED);
    board.set(5, 0, None);
    board.set(1, 8, None);
    // (1, 8) comes first: columns are scanned before rows.
    assert_eq!(Some((1, 8)), board.first_empty_field_index());
    assert!(!board.is_filled());
    assert_eq!(2, board.num_empty());
}

#[test]
fn conflicts_in_row_column_and_region() {
    let mut row = Board::new_empty();
    row.set(0, 4, Some(7));
    row.set(8, 4, Some(7));
    assert!(row.has_conflicts());

    let mut col = Board::new_empty();
    col.set(2, 0, Some(3));
    col.set(2, 8, Some(3));
    assert!(col.has_conflicts());

    let mut region = Board::new_empty();
    region.set(3, 3, Some(5));
    region.set(5, 5, Some(5));
    assert!(region.has_conflicts());

    let mut apart = Board::new_empty();
    apart.set(0, 0, Some(5));
    apart.set(4, 4, Some(5));
    apart.set(8, 8, Some(5));
    assert!(!apart.has_conflicts());
    assert!(!Board::new_empty().has_conflicts());
}

#[test]
fn subset_relation() {
    let solved = Board::from_str(SOLVED);
    let mut puzzle = solved;
    puzzle.set(0, 0, None);
    puzzle.set(4, 6, None);
    assert!(puzzle.is_subset_of(&solved));
    assert!(!solved.is_subset_of(&puzzle));
    assert!(Board::new_empty().is_subset_of(&puzzle));
    let mut other = solved;
    other.set(0, 0, Some(1));
    assert!(!solved.is_subset_of(&other));
}

#[test]
fn units_of_a_board() {
    let board = Board::from_str(SOLVED);
    let row: Vec<Option<u8>> = board.row_iter(1).iter().map(|f| f.get()).collect();
    assert_eq!(
        vec![Some(1), Some(8), Some(3), Some(7), Some(4), Some(9), Some(2), Some(6), Some(5)],
        row
    );
    let col: Vec<Option<u8>> = board.col_iter(0).iter().map(|f| f.get()).collect();
    assert_eq!(
        vec![Some(2), Some(1), Some(9), Some(6), Some(4), Some(3), Some(8), Some(5), Some(7)],
        col
    );
    let region: Vec<Option<u8>> = board.region_iter(2, 0).iter().map(|f| f.get()).collect();
    assert_eq!(
        vec![Some(3), Some(2), Some(8), Some(1), Some(6), Some(7), Some(9), Some(5), Some(4)],
        region
    );
}

#[test]
fn from_str_skips_any_whitespace() {
    let plain = Board::from_str(SOLVED);
    let spaced = SOLVED.replace(' ', "\u{a0}").replace('\n', "\u{c}\u{2028}");
    assert_eq!(plain, Board::from_str(&spaced));
    assert_eq!(Some(2), plain.get(0, 0));
    assert_eq!(Some(8), plain.get(8, 8));
}

#[test]
fn iterated_cells_know_their_position() {
    let board = Board::from_str(SOLVED);
    for (i, f) in board.row_iter(4).iter().enumerate() {
        assert_eq!((i, 4), (f.x, f.y));
    }
    for (i, f) in board.col_iter(6).iter().enumerate() {
        assert_eq!((6, i), (f.x, f.y));
    }
    for (i, f) in board.region_iter(1, 2).iter().enumerate() {
        assert_eq!((3 + i / 3, 6 + i % 3), (f.x, f.y));
    }
}
