use sudoku::generator::{
    remove_field_if_unambigious, remove_fields_in_order, shuffled_fields, BestBoard,
};
use sudoku::{generate, generate_solved, solve, Board};

#[test]
fn generate_10() {
    for _ in 0..10 {
        let board = generate();
        assert!(solve(board).is_ok());
        assert!(board.num_empty() > 0);
    }
}

#[test]
fn generate_100_proper_puzzles() {
    for _ in 0..100 {
        let board = generate();
        let solution = solve(board).expect("a generated puzzle has a single solution");
        assert!(board.is_subset_of(&solution));
        assert!(solution.is_filled());
        assert!(!solution.has_conflicts());
        assert!(board.num_empty() >= 1);
    }
}

#[test]
fn shuffled_fields_hold_every_cell_once() {
    let mut fields = shuffled_fields();
    assert_eq!(81, fields.len());
    fields.sort();
    let expected: Vec<(u8, u8)> = (0u8..9).flat_map(|x| (0u8..9).map(move |y| (x, y))).collect();
    assert_eq!(expected, fields);
}

#[test]
fn removing_from_a_solved_board() {
    let solved = generate_solved();
    let mut board = solved;
    assert!(remove_field_if_unambigious(&mut board, 3, 3));
    assert_eq!(None, board.get(3, 3));
    assert_eq!(1, board.num_empty());
    // An empty cell stays as it is.
    assert!(!remove_field_if_unambigious(&mut board, 3, 3));
    assert_eq!(1, board.num_empty());
    assert_eq!(Ok(solved), solve(board));
}

#[test]
fn removal_that_would_make_the_puzzle_ambiguous_is_undone() {
    // Removing any further cell of a minimal puzzle leaves it ambiguous.
    let puzzle = generate();
    for x in 0..9 {
        for y in 0..9 {
            let mut board = puzzle;
            if puzzle.get(x, y).is_some() {
                assert!(!remove_field_if_unambigious(&mut board, x, y));
                assert_eq!(puzzle, board);
            }
        }
    }
}

#[test]
fn best_board_keeps_the_sparsest() {
    let solved = generate_solved();
    let mut best = BestBoard::new(solved);
    assert_eq!(0, best.num_empty());
    let mut sparser = solved;
    assert!(remove_field_if_unambigious(&mut sparser, 0, 0));
    assert!(best.offer(sparser));
    assert_eq!(1, best.num_empty());
    assert_eq!(sparser, best.board());
    assert!(!best.offer(solved));
    assert_eq!(sparser, best.board());
    let _ = Board::new_empty();
}

#[test]
fn shuffled_fields_are_shuffled() {
    let in_order: Vec<(u8, u8)> = (0u8..9).flat_map(|x| (0u8..9).map(move |y| (x, y))).collect();
    // One of 81! orders is the sorted one: three draws in a row will not all hit it.
    let draws = [shuffled_fields(), shuffled_fields(), shuffled_fields()];
    assert!(draws.iter().any(|d| *d != in_order));
}

#[test]
fn generated_solutions_vary() {
    let first = generate_solved();
    let differs = (0..5).any(|_| generate_solved() != first);
    assert!(differs);
}

#[test]
fn removal_in_order_leaves_only_needed_clues() {
    let solved = generate_solved();
    let order: Vec<(u8, u8)> = (0u8..9).flat_map(|x| (0u8..9).map(move |y| (x, y))).collect();
    let puzzle = remove_fields_in_order(solved, &order);
    assert_eq!(Ok(solved), solve(puzzle));
    assert!(puzzle.is_subset_of(&solved));
    // The first cell in the order can always go: its row fixes it.
    assert_eq!(None, puzzle.get(0, 0));
    for x in 0..9 {
        for y in 0..9 {
            if puzzle.get(x, y).is_some() {
                let mut fewer = puzzle;
                fewer.set(x, y, None);
                assert!(solve(fewer).is_err());
            }
        }
    }
    // Removing in no order keeps the board as it is.
    assert_eq!(solved, remove_fields_in_order(solved, &Vec::new()));
}

#[test]
fn removal_from_an_ambiguous_board_is_refused() {
    let mut board = Board::new_empty();
    board.set(0, 0, Some(5));
    let before = board;
    assert!(!remove_field_if_unambigious(&mut board, 0, 0));
    assert_eq!(before, board);
    let mut best = BestBoard::new(board);
    assert_eq!(80, best.num_empty());
    assert!(best.offer(Board::new_empty()));
    assert_eq!(81, best.num_empty());
}
