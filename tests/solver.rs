use sudoku::board::{HEIGHT, WIDTH};
use sudoku::solver::board_being_solved::BoardBeingSolved;
use sudoku::solver::possible_values::PossibleValues;
use sudoku::solver::search::Solver;
use sudoku::solver::strategies::{solve_simple_strategies, SimpleSolverResult};
use sudoku::{generate_solved, solve, Board, SolverError};

const PUZZLE: &str = "
    __4 68_ _19
    __3 __9 2_5
    _6_ ___ __4

    6__ ___ 7_2
    ___ __7 ___
    ___ 9__ __1

    8__ _5_ __7
    _41 3_8 ___
    _2_ _91 ___
";

const SOLUTION: &str = "
    274 685 319
    183 749 265
    965 123 874

    618 534 792
    492 817 653
    357 962 481

    839 256 147
    541 378 926
    726 491 538
";

const AMBIGUOUS: &str = "
    __4 6__ _19
    __3 __9 2_5
    _6_ ___ __4

    6__ ___ 7_2
    ___ __7 ___
    ___ 9__ __1

    8__ _5_ __7
    _41 3_8 ___
    _2_ _91 ___
";

#[test]
fn solvable_difficult() {
    let board = Board::from_str(PUZZLE);
    let expected_solution = Board::from_str(SOLUTION);
    let actual_solution = solve(board).unwrap();
    assert!(actual_solution.is_filled());
    assert!(!actual_solution.has_conflicts());
    assert_eq!(expected_solution, actual_solution);
}

#[test]
fn not_solvable_difficult() {
    let board = Board::from_str(
        "
            __4 68_ _19
            __3 __9 2_5
            _6_ ___ __4

            6__ ___ 7_2
            ___ _27 ___
            ___ 9__ __1

            8__ _5_ __7
            _41 3_8 ___
            _2_ _91 ___
        ",
    );
    let actual_solution = solve(board);
    assert_eq!(Err(SolverError::NotSolvable), actual_solution);
}

#[test]
fn ambigious() {
    let board = Board::from_str(AMBIGUOUS);
    let actual_solution = solve(board);
    assert_eq!(Err(SolverError::Ambigious), actual_solution);
}

#[test]
fn mod_empty() {
    let board = Board::new_empty();
    let actual_solution = solve(board);
    assert_eq!(Err(SolverError::Ambigious), actual_solution);
}

#[test]
fn solve_ambigious() {
    let board = Board::from_str(AMBIGUOUS);
    let mut solver = Solver::new(board);
    let mut solutions = vec![];
    while let Some(solution) = solver.next_solution() {
        assert!(solution.is_filled());
        assert!(!solution.has_conflicts());
        assert!(board.is_subset_of(&solution));

        for other_solution in &solutions {
            assert_ne!(*other_solution, solution);
        }

        solutions.push(solution);
    }
    assert_eq!(10, solutions.len());
}

#[test]
fn solution_extends_the_puzzle() {
    let board = Board::from_str(PUZZLE);
    let solution = solve(board).unwrap();
    assert!(board.is_subset_of(&solution));
    assert_eq!(0, solution.num_empty());
}

#[test]
fn solved_board_is_its_own_solution() {
    let board = Board::from_str(SOLUTION);
    assert_eq!(Ok(board), solve(board));
    let mut solver = Solver::new(board);
    assert_eq!(Some(board), solver.next_solution());
    assert_eq!(None, solver.next_solution());
}

#[test]
fn conflicting_board_is_not_solvable() {
    let mut board = Board::new_empty();
    board.set(0, 0, Some(4));
    board.set(0, 5, Some(4));
    assert_eq!(Err(SolverError::NotSolvable), solve(board));
    assert!(BoardBeingSolved::new(board).is_none());
    let mut solver = Solver::new(board);
    assert_eq!(None, solver.next_solution());
}

#[test]
fn one_missing_cell_is_filled() {
    let solved = Board::from_str(SOLUTION);
    let mut board = solved;
    board.set(4, 4, None);
    assert_eq!(Ok(solved), solve(board));
}

#[test]
fn generated_solution_is_complete() {
    for _ in 0..5 {
        let board = generate_solved();
        assert!(board.is_filled());
        assert!(!board.has_conflicts());
        assert_eq!(Ok(board), solve(board));
    }
}

#[test]
fn possible_values_follow_the_board() {
    let board = Board::from_str(PUZZLE);
    let possible = PossibleValues::from_board(&board);
    // Cell (0, 0): row 0 holds 4 6 8 1 9, column 0 holds 6 8, the region holds 4 3 6.
    assert_eq!(vec![2, 5, 7], possible.possible_values_for_field(0, 0));
    assert_eq!(Some(2), possible.first_possible_value_for_field(0, 0));
    assert!(possible.is_possible(0, 0, 7));
    assert!(!possible.is_possible(0, 0, 6));

    let mut all = PossibleValues::new_all_is_possible();
    assert_eq!(vec![1, 2, 3, 4, 5, 6, 7, 8, 9], all.possible_values_for_field(8, 8));
    all.remove_conflicting(4, 4, 5);
    assert!(!all.is_possible(4, 0, 5));
    assert!(!all.is_possible(0, 4, 5));
    assert!(!all.is_possible(3, 5, 5));
    assert!(all.is_possible(0, 0, 5));
    assert!(all.is_possible(4, 0, 6));
    all.remove(8, 8, 1);
    assert_eq!(vec![2, 3, 4, 5, 6, 7, 8, 9], all.possible_values_for_field(8, 8));
    assert_eq!(Some(2), all.first_possible_value_for_field(8, 8));
}

#[test]
fn no_candidate_left() {
    let mut possible = PossibleValues::new_all_is_possible();
    for value in 1..=9 {
        possible.remove(2, 3, value);
    }
    assert!(possible.possible_values_for_field(2, 3).is_empty());
    assert_eq!(None, possible.first_possible_value_for_field(2, 3));
}

#[test]
fn solving_state_places_values() {
    let board = Board::from_str(PUZZLE);
    let state = BoardBeingSolved::new(board).unwrap();
    assert!(board.is_subset_of(state.board()));
    assert!(!state.board().has_conflicts());
    for x in 0..WIDTH {
        for y in 0..HEIGHT {
            assert_eq!(state.get_field(x, y).is_none(), state.field_is_empty(x, y));
        }
    }
}

#[test]
fn strategies_on_a_stable_state_find_nothing() {
    let mut state = BoardBeingSolved::new(Board::new_empty()).unwrap();
    let before = *state.board();
    assert_eq!(SimpleSolverResult::FoundNothing, solve_simple_strategies(&mut state));
    assert_eq!(before, *state.board());
    assert_eq!(81, state.board().num_empty());
}

#[test]
fn placing_a_value_propagates() {
    // Eight digits of the top row given: the ninth is a forced single.
    let mut board = Board::new_empty();
    for x in 0..8 {
        board.set(x, 0, Some(x as u8 + 1));
    }
    let state = BoardBeingSolved::new(board).unwrap();
    assert_eq!(Some(9), state.get_field(8, 0));

    let mut state = BoardBeingSolved::new(Board::new_empty()).unwrap();
    let result = state.set_empty_field_to_value_and_apply_simple_strategies(0, 0, 1);
    assert_eq!(SimpleSolverResult::FoundNothing, result);
    assert_eq!(Some(1), state.get_field(0, 0));
    assert!(!state.possible_values().is_possible(5, 0, 1));
    state.remove_possible_value(1, 1, 2);
    assert!(!state.possible_values().is_possible(1, 1, 2));
}

#[test]
fn full_propagation_ends_stable() {
    // Eight digits of the top row and eight of the left column: both missing digits are forced.
    let mut board = Board::new_empty();
    for x in 0..8 {
        board.set(x, 0, Some(x as u8 + 1));
    }
    for y in 1..8 {
        board.set(8, y, Some(y as u8 + 1));
    }
    let state = BoardBeingSolved::new(board).unwrap();
    assert_eq!(Some(9), state.get_field(8, 0));
    let mut again = state;
    assert_eq!(SimpleSolverResult::FoundNothing, solve_simple_strategies(&mut again));
    assert_eq!(*state.board(), *again.board());
}

fn column_major(board: &Board) -> Vec<Option<u8>> {
    let mut cells = Vec::new();
    for x in 0..WIDTH {
        for y in 0..HEIGHT {
            cells.push(board.get(x, y));
        }
    }
    cells
}

#[test]
fn solutions_come_in_ascending_order() {
    let mut solver = Solver::new(Board::from_str(AMBIGUOUS));
    let mut previous: Option<Vec<Option<u8>>> = None;
    while let Some(solution) = solver.next_solution() {
        let cells = column_major(&solution);
        if let Some(previous) = &previous {
            assert!(*previous < cells);
        }
        previous = Some(cells);
    }
    assert!(previous.is_some());
    assert_eq!(None, solver.next_solution());
}
