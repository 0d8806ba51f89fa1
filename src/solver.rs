use vstd::prelude::*;

pub mod board_being_solved;
pub mod possible_values;
pub mod search;
pub mod strategies;

use crate::board::{has_conflict, is_full, is_solution, is_subset, num_empty_of, Board};
use crate::solver::search::{empty_grid, Generator, Solver};

verus! {

/// Why a board has no single solution.
#[derive(Clone, Copy, Debug, PartialEq, Eq, Structural)]
pub enum SolverError {
    /// No way to fill the empty cells satisfies every row, column and region.
    NotSolvable,
    /// At least two different solutions exist.
    Ambigious,
}

/// `s` is the only solution of `puzzle`.
pub open spec fn is_unique_solution(puzzle: Seq<u8>, s: Seq<u8>) -> bool {
    is_solution(puzzle, s) && forall|t: Seq<u8>| #[trigger] is_solution(puzzle, t) ==> t == s
}

pub open spec fn has_unique_solution(puzzle: Seq<u8>) -> bool {
    exists|s: Seq<u8>| #[trigger] is_unique_solution(puzzle, s)
}

pub open spec fn has_no_solution(puzzle: Seq<u8>) -> bool {
    forall|s: Seq<u8>| !#[trigger] is_solution(puzzle, s)
}

pub open spec fn has_several_solutions(puzzle: Seq<u8>) -> bool {
    exists|s: Seq<u8>, t: Seq<u8>|
        #[trigger] is_solution(puzzle, s) && #[trigger] is_solution(puzzle, t) && s != t
}

/// What solving `puzzle` yields: its only solution; `NotSolvable` exactly when it has none;
/// `Ambigious` exactly when it has two or more.
pub open spec fn solve_outcome(puzzle: Seq<u8>, r: Result<Board, SolverError>) -> bool {
    &&& r matches Ok(s) ==> is_unique_solution(puzzle, s@)
    &&& r == Err::<Board, SolverError>(SolverError::NotSolvable) <==> has_no_solution(puzzle)
    &&& r == Err::<Board, SolverError>(SolverError::Ambigious) <==> has_several_solutions(puzzle)
    &&& r is Ok <==> has_unique_solution(puzzle)
}

/// Solves `board`: its only solution, or why there is none. A solution is completely filled,
/// has no conflict and keeps every filled cell of `board`.
pub fn solve(board: Board) -> (r: Result<Board, SolverError>)
    ensures
        solve_outcome(board@, r),
        r matches Ok(s) ==> is_full(s@) && !has_conflict(s@) && is_subset(board@, s@),
{
    let mut solver = Solver::new(board);
    let ghost fresh = solver;
    match solver.next_solution() {
        None => {
            proof {
                assert forall|t: Seq<u8>| !#[trigger] is_solution(board@, t) by {
                    assert(!fresh.remaining(t));
                }
            }
            Err(SolverError::NotSolvable)
        },
        Some(solution) => {
            let ghost after_first = solver;
            match solver.next_solution() {
                None => {
                    proof {
                        assert forall|t: Seq<u8>| #[trigger] is_solution(board@, t) implies t
                            == solution@ by {
                            assert(!after_first.remaining(t));
                        }
                        assert(is_unique_solution(board@, solution@));
                        assert(!has_no_solution(board@));
                    }
                    Ok(solution)
                },
                Some(second) => {
                    proof {
                        assert(is_solution(board@, solution@) && is_solution(board@, second@)
                            && solution@ != second@);
                        assert(!has_no_solution(board@));
                        if has_unique_solution(board@) {
                            let u = choose|u: Seq<u8>| #[trigger] is_unique_solution(board@, u);
                            assert(solution@ == u && second@ == u);
                        }
                    }
                    Err(SolverError::Ambigious)
                },
            }
        },
    }
}

/// A puzzle with a single solution and at least one empty cell, as [crate::generator::generate]
/// returns, is one that [solve] solves: with `Ok`, a solution that keeps every filled cell of the
/// puzzle, and the puzzle itself has an empty cell.
pub proof fn lemma_generated_puzzle_is_proper(puzzle: Seq<u8>, r: Result<Board, SolverError>)
    requires
        has_unique_solution(puzzle),
        num_empty_of(puzzle) >= 1,
        solve_outcome(puzzle, r),
    ensures
        r is Ok,
        r matches Ok(s) ==> is_subset(puzzle, s@) && is_full(s@) && !has_conflict(s@),
        num_empty_of(puzzle) >= 1,
{
}

/// A random solved board.
pub fn generate_solved() -> (r: Board)
    ensures
        is_solution(empty_grid(), r@),
{
    Generator::new().generate()
}

} // verus!
