use vstd::prelude::*;

use vstd::arithmetic::power::{lemma_pow_increases, lemma_pow_positive, pow};

use rand::rngs::ThreadRng;
use rand::seq::IndexedRandom;

use crate::board::{
    cell_of, conflicts_with, has_conflict_at, in_grid, is_full, is_solution, peers, Board,
};
use crate::solver::board_being_solved::BoardBeingSolved;
use crate::solver::possible_values::PossibleValues;
use crate::solver::strategies::SimpleSolverResult;

verus! {

#[verifier::external_type_specification]
#[verifier::external_body]
pub struct ExThreadRng(ThreadRng);

/// Relies on `rand::rng`: a handle to the thread-local generator.
pub assume_specification[ rand::rng ]() -> ThreadRng;

/// Relies on `IndexedRandom::choose`: `None` for an empty slice, otherwise one of its elements.
#[verifier::external_body]
fn choose_value(values: &Vec<u8>, rng: &mut ThreadRng) -> (r: Option<u8>)
    ensures
        r is None <==> values@.len() == 0,
        r matches Some(v) ==> values@.contains(v),
{
    values.as_slice().choose(rng).copied()
}

/// Picks the digit to try in an empty cell.
pub trait Guesser {
    /// The guesser always picks the smallest possible digit.
    spec fn smallest_first(&self) -> bool;

    /// A digit still possible in `(x, y)`, or `None` when there is none.
    fn guess_value(&mut self, possible_values: &PossibleValues, x: usize, y: usize) -> (r: Option<
        u8,
    >)
        requires
            possible_values.wf(),
            x < 9,
            y < 9,
        ensures
            r is None ==> forall|v: int|
                1 <= v <= 9 ==> !possible_values.possible(x as int, y as int, v),
            r matches Some(v) ==> 1 <= v <= 9 && possible_values.possible(
                x as int,
                y as int,
                v as int,
            ),
            final(self).smallest_first() == old(self).smallest_first(),
            old(self).smallest_first() ==> (r matches Some(v) ==> forall|w: int|
                1 <= w < v ==> !possible_values.possible(x as int, y as int, w)),
    ;
}

/// Always tries the smallest possible digit: fast, and the same every time.
pub struct GuessFirstPossibleValue;

impl Guesser for GuessFirstPossibleValue {
    open spec fn smallest_first(&self) -> bool {
        true
    }

    fn guess_value(&mut self, possible_values: &PossibleValues, x: usize, y: usize) -> (r: Option<
        u8,
    >) {
        possible_values.first_possible_value_for_field(x, y)
    }
}

/// Tries a possible digit drawn at random, to produce varied solutions.
pub struct GuessRandomPossibleValue {
    rng: ThreadRng,
}

impl Guesser for GuessRandomPossibleValue {
    open spec fn smallest_first(&self) -> bool {
        false
    }

    fn guess_value(&mut self, possible_values: &PossibleValues, x: usize, y: usize) -> (r: Option<
        u8,
    >) {
        let values = possible_values.possible_values_for_field(x, y);
        let r = choose_value(&values, &mut self.rng);
        proof {
            if r is None {
                assert forall|v: int| 1 <= v <= 9 implies !possible_values.possible(
                    x as int,
                    y as int,
                    v,
                ) by {
                    if possible_values.possible(x as int, y as int, v) {
                        assert(values@.contains(v as u8));
                    }
                }
            }
        }
        r
    }
}

/// `a` comes before `b` when their cells are read column by column.
pub open spec fn lex_lt(a: Seq<u8>, b: Seq<u8>) -> bool {
    exists|k: int|
        0 <= k < 81 && #[trigger] a[k] < b[k] && forall|j: int| 0 <= j < k ==> #[trigger] a[j]
            == b[j]
}

/// The digits still possible in cell `i` (column-major), if it is empty.
pub open spec fn cell_candidates(st: BoardBeingSolved, i: int) -> int {
    if st.cells()[i] == 0 {
        st.candidates().count(i / 9, i % 9)
    } else {
        0
    }
}

/// The digits still possible in the empty cells among the first `n`.
pub open spec fn total_candidates(st: BoardBeingSolved, n: int) -> int
    decreases n,
{
    if n <= 0 {
        0
    } else {
        total_candidates(st, n - 1) + cell_candidates(st, n - 1)
    }
}

/// What a state on the search stack still stands for: each digit left to try counts, and each
/// empty cell weighs more than all that a state with one cell less can hold.
pub open spec fn weight(st: BoardBeingSolved) -> int {
    (total_candidates(st, 81) + 1) * pow(731, st.empties())
}

pub open spec fn stack_weight(stack: Seq<BoardBeingSolved>) -> int
    decreases stack.len(),
{
    if stack.len() == 0 {
        0
    } else {
        stack_weight(stack.drop_last()) + weight(stack.last())
    }
}

proof fn lemma_stack_weight_nonneg(stack: Seq<BoardBeingSolved>)
    ensures
        stack_weight(stack) >= 0,
    decreases stack.len(),
{
    if stack.len() > 0 {
        lemma_stack_weight_nonneg(stack.drop_last());
        lemma_weight_positive(stack.last());
    }
}

proof fn lemma_total_bounds(st: BoardBeingSolved, n: int)
    ensures
        0 <= total_candidates(st, n) <= 9 * (if n < 0 {
            0
        } else {
            n
        }),
    decreases n,
{
    if n > 0 {
        lemma_total_bounds(st, n - 1);
    }
}

/// Excluding one possible digit of one empty cell lowers the total by one.
proof fn lemma_total_remove(a: BoardBeingSolved, b: BoardBeingSolved, x: int, y: int, v: int, n: int)
    requires
        in_grid(x, y),
        1 <= v <= 9,
        a.cells() == b.cells(),
        a.cells().len() == 81,
        cell_of(a.cells(), x, y) == 0,
        a.candidates().possible(x, y, v),
        0 <= n <= 81,
        forall|p: int, q: int, w: int|
            in_grid(p, q) && 1 <= w <= 9 ==> #[trigger] b.candidates().possible(p, q, w) == (
            a.candidates().possible(p, q, w) && !(p == x && q == y && w == v)),
    ensures
        total_candidates(b, n) == total_candidates(a, n) - (if x * 9 + y < n {
            1int
        } else {
            0int
        }),
    decreases n,
{
    if n > 0 {
        lemma_total_remove(a, b, x, y, v, n - 1);
        let i = n - 1;
        assert(in_grid(i / 9, i % 9));
        if i == x * 9 + y {
            assert(i / 9 == x && i % 9 == y);
        } else {
            assert(!(i / 9 == x && i % 9 == y));
        }
    }
}

proof fn lemma_weight_positive(st: BoardBeingSolved)
    ensures
        weight(st) >= 1,
{
    lemma_total_bounds(st, 81);
    lemma_pow_positive(731, st.empties());
    assert(weight(st) >= 1) by (nonlinear_arith)
        requires
            total_candidates(st, 81) >= 0,
            pow(731, st.empties()) >= 1,
            weight(st) == (total_candidates(st, 81) + 1) * pow(731, st.empties()),
    ;
}

/// A state with fewer empty cells weighs less than one candidate of a state with more.
proof fn lemma_weight_below(child: BoardBeingSolved, e: nat)
    requires
        child.empties() < e,
    ensures
        weight(child) < pow(731, e),
{
    lemma_total_bounds(child, 81);
    let k = (e - 1) as nat;
    lemma_pow_increases(731, child.empties(), k);
    lemma_pow_positive(731, child.empties());
    assert(pow(731, e) == 731 * pow(731, k)) by {
        vstd::arithmetic::power::lemma_pow_adds(731, 1, k);
        vstd::arithmetic::power::lemma_pow1(731);
    }
    let t = total_candidates(child, 81);
    let pc = pow(731, child.empties());
    let pk = pow(731, k);
    assert((t + 1) * pc < 731 * pk) by (nonlinear_arith)
        requires
            0 <= t <= 729,
            1 <= pc <= pk,
    ;
}

/// The search: a stack of states, each standing for the solutions it admits, no solution
/// admitted by two of them.
struct SolverImpl<G: Guesser> {
    board_stack: Vec<BoardBeingSolved>,
    guesser: G,
}

impl<G: Guesser> SolverImpl<G> {
    spec fn wf(&self) -> bool {
        &&& forall|i: int| 0 <= i < self.board_stack@.len() ==> (#[trigger] self.board_stack@[i]).wf()
        &&& forall|i: int, j: int, s: Seq<u8>|
            0 <= i < j < self.board_stack@.len() && #[trigger] self.board_stack@[i].admits(s)
                ==> !#[trigger] self.board_stack@[j].admits(s)
        &&& self.guesser.smallest_first() ==> forall|i: int, j: int, s: Seq<u8>, t: Seq<u8>|
            0 <= i < j < self.board_stack@.len() && #[trigger] self.board_stack@[j].admits(s)
                && #[trigger] self.board_stack@[i].admits(t) ==> lex_lt(s, t)
    }

    /// `s` is a solution that the search has not handed out yet.
    spec fn remaining(&self, s: Seq<u8>) -> bool {
        exists|i: int| 0 <= i < self.board_stack@.len() && #[trigger] self.board_stack@[i].admits(s)
    }

    spec fn measure(&self) -> int {
        stack_weight(self.board_stack@)
    }

    fn new(board: Board, guesser: G) -> (r: Self)
        ensures
            r.wf(),
            forall|s: Seq<u8>| #[trigger] r.remaining(s) == is_solution(board@, s),
    {
        let board = BoardBeingSolved::new(board);
        let mut res = Self { board_stack: Vec::new(), guesser };
        if let Some(board) = board {
            res.push(board);
            proof {
                assert forall|s: Seq<u8>| #[trigger] res.remaining(s) == res.board_stack@[0].admits(
                    s,
                ) by {
                    if res.remaining(s) {
                        let i = choose|i: int|
                            0 <= i < res.board_stack@.len() && #[trigger] res.board_stack@[i].admits(
                                s,
                            );
                        assert(i == 0);
                    }
                }
            }
        }
        res
    }

    fn push(&mut self, board: BoardBeingSolved)
        ensures
            final(self).board_stack@ == old(self).board_stack@.push(board),
            final(self).guesser == old(self).guesser,
    {
        self.board_stack.push(board);
    }

    /// The next solution, each one handed out once; `None` once there are no more.
    fn next_solution(&mut self) -> (r: Option<Board>)
        requires
            old(self).wf(),
        ensures
            final(self).wf(),
            r is None ==> forall|s: Seq<u8>| !#[trigger] old(self).remaining(s),
            r is None ==> forall|s: Seq<u8>| !#[trigger] final(self).remaining(s),
            r matches Some(b) ==> old(self).remaining(b@),
            r matches Some(b) ==> forall|s: Seq<u8>| #[trigger]
                final(self).remaining(s) == (old(self).remaining(s) && s != b@),
            final(self).guesser.smallest_first() == old(self).guesser.smallest_first(),
            old(self).guesser.smallest_first() ==> (r matches Some(b) ==> forall|s: Seq<u8>|
                #[trigger] final(self).remaining(s) ==> lex_lt(b@, s)),
    {
        let ghost start = *self;
        loop
            invariant
                self.wf(),
                self.guesser.smallest_first() == start.guesser.smallest_first(),
                start == *old(self),
                forall|s: Seq<u8>| #[trigger] self.remaining(s) == start.remaining(s),
            decreases self.measure(),
        {
            let ghost cur = *self;
            proof {
                lemma_stack_weight_nonneg(self.board_stack@);
            }
            let len = self.board_stack.len();
            if len == 0 {
                proof {
                    assert forall|s: Seq<u8>| !#[trigger] start.remaining(s) by {
                        assert(!self.remaining(s));
                    }
                }
                return None;
            }
            let ghost stack = self.board_stack@;
            let ghost rest = stack.drop_last();
            let top = self.board_stack[len - 1];
            assert(stack == rest.push(top));
            assert(top.wf());
            assert(stack_weight(stack) == stack_weight(rest) + weight(top));
            proof {
                lemma_weight_positive(top);
            }
            match top.board().first_empty_field_index() {
                None => {
                    // The top state is solved: it admits its own board and nothing else.
                    let board = *top.board();
                    self.board_stack.pop();
                    proof {
                        assert(is_full(top.cells()));
                        assert(top.admits(board@));
                        assert(stack[len - 1].admits(board@));
                        assert(cur.remaining(board@));
                        assert forall|s: Seq<u8>| #[trigger] top.admits(s) implies s == board@ by {
                            assert(s =~= board@);
                        }
                        assert forall|s: Seq<u8>| #[trigger]
                            self.remaining(s) == (cur.remaining(s) && s != board@) by {
                            if cur.remaining(s) {
                                let i = choose|i: int|
                                    0 <= i < stack.len() && #[trigger] stack[i].admits(s);
                                if i < len - 1 {
                                    assert(self.board_stack@[i] == stack[i]);
                                }
                            }
                            if self.remaining(s) {
                                let i = choose|i: int|
                                    0 <= i < self.board_stack@.len()
                                        && #[trigger] self.board_stack@[i].admits(s);
                                assert(stack[i].admits(s));
                                if s == board@ {
                                    assert(stack[len - 1].admits(s));
                                }
                            }
                        }
                    }
                    return Some(board);
                },
                Some((x, y)) => {
                    match self.guesser.guess_value(top.possible_values(), x, y) {
                        None => {
                            // No digit is left for this cell: the top state has no more
                            // solutions.
                            self.board_stack.pop();
                            proof {
                                assert forall|s: Seq<u8>| !#[trigger] top.admits(s) by {
                                    if top.admits(s) {
                                        assert(1 <= s[x * 9 + y] <= 9);
                                    }
                                }
                                assert(self.board_stack@ == rest);
                                assert(self.measure() == stack_weight(rest));
                                assert(self.measure() < stack_weight(stack));
                                lemma_stack_weight_nonneg(self.board_stack@);
                                assert forall|s: Seq<u8>| #[trigger]
                                    self.remaining(s) == cur.remaining(s) by {
                                    if cur.remaining(s) {
                                        assert(stack.len() == len);
                                    }
                                    if self.remaining(s) {
                                        let i = choose|i: int|
                                            0 <= i < self.board_stack@.len()
                                                && #[trigger] self.board_stack@[i].admits(s);
                                        assert(stack[i].admits(s));
                                    }
                                }
                            }
                        },
                        Some(value) => {
                            // Never try `value` here again once this branch is done, then
                            // explore it on a copy.
                            let mut board = top;
                            let mut updated = top;
                            updated.remove_possible_value(x, y, value);
                            self.board_stack.pop();
                            self.push(updated);
                            let ghost after_top = self.board_stack@;
                            proof {
                                assert(rest.push(updated) == after_top);
                                assert(after_top.drop_last() == rest);
                                assert(after_top.last() == updated);
                                assert(stack_weight(after_top) == stack_weight(rest) + weight(
                                    updated,
                                ));
                                assert(stack.drop_last() == rest);
                                lemma_total_remove(top, updated, x as int, y as int, value as int, 81);
                                assert(weight(updated) == weight(top) - pow(731, top.empties()))
                                    by (nonlinear_arith)
                                    requires
                                        weight(updated) == (total_candidates(updated, 81) + 1)
                                            * pow(731, updated.empties()),
                                        weight(top) == (total_candidates(top, 81) + 1) * pow(
                                            731,
                                            top.empties(),
                                        ),
                                        total_candidates(updated, 81) == total_candidates(top, 81)
                                            - 1,
                                        updated.empties() == top.empties(),
                                ;
                            }
                            let r = board.set_empty_field_to_value_and_apply_simple_strategies(
                                x,
                                y,
                                value,
                            );
                            match r {
                                SimpleSolverResult::NotSolvable => {},
                                SimpleSolverResult::FoundNothing
                                | SimpleSolverResult::FoundSomething => {
                                    self.push(board);
                                },
                            }
                            proof {
                                lemma_pow_positive(731, top.empties());
                                if r is NotSolvable {
                                    assert(self.board_stack@ == after_top);
                                    assert(self.measure() < stack_weight(stack));
                                lemma_stack_weight_nonneg(self.board_stack@);
                                } else {
                                    assert(self.board_stack@ == after_top.push(board));
                                    assert(self.board_stack@.drop_last() == after_top);
                                    assert(self.board_stack@.last() == board);
                                    assert(self.measure() == stack_weight(after_top) + weight(
                                        board,
                                    ));
                                    lemma_weight_below(board, top.empties());
                                    assert(self.measure() < stack_weight(stack));
                                lemma_stack_weight_nonneg(self.board_stack@);
                                }
                                assert forall|s: Seq<u8>| #[trigger]
                                    self.remaining(s) == cur.remaining(s) by {
                                    if cur.remaining(s) {
                                        let i = choose|i: int|
                                            0 <= i < stack.len() && #[trigger] stack[i].admits(s);
                                        if i < len - 1 {
                                            assert(self.board_stack@[i] == stack[i]);
                                        } else if cell_of(s, x as int, y as int) != value {
                                            assert(self.board_stack@[len - 1].admits(s));
                                        } else {
                                            assert(self.board_stack@[len as int].admits(s));
                                        }
                                    }
                                    if self.remaining(s) {
                                        let i = choose|i: int|
                                            0 <= i < self.board_stack@.len()
                                                && #[trigger] self.board_stack@[i].admits(s);
                                        if i < len - 1 {
                                            assert(stack[i].admits(s));
                                        } else {
                                            assert(stack[len - 1].admits(s));
                                        }
                                    }
                                }
                                assert forall|i: int, j: int, s: Seq<u8>|
                                    0 <= i < j < self.board_stack@.len()
                                        && #[trigger] self.board_stack@[i].admits(s) implies !#[trigger] self.board_stack@[j].admits(
                                    s,
                                ) by {
                                    if j < len - 1 {
                                        assert(stack[i].admits(s));
                                    } else if i < len - 1 {
                                        assert(stack[i].admits(s));
                                        if self.board_stack@[j].admits(s) {
                                            assert(stack[len - 1].admits(s));
                                        }
                                    }
                                }
                                if self.guesser.smallest_first() {
                                    assert forall|i: int, j: int, s: Seq<u8>, t: Seq<u8>|
                                        0 <= i < j < self.board_stack@.len()
                                            && #[trigger] self.board_stack@[j].admits(s)
                                            && #[trigger] self.board_stack@[i].admits(t) implies lex_lt(
                                        s,
                                        t,
                                    ) by {
                                        if j < len - 1 {
                                            assert(stack[j].admits(s) && stack[i].admits(t));
                                        } else if i < len - 1 {
                                            assert(stack[len - 1].admits(s));
                                            assert(stack[i].admits(t));
                                        } else {
                                            let k = x * 9 + y;
                                            assert(top.admits(s) && cell_of(s, x as int, y as int)
                                                == value);
                                            assert(top.admits(t) && cell_of(t, x as int, y as int)
                                                != value);
                                            assert(top.candidates().possible(
                                                x as int,
                                                y as int,
                                                t[k] as int,
                                            ));
                                            assert(1 <= t[k] <= 9);
                                            assert forall|jj: int| 0 <= jj < k implies #[trigger] s[jj]
                                                == t[jj] by {
                                                assert(top.cells()[jj] != 0);
                                            }
                                            assert(s[k] < t[k]);
                                        }
                                    }
                                }
                            }
                        },
                    }
                },
            }
        }
    }
}

/// The solutions of a board, one after the other, trying the smallest possible digit first:
/// they come out in ascending order, read column by column.
pub struct Solver {
    solver_impl: SolverImpl<GuessFirstPossibleValue>,
}

impl Solver {
    pub closed spec fn wf(&self) -> bool {
        self.solver_impl.wf()
    }

    /// `s` is a solution not handed out yet.
    pub closed spec fn remaining(&self, s: Seq<u8>) -> bool {
        self.solver_impl.remaining(s)
    }

    pub fn new(board: Board) -> (r: Self)
        ensures
            r.wf(),
            forall|s: Seq<u8>| #[trigger] r.remaining(s) == is_solution(board@, s),
    {
        Self { solver_impl: SolverImpl::new(board, GuessFirstPossibleValue) }
    }

    /// The next solution not handed out yet; `None` when there is none left.
    pub fn next_solution(&mut self) -> (r: Option<Board>)
        requires
            old(self).wf(),
        ensures
            final(self).wf(),
            r is None ==> forall|s: Seq<u8>| !#[trigger] old(self).remaining(s),
            r is None ==> forall|s: Seq<u8>| !#[trigger] final(self).remaining(s),
            r matches Some(b) ==> old(self).remaining(b@),
            r matches Some(b) ==> forall|s: Seq<u8>| #[trigger]
                final(self).remaining(s) == (old(self).remaining(s) && s != b@),
            r matches Some(b) ==> forall|s: Seq<u8>|
                #[trigger] final(self).remaining(s) ==> lex_lt(b@, s),
    {
        self.solver_impl.next_solution()
    }
}

/// Builds a random solved board by solving the empty board with random guesses.
pub struct Generator {
    solver_impl: SolverImpl<GuessRandomPossibleValue>,
}

impl Generator {
    pub closed spec fn wf(&self) -> bool {
        self.solver_impl.wf()
    }

    pub closed spec fn remaining(&self, s: Seq<u8>) -> bool {
        self.solver_impl.remaining(s)
    }

    pub fn new() -> (r: Self)
        ensures
            r.wf(),
            forall|s: Seq<u8>| #[trigger] r.remaining(s) == is_solution(empty_grid(), s),
    {
        let board = Board::new_empty();
        proof {
            assert(board@ =~= empty_grid());
        }
        Self {
            solver_impl: SolverImpl::new(board, GuessRandomPossibleValue { rng: rand::rng() }),
        }
    }

    /// A solved board: one solution of the empty board. Taken by value, as a second one would
    /// come from the same branch of the search and look much like the first.
    pub fn generate(self) -> (r: Board)
        requires
            self.wf(),
            forall|s: Seq<u8>| #[trigger] self.remaining(s) == is_solution(empty_grid(), s),
        ensures
            is_solution(empty_grid(), r@),
    {
        proof {
            lemma_pattern_grid_is_solution();
            assert(self.remaining(pattern_grid()));
        }
        let mut solver_impl = self.solver_impl;
        match solver_impl.next_solution() {
            Some(board) => board,
            None => {
                proof {
                    assert(false);
                }
                Board::new_empty()
            },
        }
    }
}

/// The board without any digit.
pub open spec fn empty_grid() -> Seq<u8> {
    Seq::new(81, |i: int| 0u8)
}

/// A solved grid: cell `(x, y)` holds `(3 * y + y / 3 + x) % 9 + 1`.
pub open spec fn pattern_grid() -> Seq<u8> {
    Seq::new(81, |i: int| ((3 * (i % 9) + (i % 9) / 3 + i / 9) % 9 + 1) as u8)
}

/// The empty board has a solution.
pub proof fn lemma_pattern_grid_is_solution()
    ensures
        is_solution(empty_grid(), pattern_grid()),
{
    let p = pattern_grid();
    assert forall|x1: int, y1: int| in_grid(x1, y1) implies !#[trigger] has_conflict_at(
        p,
        x1,
        y1,
    ) by {
        assert forall|x2: int, y2: int| !#[trigger] conflicts_with(p, x1, y1, x2, y2) by {
            if in_grid(x2, y2) && peers(x1, y1, x2, y2) {
                let i1 = x1 * 9 + y1;
                let i2 = x2 * 9 + y2;
                assert(i1 / 9 == x1 && i1 % 9 == y1);
                assert(i2 / 9 == x2 && i2 % 9 == y2);
                lemma_pattern_values_differ(x1, y1, x2, y2);
            }
        }
    }
}

proof fn lemma_pattern_values_differ(x1: int, y1: int, x2: int, y2: int)
    requires
        in_grid(x1, y1),
        in_grid(x2, y2),
        peers(x1, y1, x2, y2),
    ensures
        (3 * y1 + y1 / 3 + x1) % 9 != (3 * y2 + y2 / 3 + x2) % 9,
{
}

} // verus!
