use vstd::prelude::*;

use crate::board::{
    cell_of, col_unit, in_grid, is_grid, is_subset, is_unit, lemma_count_empty_positive,
    lemma_unit_holds_digit, region_unit, row_unit, sees, HEIGHT, MAX_VALUE, WIDTH,
};
use crate::solver::board_being_solved::{lemma_narrowed_trans, narrowed, propagated, BoardBeingSolved};

verus! {

/// What a propagation step found.
#[derive(Clone, Copy, Debug, PartialEq, Eq, Structural)]
pub enum SimpleSolverResult {
    /// At least one cell was filled.
    FoundSomething,
    /// Nothing was deduced and nothing changed.
    FoundNothing,
    /// The board has no solution.
    NotSolvable,
}

/// Cell `i` of unit `u` holds `v`.
pub open spec fn unit_holds(st: BoardBeingSolved, u: Seq<(u8, u8)>, i: int, v: int) -> bool {
    cell_of(st.cells(), u[i].0 as int, u[i].1 as int) == v
}

/// Cell `i` of unit `u` is empty and `v` is still possible there.
pub open spec fn unit_candidate(st: BoardBeingSolved, u: Seq<(u8, u8)>, i: int, v: int) -> bool {
    cell_of(st.cells(), u[i].0 as int, u[i].1 as int) == 0 && st.candidates().possible(
        u[i].0 as int,
        u[i].1 as int,
        v,
    )
}

/// Digit `v` is placed in unit `u`, or at least two cells of `u` can still take it.
pub open spec fn digit_open(st: BoardBeingSolved, u: Seq<(u8, u8)>, v: int) -> bool {
    (exists|i: int| 0 <= i < 9 && #[trigger] unit_holds(st, u, i, v)) || (exists|i: int, j: int|
        0 <= i < 9 && 0 <= j < 9 && i != j && #[trigger] unit_candidate(st, u, i, v)
            && #[trigger] unit_candidate(st, u, j, v))
}

/// No digit of unit `u` is a hidden single, nor without a place.
pub open spec fn unit_open(st: BoardBeingSolved, u: Seq<(u8, u8)>) -> bool {
    forall|v: int| 1 <= v <= 9 ==> #[trigger] digit_open(st, u, v)
}

/// Neither strategy applies: every empty cell has at least two possible digits, and in every
/// row, column and region each digit is placed or has at least two possible cells.
pub open spec fn is_stable(st: BoardBeingSolved) -> bool {
    &&& forall|x: int, y: int|
        in_grid(x, y) && #[trigger] cell_of(st.cells(), x, y) == 0 ==> exists|v: int, w: int|
            1 <= v <= 9 && 1 <= w <= 9 && v != w && #[trigger] st.candidates().possible(x, y, v)
                && #[trigger] st.candidates().possible(x, y, w)
    &&& forall|y: int| 0 <= y < 9 ==> #[trigger] unit_open(st, row_unit(y))
    &&& forall|x: int| 0 <= x < 9 ==> #[trigger] unit_open(st, col_unit(x))
    &&& forall|region_x: int, region_y: int|
        0 <= region_x < 3 && 0 <= region_y < 3 ==> #[trigger] unit_open(
            st,
            region_unit(region_x, region_y),
        )
}

/// No digit is possible any more in cell `(x, y)`.
pub open spec fn no_candidate(st: BoardBeingSolved, x: int, y: int) -> bool {
    forall|v: int| 1 <= v <= 9 ==> !#[trigger] st.candidates().possible(x, y, v)
}

/// `v` is the only digit still possible in cell `(x, y)`: a forced single.
pub open spec fn single_candidate(st: BoardBeingSolved, x: int, y: int, v: int) -> bool {
    &&& 1 <= v <= 9
    &&& st.candidates().possible(x, y, v)
    &&& forall|w: int| 1 <= w <= 9 && w != v ==> !#[trigger] st.candidates().possible(x, y, w)
}

/// At least two digits are still possible in cell `(x, y)`.
pub open spec fn two_candidates(st: BoardBeingSolved, x: int, y: int) -> bool {
    exists|v: int, w: int|
        1 <= v <= 9 && 1 <= w <= 9 && v != w && #[trigger] st.candidates().possible(x, y, v)
            && #[trigger] st.candidates().possible(x, y, w)
}

/// What checking cell `(x, y)` for a forced single owes, from `old` to `new` with result `r`:
/// an empty cell without possible digits gives "not solvable"; an empty cell with a single one
/// ends up holding it (unless the board proves unsolvable); "found nothing" only where the cell
/// is filled or has at least two possible digits.
pub open spec fn cell_checked(
    old: BoardBeingSolved,
    new: BoardBeingSolved,
    r: SimpleSolverResult,
    x: int,
    y: int,
) -> bool {
    &&& cell_of(old.cells(), x, y) == 0 && no_candidate(old, x, y) ==> r is NotSolvable
    &&& forall|v: int|
        cell_of(old.cells(), x, y) == 0 && #[trigger] single_candidate(old, x, y, v) ==> r is NotSolvable
            || cell_of(new.cells(), x, y) == v
    &&& r is FoundNothing ==> cell_of(old.cells(), x, y) != 0 || two_candidates(old, x, y)
}

/// Digit `v` is neither placed in unit `u` nor possible in any of its empty cells.
pub open spec fn no_place(st: BoardBeingSolved, u: Seq<(u8, u8)>, v: int) -> bool {
    forall|i: int|
        #![trigger unit_holds(st, u, i, v)]
        #![trigger unit_candidate(st, u, i, v)]
        0 <= i < 9 ==> !unit_holds(st, u, i, v) && !unit_candidate(st, u, i, v)
}

/// Digit `v` is not placed in unit `u` and cell `i` is the only one of `u` that can take it: a
/// hidden single.
pub open spec fn hidden_single(st: BoardBeingSolved, u: Seq<(u8, u8)>, v: int, i: int) -> bool {
    &&& 0 <= i < 9
    &&& unit_candidate(st, u, i, v)
    &&& forall|j: int|
        #![trigger unit_holds(st, u, j, v)]
        #![trigger unit_candidate(st, u, j, v)]
        0 <= j < 9 ==> !unit_holds(st, u, j, v) && (j != i ==> !unit_candidate(st, u, j, v))
}

/// What checking digit `v` in unit `u` owes: without a place it gives "not solvable"; a hidden
/// single ends up placed (unless the board proves unsolvable).
pub open spec fn digit_checked(
    old: BoardBeingSolved,
    new: BoardBeingSolved,
    r: SimpleSolverResult,
    u: Seq<(u8, u8)>,
    v: int,
) -> bool {
    &&& no_place(old, u, v) ==> r is NotSolvable
    &&& forall|i: int| #[trigger]
        hidden_single(old, u, v, i) ==> r is NotSolvable || unit_holds(new, u, i, v)
}

/// What checking unit `u` for hidden singles owes: every digit checked, and "found nothing" only
/// where every digit is placed or has at least two possible cells.
pub open spec fn unit_checked(
    old: BoardBeingSolved,
    new: BoardBeingSolved,
    r: SimpleSolverResult,
    u: Seq<(u8, u8)>,
) -> bool {
    &&& forall|v: int| 1 <= v <= 9 ==> #[trigger] digit_checked(old, new, r, u, v)
    &&& r is FoundNothing ==> unit_open(old, u)
}

/// Neither strategy applies around `(x, y)`: every empty cell that sees it has at least two
/// possible digits, and its row, column and region are open.
pub open spec fn scoped_stable(st: BoardBeingSolved, x: int, y: int) -> bool {
    &&& forall|a: int, b: int|
        in_grid(a, b) && sees(x, y, a, b) && #[trigger] cell_of(st.cells(), a, b) == 0
            ==> two_candidates(st, a, b)
    &&& unit_open(st, row_unit(y))
    &&& unit_open(st, col_unit(x))
    &&& unit_open(st, region_unit(x / 3, y / 3))
}

/// A cell check done on a later state still holds of the earlier one.
proof fn lemma_cell_lift(
    start: BoardBeingSolved,
    cur: BoardBeingSolved,
    next: BoardBeingSolved,
    r: SimpleSolverResult,
    x: int,
    y: int,
)
    requires
        in_grid(x, y),
        narrowed(start, cur),
        is_subset(start.cells(), cur.cells()),
        is_subset(cur.cells(), next.cells()),
        is_grid(cur.cells()),
        next.cells().len() == 81,
        cell_checked(cur, next, r, x, y),
    ensures
        cell_of(start.cells(), x, y) == 0 && no_candidate(start, x, y) ==> r is NotSolvable,
        forall|v: int|
            cell_of(start.cells(), x, y) == 0 && #[trigger] single_candidate(start, x, y, v)
                ==> r is NotSolvable || cell_of(next.cells(), x, y) == v,
{
    if cell_of(start.cells(), x, y) == 0 {
        let c = cell_of(cur.cells(), x, y);
        if c != 0 {
            assert(start.candidates().possible(x, y, c as int));
            assert(cur.cells()[x * 9 + y] <= 9);
            assert(next.cells()[x * 9 + y] == cur.cells()[x * 9 + y]);
        } else {
            if no_candidate(start, x, y) {
                assert(no_candidate(cur, x, y));
            }
            assert forall|v: int|
                #[trigger] single_candidate(start, x, y, v) implies r is NotSolvable || cell_of(
                next.cells(),
                x,
                y,
            ) == v by {
                if cur.candidates().possible(x, y, v) {
                    assert(single_candidate(cur, x, y, v));
                } else {
                    assert(no_candidate(cur, x, y));
                }
            }
        }
    }
}

/// A digit check done on a later state still holds of the earlier one.
proof fn lemma_digit_lift(
    start: BoardBeingSolved,
    cur: BoardBeingSolved,
    next: BoardBeingSolved,
    r: SimpleSolverResult,
    u: Seq<(u8, u8)>,
    v: int,
)
    requires
        is_unit(u),
        1 <= v <= 9,
        narrowed(start, cur),
        is_subset(start.cells(), cur.cells()),
        is_subset(cur.cells(), next.cells()),
        is_grid(cur.cells()),
        next.cells().len() == 81,
        digit_checked(cur, next, r, u, v),
    ensures
        digit_checked(start, next, r, u, v),
{
    if no_place(start, u, v) {
        assert forall|i: int| 0 <= i < 9 implies !#[trigger] unit_holds(cur, u, i, v)
            && !unit_candidate(cur, u, i, v) by {
            let (a, b) = (u[i].0 as int, u[i].1 as int);
            assert(!unit_holds(start, u, i, v) && !unit_candidate(start, u, i, v));
            if start.cells()[a * 9 + b] != 0 {
                assert(cur.cells()[a * 9 + b] == start.cells()[a * 9 + b]);
            } else if cur.cells()[a * 9 + b] != 0 {
                assert(cell_of(cur.cells(), a, b) != 0);
            }
        }
    }
    assert forall|i: int| #[trigger] hidden_single(start, u, v, i) implies r is NotSolvable
        || unit_holds(next, u, i, v) by {
        let (a, b) = (u[i].0 as int, u[i].1 as int);
        if exists|j: int| 0 <= j < 9 && #[trigger] unit_holds(cur, u, j, v) {
            let j = choose|j: int| 0 <= j < 9 && #[trigger] unit_holds(cur, u, j, v);
            let (c, d) = (u[j].0 as int, u[j].1 as int);
            assert(!unit_holds(start, u, j, v));
            if start.cells()[c * 9 + d] != 0 {
                assert(cur.cells()[c * 9 + d] == start.cells()[c * 9 + d]);
            } else {
                assert(cell_of(cur.cells(), c, d) != 0);
                assert(unit_candidate(start, u, j, v));
                assert(j == i);
                assert(next.cells()[a * 9 + b] == cur.cells()[a * 9 + b]);
            }
        } else {
            assert forall|j: int| 0 <= j < 9 && j != i implies !#[trigger] unit_candidate(
                cur,
                u,
                j,
                v,
            ) by {
                let (c, d) = (u[j].0 as int, u[j].1 as int);
                assert(u[j].0 < 9 && u[j].1 < 9);
                if unit_candidate(cur, u, j, v) {
                    if start.cells()[c * 9 + d] != 0 {
                        assert(cur.cells()[c * 9 + d] == start.cells()[c * 9 + d]);
                    }
                    assert(cell_of(cur.cells(), c, d) == 0);
                    assert(cur.candidates().possible(c, d, v));
                    assert(start.candidates().possible(c, d, v));
                    assert(unit_candidate(start, u, j, v));
                    assert(!unit_holds(start, u, j, v));
                }
            }
            if unit_candidate(cur, u, i, v) {
                assert(hidden_single(cur, u, v, i));
            } else {
                assert(no_place(cur, u, v));
            }
        }
    }
}

/// A unit check done on a later state still holds of the earlier one.
proof fn lemma_unit_lift(
    start: BoardBeingSolved,
    cur: BoardBeingSolved,
    next: BoardBeingSolved,
    r: SimpleSolverResult,
    u: Seq<(u8, u8)>,
)
    requires
        is_unit(u),
        narrowed(start, cur),
        is_subset(start.cells(), cur.cells()),
        is_subset(cur.cells(), next.cells()),
        is_grid(cur.cells()),
        next.cells().len() == 81,
        forall|v: int| 1 <= v <= 9 ==> #[trigger] digit_checked(cur, next, r, u, v),
    ensures
        forall|v: int| 1 <= v <= 9 ==> #[trigger] digit_checked(start, next, r, u, v),
{
    assert forall|v: int| 1 <= v <= 9 implies #[trigger] digit_checked(start, next, r, u, v) by {
        lemma_digit_lift(start, cur, next, r, u, v);
    }
}

/// Cell `(a, b)` is settled since `start`: it was not left without digits, and a forced single
/// of `start` sits in `cur`.
pub open spec fn settled_cell(start: BoardBeingSolved, cur: BoardBeingSolved, a: int, b: int) -> bool {
    cell_checked(start, cur, SimpleSolverResult::FoundSomething, a, b)
}

/// Cell `(a, b)` is filled or has at least two possible digits: no forced single there.
pub open spec fn quiet_cell(st: BoardBeingSolved, a: int, b: int) -> bool {
    cell_of(st.cells(), a, b) != 0 || two_candidates(st, a, b)
}

/// Unit `u` is settled since `start`: every digit has a place, and each hidden single of `start`
/// sits in `cur`.
pub open spec fn settled_unit(start: BoardBeingSolved, cur: BoardBeingSolved, u: Seq<(u8, u8)>) -> bool {
    forall|v: int|
        1 <= v <= 9 ==> #[trigger] digit_checked(start, cur, SimpleSolverResult::FoundSomething, u, v)
}

/// What later steps fill keeps settled cells and units settled.
proof fn lemma_settled_persists(
    start: BoardBeingSolved,
    cur: BoardBeingSolved,
    next: BoardBeingSolved,
)
    requires
        is_subset(cur.cells(), next.cells()),
        cur.cells().len() == 81,
        next.cells().len() == 81,
    ensures
        forall|a: int, b: int|
            in_grid(a, b) && #[trigger] settled_cell(start, cur, a, b) ==> settled_cell(
                start,
                next,
                a,
                b,
            ),
        forall|u: Seq<(u8, u8)>|
            is_unit(u) && #[trigger] settled_unit(start, cur, u) ==> settled_unit(start, next, u),
{
    assert forall|a: int, b: int|
        in_grid(a, b) && #[trigger] settled_cell(start, cur, a, b) implies settled_cell(
        start,
        next,
        a,
        b,
    ) by {
        assert forall|v: int|
            cell_of(start.cells(), a, b) == 0 && #[trigger] single_candidate(start, a, b, v)
                implies cell_of(next.cells(), a, b) == v by {
            assert(cur.cells()[a * 9 + b] != 0);
        }
    }
    assert forall|u: Seq<(u8, u8)>|
        is_unit(u) && #[trigger] settled_unit(start, cur, u) implies settled_unit(start, next, u) by {
        assert forall|v: int| 1 <= v <= 9 implies #[trigger] digit_checked(
            start,
            next,
            SimpleSolverResult::FoundSomething,
            u,
            v,
        ) by {
            assert(digit_checked(start, cur, SimpleSolverResult::FoundSomething, u, v));
            assert forall|i: int| #[trigger] hidden_single(start, u, v, i) implies unit_holds(
                next,
                u,
                i,
                v,
            ) by {
                let (a, b) = (u[i].0 as int, u[i].1 as int);
                assert(u[i].0 < 9 && u[i].1 < 9);
                assert(!unit_holds(start, u, i, v));
                assert(unit_candidate(start, u, i, v));
                assert(unit_holds(cur, u, i, v));
                assert(cur.cells()[a * 9 + b] != 0);
            }
        }
    }
}

/// One forced-single check within a pass.
proof fn lemma_cell_pass_step(
    start: BoardBeingSolved,
    cur: BoardBeingSolved,
    next: BoardBeingSolved,
    result: SimpleSolverResult,
    r: SimpleSolverResult,
    x: int,
    y: int,
)
    requires
        chained(start, cur, result),
        propagated(cur, next, r),
        !(r is NotSolvable),
        cell_checked(cur, next, r, x, y),
        in_grid(x, y),
    ensures
        chained(
            start,
            next,
            if r == SimpleSolverResult::FoundSomething {
                SimpleSolverResult::FoundSomething
            } else {
                result
            },
        ),
        settled_cell(start, next, x, y),
        forall|a: int, b: int|
            in_grid(a, b) && #[trigger] settled_cell(start, cur, a, b) ==> settled_cell(
                start,
                next,
                a,
                b,
            ),
        forall|u: Seq<(u8, u8)>|
            is_unit(u) && #[trigger] settled_unit(start, cur, u) ==> settled_unit(start, next, u),
        result is FoundNothing && r is FoundNothing ==> quiet_cell(start, x, y),
{
    lemma_chain_step(start, cur, next, result, r);
    lemma_cell_lift(start, cur, next, r, x, y);
    lemma_settled_persists(start, cur, next);
}

/// One hidden-single check of a unit within a pass.
proof fn lemma_unit_pass_step(
    start: BoardBeingSolved,
    cur: BoardBeingSolved,
    next: BoardBeingSolved,
    result: SimpleSolverResult,
    r: SimpleSolverResult,
    u: Seq<(u8, u8)>,
)
    requires
        chained(start, cur, result),
        propagated(cur, next, r),
        !(r is NotSolvable),
        unit_checked(cur, next, r, u),
        is_unit(u),
    ensures
        chained(
            start,
            next,
            if r == SimpleSolverResult::FoundSomething {
                SimpleSolverResult::FoundSomething
            } else {
                result
            },
        ),
        settled_unit(start, next, u),
        forall|a: int, b: int|
            in_grid(a, b) && #[trigger] settled_cell(start, cur, a, b) ==> settled_cell(
                start,
                next,
                a,
                b,
            ),
        forall|u2: Seq<(u8, u8)>|
            is_unit(u2) && #[trigger] settled_unit(start, cur, u2) ==> settled_unit(start, next, u2),
        result is FoundNothing && r is FoundNothing ==> unit_open(start, u),
{
    lemma_chain_step(start, cur, next, result, r);
    lemma_unit_lift(start, cur, next, r, u);
    lemma_settled_persists(start, cur, next);
    assert forall|v: int| 1 <= v <= 9 implies #[trigger] digit_checked(
        start,
        next,
        SimpleSolverResult::FoundSomething,
        u,
        v,
    ) by {
        assert(digit_checked(start, next, r, u, v));
    }
}

/// Cell `(a, b)` has been checked in a pass from `start`: settled, and quiet in `start` while
/// the pass has found nothing.
pub open spec fn cell_done(
    start: BoardBeingSolved,
    cur: BoardBeingSolved,
    result: SimpleSolverResult,
    a: int,
    b: int,
) -> bool {
    settled_cell(start, cur, a, b) && (result is FoundNothing ==> quiet_cell(start, a, b))
}

/// The state of a pass after checking one more cell `(x, y)`.
proof fn lemma_cell_done_step(
    start: BoardBeingSolved,
    cur: BoardBeingSolved,
    next: BoardBeingSolved,
    result: SimpleSolverResult,
    r: SimpleSolverResult,
    comb: SimpleSolverResult,
    x: int,
    y: int,
)
    requires
        chained(start, cur, result),
        propagated(cur, next, r),
        !(r is NotSolvable),
        cell_checked(cur, next, r, x, y),
        in_grid(x, y),
        comb == (if r is FoundSomething {
            SimpleSolverResult::FoundSomething
        } else {
            result
        }),
    ensures
        chained(start, next, comb),
        cell_done(start, next, comb, x, y),
        forall|a: int, b: int|
            #![trigger cell_done(start, next, comb, a, b)]
            in_grid(a, b) && cell_done(start, cur, result, a, b) ==> cell_done(
                start,
                next,
                comb,
                a,
                b,
            ),
{
    lemma_cell_pass_step(start, cur, next, result, r, x, y);
}

/// At the end of a pass, a checked cell meets the check's contract.
proof fn lemma_cell_done_end(
    start: BoardBeingSolved,
    fin: BoardBeingSolved,
    result: SimpleSolverResult,
    a: int,
    b: int,
)
    requires
        cell_done(start, fin, result, a, b),
        !(result is NotSolvable),
    ensures
        cell_checked(start, fin, result, a, b),
{
}

/// A digit that is placed, or possible in two cells, is neither without a place nor a hidden
/// single.
proof fn lemma_open_checked(st: BoardBeingSolved, u: Seq<(u8, u8)>, v: int)
    requires
        digit_open(st, u, v),
        1 <= v <= 9,
    ensures
        digit_checked(st, st, SimpleSolverResult::FoundSomething, u, v),
{
    if exists|i: int| 0 <= i < 9 && #[trigger] unit_holds(st, u, i, v) {
        let i = choose|i: int| 0 <= i < 9 && #[trigger] unit_holds(st, u, i, v);
        assert forall|m: int| !#[trigger] hidden_single(st, u, v, m) by {
            if hidden_single(st, u, v, m) {
                assert(!unit_holds(st, u, i, v));
            }
        }
    } else {
        let (i, j) = choose|i: int, j: int|
            0 <= i < 9 && 0 <= j < 9 && i != j && #[trigger] unit_candidate(st, u, i, v)
                && #[trigger] unit_candidate(st, u, j, v);
        assert(!no_place(st, u, v)) by {
            if no_place(st, u, v) {
                assert(!unit_holds(st, u, i, v) && !unit_candidate(st, u, i, v));
            }
        }
        assert forall|m: int| !#[trigger] hidden_single(st, u, v, m) by {
            if hidden_single(st, u, v, m) {
                assert(!unit_holds(st, u, i, v) && (i != m ==> !unit_candidate(st, u, i, v)));
                assert(!unit_holds(st, u, j, v) && (j != m ==> !unit_candidate(st, u, j, v)));
            }
        }
    }
}

/// A settled digit stays settled while later steps fill cells.
proof fn lemma_digit_persists(
    start: BoardBeingSolved,
    cur: BoardBeingSolved,
    next: BoardBeingSolved,
    u: Seq<(u8, u8)>,
    v: int,
)
    requires
        is_unit(u),
        1 <= v <= 9,
        is_subset(cur.cells(), next.cells()),
        cur.cells().len() == 81,
        next.cells().len() == 81,
        digit_checked(start, cur, SimpleSolverResult::FoundSomething, u, v),
    ensures
        digit_checked(start, next, SimpleSolverResult::FoundSomething, u, v),
{
    assert forall|i: int| #[trigger] hidden_single(start, u, v, i) implies unit_holds(next, u, i, v) by {
        let (a, b) = (u[i].0 as int, u[i].1 as int);
        assert(u[i].0 < 9 && u[i].1 < 9);
        assert(!unit_holds(start, u, i, v));
        assert(unit_candidate(start, u, i, v));
        assert(unit_holds(cur, u, i, v));
        assert(cur.cells()[a * 9 + b] != 0);
    }
}

/// Unit `u` has been checked in a pass from `start`: settled, and open in `start` while the
/// pass has found nothing.
pub open spec fn unit_done(
    start: BoardBeingSolved,
    cur: BoardBeingSolved,
    result: SimpleSolverResult,
    u: Seq<(u8, u8)>,
) -> bool {
    settled_unit(start, cur, u) && (result is FoundNothing ==> unit_open(start, u))
}

/// The state of a pass after checking one more unit `u`.
proof fn lemma_unit_done_step(
    start: BoardBeingSolved,
    cur: BoardBeingSolved,
    next: BoardBeingSolved,
    result: SimpleSolverResult,
    r: SimpleSolverResult,
    comb: SimpleSolverResult,
    u: Seq<(u8, u8)>,
)
    requires
        chained(start, cur, result),
        propagated(cur, next, r),
        !(r is NotSolvable),
        unit_checked(cur, next, r, u),
        is_unit(u),
        comb == (if r is FoundSomething {
            SimpleSolverResult::FoundSomething
        } else {
            result
        }),
    ensures
        chained(start, next, comb),
        unit_done(start, next, comb, u),
        forall|u2: Seq<(u8, u8)>|
            #![trigger unit_done(start, next, comb, u2)]
            is_unit(u2) && unit_done(start, cur, result, u2) ==> unit_done(start, next, comb, u2),
        forall|a: int, b: int|
            #![trigger cell_done(start, next, comb, a, b)]
            in_grid(a, b) && cell_done(start, cur, result, a, b) ==> cell_done(
                start,
                next,
                comb,
                a,
                b,
            ),
{
    lemma_unit_pass_step(start, cur, next, result, r, u);
}

/// At the end of a pass, a checked unit meets the check's contract.
proof fn lemma_unit_done_end(
    start: BoardBeingSolved,
    fin: BoardBeingSolved,
    result: SimpleSolverResult,
    u: Seq<(u8, u8)>,
)
    requires
        unit_done(start, fin, result, u),
        !(result is NotSolvable),
    ensures
        unit_checked(start, fin, result, u),
{
    assert forall|v: int| 1 <= v <= 9 implies #[trigger] digit_checked(start, fin, result, u, v) by {
        assert(digit_checked(start, fin, SimpleSolverResult::FoundSomething, u, v));
    }
}

/// Every row, column and region is a unit.
proof fn lemma_units()
    ensures
        forall|y: int| 0 <= y < 9 ==> #[trigger] is_unit(row_unit(y)),
        forall|x: int| 0 <= x < 9 ==> #[trigger] is_unit(col_unit(x)),
        forall|rx: int, ry: int| 0 <= rx < 3 && 0 <= ry < 3 ==> #[trigger] is_unit(region_unit(rx, ry)),
{
    assert forall|rx: int, ry: int| 0 <= rx < 3 && 0 <= ry < 3 implies #[trigger] is_unit(
        region_unit(rx, ry),
    ) by {
        let u = region_unit(rx, ry);
        assert forall|i: int, j: int| 0 <= i < 9 && 0 <= j < 9 && i != j implies #[trigger] u[i]
            != #[trigger] u[j] && sees(u[i].0 as int, u[i].1 as int, u[j].0 as int, u[j].1 as int) by {
            assert(u[i] == ((rx * 3 + i / 3) as u8, (ry * 3 + i % 3) as u8));
            assert(u[j] == ((rx * 3 + j / 3) as u8, (ry * 3 + j % 3) as u8));
        }
    }
}

/// The steps taken so far from `start` led to `cur`, none of them finding the state unsolvable;
/// `result` says whether any filled a cell.
pub open spec fn chained(
    start: BoardBeingSolved,
    cur: BoardBeingSolved,
    result: SimpleSolverResult,
) -> bool {
    &&& propagated(start, cur, result)
    &&& !(result is NotSolvable)
}

proof fn lemma_chain_step(
    start: BoardBeingSolved,
    cur: BoardBeingSolved,
    next: BoardBeingSolved,
    result: SimpleSolverResult,
    r: SimpleSolverResult,
)
    requires
        chained(start, cur, result),
        propagated(cur, next, r),
    ensures
        !(r is NotSolvable) ==> chained(
            start,
            next,
            if r == SimpleSolverResult::FoundSomething {
                SimpleSolverResult::FoundSomething
            } else {
                result
            },
        ),
        r is NotSolvable ==> propagated(start, next, SimpleSolverResult::NotSolvable),
{
    assert(is_subset(start.cells(), next.cells()));
    lemma_narrowed_trans(start, cur, next);
    if r == SimpleSolverResult::NotSolvable {
        assert forall|s: Seq<u8>| !#[trigger] start.admits(s) by {
            assert(start.admits(s) == cur.admits(s));
        }
    } else {
        assert forall|s: Seq<u8>| #[trigger] next.admits(s) == start.admits(s) by {
            assert(next.admits(s) == cur.admits(s));
            assert(start.admits(s) == cur.admits(s));
        }
    }
}

proof fn lemma_chain_start(start: BoardBeingSolved)
    requires
        start.wf(),
    ensures
        chained(start, start, SimpleSolverResult::FoundNothing),
{
}

/// The propagation that a placement triggers, scoped to the row, column and region of the
/// placed cell, and the scan of the whole board never differ in the solutions they keep: run
/// from one state, where neither finds it unsolvable, the states they reach admit exactly the
/// same solutions; where only one finds it unsolvable, the other keeps no solution.
pub proof fn lemma_scoped_and_full_scan_agree(
    start: BoardBeingSolved,
    full: BoardBeingSolved,
    full_result: SimpleSolverResult,
    scoped: BoardBeingSolved,
    scoped_result: SimpleSolverResult,
)
    requires
        propagated(start, full, full_result),
        propagated(start, scoped, scoped_result),
    ensures
        !(full_result is NotSolvable) && !(scoped_result is NotSolvable) ==> forall|s: Seq<u8>|
            #![trigger full.admits(s)]
            #![trigger scoped.admits(s)]
            full.admits(s) == scoped.admits(s),
        full_result is NotSolvable && !(scoped_result is NotSolvable) ==> forall|s: Seq<u8>|
            !#[trigger] scoped.admits(s),
        scoped_result is NotSolvable && !(full_result is NotSolvable) ==> forall|s: Seq<u8>|
            !#[trigger] full.admits(s),
{
    assert forall|s: Seq<u8>|
        !(full_result is NotSolvable) && !(scoped_result is NotSolvable) implies #[trigger] full.admits(s)
        == scoped.admits(s) by {
        assert(full.admits(s) == start.admits(s));
        assert(scoped.admits(s) == start.admits(s));
    }
}

/// Applies both strategies over the whole board, forced singles in every cell, then hidden
/// singles in every row, column and region, and repeats until a round finds nothing. Each value
/// found also triggers the strategies around it at once.
pub fn solve_simple_strategies(board: &mut BoardBeingSolved) -> (r: SimpleSolverResult)
    requires
        old(board).wf(),
    ensures
        propagated(*old(board), *final(board), r),
        r is FoundNothing <==> is_stable(*old(board)),
        !(r is NotSolvable) ==> is_stable(*final(board)),
        is_stable(*old(board)) ==> *final(board) == *old(board),
{
    let ghost start = *board;
    let mut result = SimpleSolverResult::FoundNothing;
    let mut progress = true;
    proof {
        lemma_chain_start(start);
        lemma_units();
    }
    while progress
        invariant
            chained(start, *board, result),
            start == *old(board),
            !progress ==> is_stable(*board),
            is_stable(start) ==> result is FoundNothing,
        decreases board.empties(), if progress {
            1int
        } else {
            0int
        },
    {
        let ghost cur = *board;
        let r1 = solve_known_values(board);
        if r1 == SimpleSolverResult::NotSolvable {
            proof {
                lemma_chain_step(start, cur, *board, result, r1);
            }
            return SimpleSolverResult::NotSolvable;
        }
        let ghost mid = *board;
        let ghost result1 = if r1 is FoundSomething {
            SimpleSolverResult::FoundSomething
        } else {
            result
        };
        proof {
            lemma_chain_step(start, cur, mid, result, r1);
        }
        let r2 = solve_hidden_candidates(board);
        if r2 == SimpleSolverResult::NotSolvable {
            proof {
                lemma_chain_step(start, mid, *board, result1, r2);
            }
            return SimpleSolverResult::NotSolvable;
        }
        proof {
            lemma_chain_step(start, mid, *board, result1, r2);
        }
        if r1 == SimpleSolverResult::FoundNothing && r2 == SimpleSolverResult::FoundNothing {
            proof {
                assert(mid == cur && *board == mid);
                assert forall|a: int, b: int|
                    in_grid(a, b) && #[trigger] cell_of(cur.cells(), a, b) == 0 implies exists|
                        v: int,
                        w: int,
                    |
                        1 <= v <= 9 && 1 <= w <= 9 && v != w
                            && #[trigger] cur.candidates().possible(a, b, v)
                            && #[trigger] cur.candidates().possible(a, b, w) by {
                    assert(cell_checked(cur, mid, r1, a, b));
                    assert(two_candidates(cur, a, b));
                }
                assert forall|y: int| 0 <= y < 9 implies #[trigger] unit_open(cur, row_unit(y)) by {
                    assert(unit_checked(mid, *board, r2, row_unit(y)));
                }
                assert forall|x: int| 0 <= x < 9 implies #[trigger] unit_open(cur, col_unit(x)) by {
                    assert(unit_checked(mid, *board, r2, col_unit(x)));
                }
                assert forall|rx: int, ry: int|
                    0 <= rx < 3 && 0 <= ry < 3 implies #[trigger] unit_open(
                    cur,
                    region_unit(rx, ry),
                ) by {
                    assert(unit_checked(mid, *board, r2, region_unit(rx, ry)));
                }
                assert(is_stable(*board));
            }
            progress = false;
        } else {
            result = SimpleSolverResult::FoundSomething;
        }
    }
    result
}

/// Like [solve_simple_strategies], but only looks at the row, the column and the region of
/// the cell `(modification_x, modification_y)`, the only places where a new value there can
/// lead to new deductions.
pub fn solve_simple_strategies_triggered_by_modification(
    board: &mut BoardBeingSolved,
    modification_x: u8,
    modification_y: u8,
) -> (r: SimpleSolverResult)
    requires
        old(board).wf(),
        modification_x < 9,
        modification_y < 9,
    ensures
        propagated(*old(board), *final(board), r),
        forall|a: int, b: int|
            in_grid(a, b) && sees(modification_x as int, modification_y as int, a, b)
                ==> #[trigger] cell_checked(*old(board), *final(board), r, a, b),
        unit_checked(*old(board), *final(board), r, row_unit(modification_y as int)),
        unit_checked(*old(board), *final(board), r, col_unit(modification_x as int)),
        unit_checked(
            *old(board),
            *final(board),
            r,
            region_unit(modification_x as int / 3, modification_y as int / 3),
        ),
        r is FoundNothing ==> scoped_stable(
            *old(board),
            modification_x as int,
            modification_y as int,
        ),
    decreases old(board).empties(), 4nat,
{
    let ghost start = *board;
    let ghost mx = modification_x as int;
    let ghost my = modification_y as int;
    let mut result = SimpleSolverResult::FoundNothing;
    let r1 = solve_known_values_triggered_by_modification(board, modification_x, modification_y);
    proof {
        lemma_chain_start(start);
        lemma_chain_step(start, start, *board, result, r1);
    }
    match r1 {
        SimpleSolverResult::FoundSomething => {
            result = SimpleSolverResult::FoundSomething;
        },
        SimpleSolverResult::FoundNothing => {},
        SimpleSolverResult::NotSolvable => return SimpleSolverResult::NotSolvable,
    }
    let ghost mid = *board;
    let r2 = _solve_hidden_candidates_triggered_by_modification(
        board,
        modification_x,
        modification_y,
    );
    proof {
        lemma_chain_step(start, mid, *board, result, r2);
    }
    match r2 {
        SimpleSolverResult::FoundSomething => {
            result = SimpleSolverResult::FoundSomething;
        },
        SimpleSolverResult::FoundNothing => {},
        SimpleSolverResult::NotSolvable => return SimpleSolverResult::NotSolvable,
    }
    proof {
        let fin = *board;
        assert forall|a: int, b: int|
            in_grid(a, b) && sees(mx, my, a, b) implies #[trigger] cell_checked(
            start,
            fin,
            result,
            a,
            b,
        ) by {
            assert(cell_checked(start, mid, r1, a, b));
            assert forall|v: int|
                cell_of(start.cells(), a, b) == 0 && #[trigger] single_candidate(start, a, b, v)
                    implies cell_of(fin.cells(), a, b) == v by {
                assert(mid.cells()[a * 9 + b] != 0);
            }
        }
        let units = seq![row_unit(my), col_unit(mx), region_unit(mx / 3, my / 3)];
        assert forall|k: int| 0 <= k < 3 implies #[trigger] unit_checked(
            start,
            fin,
            result,
            units[k],
        ) by {
            let u = units[k];
            lemma_units();
            assert(is_unit(u));
            assert(unit_checked(mid, fin, r2, u));
            lemma_unit_lift(start, mid, fin, r2, u);
            assert forall|v: int| 1 <= v <= 9 implies #[trigger] digit_checked(
                start,
                fin,
                result,
                u,
                v,
            ) by {
                assert(digit_checked(start, fin, r2, u, v));
            }
        }
        assert(unit_checked(start, fin, result, units[0]));
        assert(unit_checked(start, fin, result, units[1]));
        assert(unit_checked(start, fin, result, units[2]));
        if result is FoundNothing {
            assert forall|a: int, b: int|
                in_grid(a, b) && sees(mx, my, a, b) && #[trigger] cell_of(start.cells(), a, b)
                    == 0 implies two_candidates(start, a, b) by {
                assert(cell_checked(start, fin, result, a, b));
            }
        }
    }
    result
}

/// Fills every cell that has a single possible digit; a cell without any shows that the board
/// has no solution.
fn solve_known_values(board: &mut BoardBeingSolved) -> (r: SimpleSolverResult)
    requires
        old(board).wf(),
    ensures
        propagated(*old(board), *final(board), r),
        forall|a: int, b: int|
            in_grid(a, b) ==> #[trigger] cell_checked(*old(board), *final(board), r, a, b),
        is_stable(*old(board)) ==> r is FoundNothing,
{
    let ghost start = *board;
    let mut result = SimpleSolverResult::FoundNothing;
    proof {
        lemma_chain_start(start);
    }
    let mut x: u8 = 0;
    while x < WIDTH as u8
        invariant
            x <= 9,
            chained(start, *board, result),
            start == *old(board),
            is_stable(start) ==> result is FoundNothing,
            forall|a: int, b: int|
                in_grid(a, b) && a < x ==> #[trigger] cell_done(start, *board, result, a, b),
        decreases 9 - x,
    {
        let mut y: u8 = 0;
        while y < HEIGHT as u8
            invariant
                x < 9,
                y <= 9,
                chained(start, *board, result),
                start == *old(board),
                is_stable(start) ==> result is FoundNothing,
                forall|a: int, b: int|
                    in_grid(a, b) && (a < x || (a == x && b < y)) ==> #[trigger] cell_done(
                        start,
                        *board,
                        result,
                        a,
                        b,
                    ),
            decreases 9 - y,
        {
            let ghost cur = *board;
            let r = _solve_known_values_for_field(board, x, y);
            if r == SimpleSolverResult::NotSolvable {
                proof {
                    lemma_chain_step(start, cur, *board, result, r);
                }
                return SimpleSolverResult::NotSolvable;
            }
            let ghost prev = result;
            if r == SimpleSolverResult::FoundSomething {
                result = SimpleSolverResult::FoundSomething;
            }
            proof {
                lemma_cell_done_step(start, cur, *board, prev, r, result, x as int, y as int);
            }
            y += 1;
        }
        x += 1;
    }
    proof {
        assert forall|a: int, b: int| in_grid(a, b) implies #[trigger] cell_checked(
            start,
            *board,
            result,
            a,
            b,
        ) by {
            lemma_cell_done_end(start, *board, result, a, b);
        }
    }
    result
}

/// Like [solve_known_values], but only for the cells in the row, the column and the region of
/// `(modification_x, modification_y)`.
fn solve_known_values_triggered_by_modification(
    board: &mut BoardBeingSolved,
    modification_x: u8,
    modification_y: u8,
) -> (r: SimpleSolverResult)
    requires
        old(board).wf(),
        modification_x < 9,
        modification_y < 9,
    ensures
        propagated(*old(board), *final(board), r),
        forall|a: int, b: int|
            in_grid(a, b) && sees(modification_x as int, modification_y as int, a, b)
                ==> #[trigger] cell_checked(*old(board), *final(board), r, a, b),
    decreases old(board).empties(), 3nat,
{
    let ghost start = *board;
    let ghost mx = modification_x as int;
    let ghost my = modification_y as int;
    let mut result = SimpleSolverResult::FoundNothing;
    proof {
        lemma_chain_start(start);
    }
    let mut x: u8 = 0;
    while x < WIDTH as u8
        invariant
            x <= 9,
            modification_y < 9,
            my == modification_y,
            chained(start, *board, result),
            start == *old(board),
            forall|a: int, b: int|
                in_grid(a, b) && b == my && a < x ==> #[trigger] cell_done(
                    start,
                    *board,
                    result,
                    a,
                    b,
                ),
        decreases 9 - x,
    {
        let ghost cur = *board;
        let r = _solve_known_values_for_field(board, x, modification_y);
        if r == SimpleSolverResult::NotSolvable {
            proof {
                lemma_chain_step(start, cur, *board, result, r);
            }
            return SimpleSolverResult::NotSolvable;
        }
        let ghost prev = result;
        if r == SimpleSolverResult::FoundSomething {
            result = SimpleSolverResult::FoundSomething;
        }
        proof {
            lemma_cell_done_step(start, cur, *board, prev, r, result, x as int, modification_y as int);
        }
        x += 1;
    }
    let mut y: u8 = 0;
    while y < HEIGHT as u8
        invariant
            y <= 9,
            modification_x < 9,
            modification_y < 9,
            mx == modification_x,
            my == modification_y,
            chained(start, *board, result),
            start == *old(board),
            forall|a: int, b: int|
                in_grid(a, b) && (b == my || (a == mx && b < y)) ==> #[trigger] cell_done(
                    start,
                    *board,
                    result,
                    a,
                    b,
                ),
        decreases 9 - y,
    {
        let ghost cur = *board;
        let r = _solve_known_values_for_field(board, modification_x, y);
        if r == SimpleSolverResult::NotSolvable {
            proof {
                lemma_chain_step(start, cur, *board, result, r);
            }
            return SimpleSolverResult::NotSolvable;
        }
        let ghost prev = result;
        if r == SimpleSolverResult::FoundSomething {
            result = SimpleSolverResult::FoundSomething;
        }
        proof {
            lemma_cell_done_step(start, cur, *board, prev, r, result, modification_x as int, y as int);
        }
        y += 1;
    }
    let region_x = modification_x / 3;
    let region_y = modification_y / 3;
    let mut x: u8 = region_x * 3;
    while x < (region_x + 1) * 3
        invariant
            region_x < 3,
            region_y < 3,
            region_x == mx / 3,
            region_y == my / 3,
            region_x * 3 <= x <= (region_x + 1) * 3,
            modification_x < 9,
            modification_y < 9,
            mx == modification_x,
            my == modification_y,
            chained(start, *board, result),
            start == *old(board),
            forall|a: int, b: int|
                in_grid(a, b) && (b == my || a == mx || (a / 3 == region_x && b / 3 == region_y
                    && a < x)) ==> #[trigger] cell_done(start, *board, result, a, b),
        decreases (region_x + 1) * 3 - x,
    {
        let mut y: u8 = region_y * 3;
        while y < (region_y + 1) * 3
            invariant
                region_x < 3,
                region_y < 3,
                region_x == mx / 3,
                region_y == my / 3,
                region_x * 3 <= x < (region_x + 1) * 3,
                region_y * 3 <= y <= (region_y + 1) * 3,
                modification_x < 9,
                modification_y < 9,
                mx == modification_x,
                my == modification_y,
                chained(start, *board, result),
                start == *old(board),
                forall|a: int, b: int|
                    in_grid(a, b) && (b == my || a == mx || (a / 3 == region_x && b / 3
                        == region_y && (a < x || (a == x && b < y)))) ==> #[trigger] cell_done(
                        start,
                        *board,
                        result,
                        a,
                        b,
                    ),
            decreases (region_y + 1) * 3 - y,
        {
            let ghost cur = *board;
            let r = _solve_known_values_for_field(board, x, y);
            if r == SimpleSolverResult::NotSolvable {
                proof {
                    lemma_chain_step(start, cur, *board, result, r);
                }
                return SimpleSolverResult::NotSolvable;
            }
            let ghost prev = result;
            if r == SimpleSolverResult::FoundSomething {
                result = SimpleSolverResult::FoundSomething;
            }
            proof {
                lemma_cell_done_step(start, cur, *board, prev, r, result, x as int, y as int);
            }
            y += 1;
        }
        x += 1;
    }
    proof {
        assert forall|a: int, b: int|
            in_grid(a, b) && sees(mx, my, a, b) implies #[trigger] cell_checked(
            start,
            *board,
            result,
            a,
            b,
        ) by {
            lemma_cell_done_end(start, *board, result, a, b);
        }
    }
    result
}

/// If `(x, y)` is empty with a single possible digit, places it; with none, the board has no
/// solution.
fn _solve_known_values_for_field(board: &mut BoardBeingSolved, x: u8, y: u8) -> (r:
    SimpleSolverResult)
    requires
        old(board).wf(),
        x < 9,
        y < 9,
    ensures
        propagated(*old(board), *final(board), r),
        cell_checked(*old(board), *final(board), r, x as int, y as int),
        quiet_cell(*old(board), x as int, y as int) ==> r is FoundNothing,
        cell_of(old(board).cells(), x as int, y as int) == 0 && no_candidate(
            *old(board),
            x as int,
            y as int,
        ) ==> r is NotSolvable && *final(board) == *old(board),
        forall|v: int|
            cell_of(old(board).cells(), x as int, y as int) == 0 && #[trigger] single_candidate(
                *old(board),
                x as int,
                y as int,
                v,
            ) ==> cell_of(final(board).cells(), x as int, y as int) == v,
        is_stable(*old(board)) ==> r is FoundNothing,
    decreases old(board).empties(), 1nat,
{
    let ghost start = *board;
    if board.field_is_empty(x as usize, y as usize) {
        let possible_values_this_field = board.possible_values().possible_values_for_field(
            x as usize,
            y as usize,
        );
        if possible_values_this_field.len() == 0 {
            proof {
                assert(no_candidate(start, x as int, y as int)) by {
                    assert forall|v: int| 1 <= v <= 9 implies !#[trigger] start.candidates().possible(
                        x as int,
                        y as int,
                        v,
                    ) by {
                        if start.candidates().possible(x as int, y as int, v) {
                            assert(possible_values_this_field@.contains(v as u8));
                        }
                    }
                }
                assert(!two_candidates(start, x as int, y as int));
                assert forall|w: int| !#[trigger] single_candidate(start, x as int, y as int, w) by {}
                assert forall|s: Seq<u8>| !#[trigger] start.admits(s) by {
                    if start.admits(s) {
                        let v = cell_of(s, x as int, y as int);
                        assert(1 <= s[x * 9 + y] <= 9);
                        assert(possible_values_this_field@.contains(v));
                    }
                }
            }
            return SimpleSolverResult::NotSolvable;
        }
        let ghost vals = possible_values_this_field@;
        proof {
            assert(!no_candidate(start, x as int, y as int)) by {
                assert(start.candidates().possible(x as int, y as int, vals[0] as int));
            }
        }
        if possible_values_this_field.len() == 1 {
            let value = possible_values_this_field[0];
            proof {
                assert forall|w: int|
                    #[trigger] single_candidate(start, x as int, y as int, w) implies w == value by {
                    assert(vals.contains(w as u8));
                }
                if two_candidates(start, x as int, y as int) {
                    let (v, w) = choose|v: int, w: int|
                        1 <= v <= 9 && 1 <= w <= 9 && v != w
                            && #[trigger] start.candidates().possible(x as int, y as int, v)
                            && #[trigger] start.candidates().possible(x as int, y as int, w);
                    assert(vals.contains(v as u8));
                    assert(vals.contains(w as u8));
                }
                lemma_count_empty_positive(start.cells(), x * 9 + y, 81);
                assert forall|s: Seq<u8>| #[trigger] start.admits(s) implies cell_of(
                    s,
                    x as int,
                    y as int,
                ) == value by {
                    let v = cell_of(s, x as int, y as int);
                    assert(1 <= s[x * 9 + y] <= 9);
                    assert(possible_values_this_field@.contains(v));
                }
            }
            let r = board.set_empty_field_to_value_and_apply_simple_strategies(
                x as usize,
                y as usize,
                value,
            );
            proof {
                if r == SimpleSolverResult::NotSolvable {
                    assert forall|s: Seq<u8>| !#[trigger] start.admits(s) by {
                        if start.admits(s) {
                            assert(cell_of(s, x as int, y as int) == value);
                        }
                    }
                } else {
                    assert forall|s: Seq<u8>| #[trigger] board.admits(s) == start.admits(s) by {
                        if start.admits(s) {
                            assert(cell_of(s, x as int, y as int) == value);
                        }
                    }
                }
            }
            match r {
                SimpleSolverResult::FoundSomething | SimpleSolverResult::FoundNothing => {
                    SimpleSolverResult::FoundSomething
                },
                SimpleSolverResult::NotSolvable => SimpleSolverResult::NotSolvable,
            }
        } else {
            proof {
                assert(vals[0] < vals[1]);
                assert(start.candidates().possible(x as int, y as int, vals[0] as int));
                assert(start.candidates().possible(x as int, y as int, vals[1] as int));
                assert(two_candidates(start, x as int, y as int));
                assert forall|w: int| !#[trigger] single_candidate(start, x as int, y as int, w) by {
                    if single_candidate(start, x as int, y as int, w) {
                        assert(!start.candidates().possible(x as int, y as int, vals[0] as int)
                            || !start.candidates().possible(x as int, y as int, vals[1] as int));
                    }
                }
            }
            SimpleSolverResult::FoundNothing
        }
    } else {
        SimpleSolverResult::FoundNothing
    }
}

/// Places every digit that has a single possible cell in a row, a column or a region; a digit
/// without any shows that the board has no solution.
#[verifier::rlimit(60)]
fn solve_hidden_candidates(board: &mut BoardBeingSolved) -> (r: SimpleSolverResult)
    requires
        old(board).wf(),
    ensures
        propagated(*old(board), *final(board), r),
        forall|y: int| 0 <= y < 9 ==> #[trigger] unit_checked(*old(board), *final(board), r, row_unit(y)),
        forall|x: int| 0 <= x < 9 ==> #[trigger] unit_checked(*old(board), *final(board), r, col_unit(x)),
        forall|rx: int, ry: int|
            0 <= rx < 3 && 0 <= ry < 3 ==> #[trigger] unit_checked(
                *old(board),
                *final(board),
                r,
                region_unit(rx, ry),
            ),
        is_stable(*old(board)) ==> r is FoundNothing,
{
    let ghost start = *board;
    let mut result = SimpleSolverResult::FoundNothing;
    proof {
        lemma_chain_start(start);
        lemma_units();
    }
    let mut row: u8 = 0;
    while row < HEIGHT as u8
        invariant
            row <= 9,
            chained(start, *board, result),
            start == *old(board),
            is_stable(start) ==> result is FoundNothing,
            forall|y: int| 0 <= y < row ==> #[trigger] unit_done(start, *board, result, row_unit(y)),
        decreases 9 - row,
    {
        let ghost cur = *board;
        let r = _solve_hidden_candidates_row(board, row);
        if r == SimpleSolverResult::NotSolvable {
            proof {
                lemma_chain_step(start, cur, *board, result, r);
            }
            return SimpleSolverResult::NotSolvable;
        }
        let ghost prev = result;
        if r == SimpleSolverResult::FoundSomething {
            result = SimpleSolverResult::FoundSomething;
        }
        proof {
            lemma_unit_done_step(start, cur, *board, prev, r, result, row_unit(row as int));
        }
        row += 1;
    }
    let mut col: u8 = 0;
    while col < WIDTH as u8
        invariant
            col <= 9,
            chained(start, *board, result),
            start == *old(board),
            is_stable(start) ==> result is FoundNothing,
            forall|y: int| 0 <= y < 9 ==> #[trigger] unit_done(start, *board, result, row_unit(y)),
            forall|x: int| 0 <= x < col ==> #[trigger] unit_done(start, *board, result, col_unit(x)),
        decreases 9 - col,
    {
        let ghost cur = *board;
        let r = _solve_hidden_candidates_col(board, col);
        if r == SimpleSolverResult::NotSolvable {
            proof {
                lemma_chain_step(start, cur, *board, result, r);
            }
            return SimpleSolverResult::NotSolvable;
        }
        let ghost prev = result;
        if r == SimpleSolverResult::FoundSomething {
            result = SimpleSolverResult::FoundSomething;
        }
        proof {
            lemma_unit_done_step(start, cur, *board, prev, r, result, col_unit(col as int));
        }
        col += 1;
    }
    let mut region_x: u8 = 0;
    while region_x < 3
        invariant
            region_x <= 3,
            chained(start, *board, result),
            start == *old(board),
            is_stable(start) ==> result is FoundNothing,
            forall|y: int| 0 <= y < 9 ==> #[trigger] unit_done(start, *board, result, row_unit(y)),
            forall|x: int| 0 <= x < 9 ==> #[trigger] unit_done(start, *board, result, col_unit(x)),
            forall|rx: int, ry: int|
                0 <= rx < region_x && 0 <= ry < 3 ==> #[trigger] unit_done(
                    start,
                    *board,
                    result,
                    region_unit(rx, ry),
                ),
        decreases 3 - region_x,
    {
        let mut region_y: u8 = 0;
        while region_y < 3
            invariant
                region_x < 3,
                region_y <= 3,
                chained(start, *board, result),
                start == *old(board),
                is_stable(start) ==> result is FoundNothing,
                forall|y: int|
                    0 <= y < 9 ==> #[trigger] unit_done(start, *board, result, row_unit(y)),
                forall|x: int|
                    0 <= x < 9 ==> #[trigger] unit_done(start, *board, result, col_unit(x)),
                forall|rx: int, ry: int|
                    0 <= rx < 3 && 0 <= ry < 3 && (rx < region_x || (rx == region_x && ry
                        < region_y)) ==> #[trigger] unit_done(
                        start,
                        *board,
                        result,
                        region_unit(rx, ry),
                    ),
            decreases 3 - region_y,
        {
            let ghost cur = *board;
            let r = _solve_hidden_candidates_region(board, region_x, region_y);
            if r == SimpleSolverResult::NotSolvable {
                proof {
                    lemma_chain_step(start, cur, *board, result, r);
                }
                return SimpleSolverResult::NotSolvable;
            }
            let ghost prev = result;
            if r == SimpleSolverResult::FoundSomething {
                result = SimpleSolverResult::FoundSomething;
            }
            proof {
                lemma_unit_done_step(start, cur, *board, prev, r, result, region_unit(region_x as int, region_y as int));
            }
            region_y += 1;
        }
        region_x += 1;
    }
    proof {
        assert forall|y: int| 0 <= y < 9 implies #[trigger] unit_checked(
            start,
            *board,
            result,
            row_unit(y),
        ) by {
            lemma_unit_done_end(start, *board, result, row_unit(y));
        }
        assert forall|x: int| 0 <= x < 9 implies #[trigger] unit_checked(
            start,
            *board,
            result,
            col_unit(x),
        ) by {
            lemma_unit_done_end(start, *board, result, col_unit(x));
        }
        assert forall|rx: int, ry: int| 0 <= rx < 3 && 0 <= ry < 3 implies #[trigger] unit_checked(
            start,
            *board,
            result,
            region_unit(rx, ry),
        ) by {
            lemma_unit_done_end(start, *board, result, region_unit(rx, ry));
        }
    }
    result
}

/// Like [solve_hidden_candidates], but only for the row, the column and the region of
/// `(modification_x, modification_y)`.
fn _solve_hidden_candidates_triggered_by_modification(
    board: &mut BoardBeingSolved,
    modification_x: u8,
    modification_y: u8,
) -> (r: SimpleSolverResult)
    requires
        old(board).wf(),
        modification_x < 9,
        modification_y < 9,
    ensures
        propagated(*old(board), *final(board), r),
        unit_checked(*old(board), *final(board), r, row_unit(modification_y as int)),
        unit_checked(*old(board), *final(board), r, col_unit(modification_x as int)),
        unit_checked(
            *old(board),
            *final(board),
            r,
            region_unit(modification_x as int / 3, modification_y as int / 3),
        ),
    decreases old(board).empties(), 3nat,
{
    let ghost start = *board;
    let mut result = SimpleSolverResult::FoundNothing;
    proof {
        lemma_chain_start(start);
        lemma_units();
    }
    let ghost cur = *board;
    let r = _solve_hidden_candidates_row(board, modification_y);
    if r == SimpleSolverResult::NotSolvable {
        proof {
            lemma_chain_step(start, cur, *board, result, r);
        }
        return SimpleSolverResult::NotSolvable;
    }
    let ghost prev = result;
    if r == SimpleSolverResult::FoundSomething {
        result = SimpleSolverResult::FoundSomething;
    }
    proof {
        lemma_unit_done_step(start, cur, *board, prev, r, result, row_unit(modification_y as int));
    }
    let ghost cur = *board;
    let r = _solve_hidden_candidates_col(board, modification_x);
    if r == SimpleSolverResult::NotSolvable {
        proof {
            lemma_chain_step(start, cur, *board, result, r);
        }
        return SimpleSolverResult::NotSolvable;
    }
    let ghost prev = result;
    if r == SimpleSolverResult::FoundSomething {
        result = SimpleSolverResult::FoundSomething;
    }
    proof {
        lemma_unit_done_step(start, cur, *board, prev, r, result, col_unit(modification_x as int));
    }
    let region_x = modification_x / 3;
    let region_y = modification_y / 3;
    let ghost cur = *board;
    let r = _solve_hidden_candidates_region(board, region_x, region_y);
    if r == SimpleSolverResult::NotSolvable {
        proof {
            lemma_chain_step(start, cur, *board, result, r);
        }
        return SimpleSolverResult::NotSolvable;
    }
    let ghost prev = result;
    if r == SimpleSolverResult::FoundSomething {
        result = SimpleSolverResult::FoundSomething;
    }
    proof {
        lemma_unit_done_step(start, cur, *board, prev, r, result, region_unit(region_x as int, region_y as int));
    }
    proof {
        lemma_unit_done_end(start, *board, result, row_unit(modification_y as int));
        lemma_unit_done_end(start, *board, result, col_unit(modification_x as int));
        lemma_unit_done_end(start, *board, result, region_unit(region_x as int, region_y as int));
    }
    result
}

/// The cells of row `row`, left to right.
fn row_fields(row: u8) -> (r: Vec<(u8, u8)>)
    requires
        row < 9,
    ensures
        is_unit(r@),
        r@ == row_unit(row as int),
{
    let mut r: Vec<(u8, u8)> = Vec::new();
    let mut x: u8 = 0;
    while x < WIDTH as u8
        invariant
            x <= 9,
            r@.len() == x,
            forall|i: int| 0 <= i < x ==> #[trigger] r@[i] == (i as u8, row),
        decreases 9 - x,
    {
        r.push((x, row));
        x += 1;
    }
    assert(r@ =~= row_unit(row as int));
    r
}

/// The cells of column `col`, top to bottom.
fn col_fields(col: u8) -> (r: Vec<(u8, u8)>)
    requires
        col < 9,
    ensures
        is_unit(r@),
        r@ == col_unit(col as int),
{
    let mut r: Vec<(u8, u8)> = Vec::new();
    let mut y: u8 = 0;
    while y < HEIGHT as u8
        invariant
            y <= 9,
            r@.len() == y,
            forall|i: int| 0 <= i < y ==> #[trigger] r@[i] == (col, i as u8),
        decreases 9 - y,
    {
        r.push((col, y));
        y += 1;
    }
    assert(r@ =~= col_unit(col as int));
    r
}

/// The cells of the 3x3 region `(region_x, region_y)`.
fn region_fields(region_x: u8, region_y: u8) -> (r: Vec<(u8, u8)>)
    requires
        region_x < 3,
        region_y < 3,
    ensures
        is_unit(r@),
        r@ == region_unit(region_x as int, region_y as int),
{
    let mut r: Vec<(u8, u8)> = Vec::new();
    let mut x: u8 = 0;
    while x < 3
        invariant
            region_x < 3,
            region_y < 3,
            x <= 3,
            r@.len() == 3 * x,
            forall|i: int|
                0 <= i < r@.len() ==> #[trigger] r@[i] == ((region_x * 3 + i / 3) as u8, (
                region_y * 3 + i % 3) as u8),
        decreases 3 - x,
    {
        let mut y: u8 = 0;
        while y < 3
            invariant
                region_x < 3,
                region_y < 3,
                x < 3,
                y <= 3,
                r@.len() == 3 * x + y,
                forall|i: int|
                    0 <= i < r@.len() ==> #[trigger] r@[i] == ((region_x * 3 + i / 3) as u8, (
                    region_y * 3 + i % 3) as u8),
            decreases 3 - y,
        {
            r.push((region_x * 3 + x, region_y * 3 + y));
            y += 1;
        }
        x += 1;
    }
    assert forall|i: int, j: int| 0 <= i < 9 && 0 <= j < 9 && i != j implies #[trigger] r@[i]
        != #[trigger] r@[j] && crate::board::sees(
        r@[i].0 as int,
        r@[i].1 as int,
        r@[j].0 as int,
        r@[j].1 as int,
    ) by {
        assert(r@[i] == ((region_x * 3 + i / 3) as u8, (region_y * 3 + i % 3) as u8));
        assert(r@[j] == ((region_x * 3 + j / 3) as u8, (region_y * 3 + j % 3) as u8));
    }
    assert(r@ =~= region_unit(region_x as int, region_y as int));
    r
}

fn _solve_hidden_candidates_row(board: &mut BoardBeingSolved, row: u8) -> (r:
    SimpleSolverResult)
    requires
        old(board).wf(),
        row < 9,
    ensures
        propagated(*old(board), *final(board), r),
        unit_checked(*old(board), *final(board), r, row_unit(row as int)),
        unit_open(*old(board), row_unit(row as int)) ==> r is FoundNothing,
    decreases old(board).empties(), 2nat,
{
    let cells = row_fields(row);
    _solve_hidden_candidates(board, &cells)
}

fn _solve_hidden_candidates_col(board: &mut BoardBeingSolved, col: u8) -> (r:
    SimpleSolverResult)
    requires
        old(board).wf(),
        col < 9,
    ensures
        propagated(*old(board), *final(board), r),
        unit_checked(*old(board), *final(board), r, col_unit(col as int)),
        unit_open(*old(board), col_unit(col as int)) ==> r is FoundNothing,
    decreases old(board).empties(), 2nat,
{
    let cells = col_fields(col);
    _solve_hidden_candidates(board, &cells)
}

fn _solve_hidden_candidates_region(board: &mut BoardBeingSolved, region_x: u8, region_y: u8) -> (r:
    SimpleSolverResult)
    requires
        old(board).wf(),
        region_x < 3,
        region_y < 3,
    ensures
        propagated(*old(board), *final(board), r),
        unit_checked(*old(board), *final(board), r, region_unit(region_x as int, region_y as int)),
        unit_open(*old(board), region_unit(region_x as int, region_y as int)) ==> r is FoundNothing,
    decreases old(board).empties(), 2nat,
{
    let cells = region_fields(region_x, region_y);
    _solve_hidden_candidates(board, &cells)
}

/// For each digit not yet in the unit `field_coords`: if a single cell of the unit can still
/// take it, places it there; if none can, the board has no solution.
fn _solve_hidden_candidates(board: &mut BoardBeingSolved, field_coords: &Vec<(u8, u8)>) -> (r:
    SimpleSolverResult)
    requires
        old(board).wf(),
        is_unit(field_coords@),
    ensures
        propagated(*old(board), *final(board), r),
        unit_checked(*old(board), *final(board), r, field_coords@),
        unit_open(*old(board), field_coords@) ==> r is FoundNothing,
    decreases old(board).empties(), 1nat,
{
    let ghost start = *board;
    let ghost u = field_coords@;
    let mut result = SimpleSolverResult::FoundNothing;
    proof {
        lemma_chain_start(start);
    }
    let mut value: u8 = 1;
    while value <= MAX_VALUE
        invariant
            1 <= value <= 10,
            field_coords@ == u,
            is_unit(u),
            chained(start, *board, result),
            start == *old(board),
            unit_open(start, u) ==> result is FoundNothing,
            forall|w: int|
                1 <= w < value ==> #[trigger] digit_checked(
                    start,
                    *board,
                    SimpleSolverResult::FoundSomething,
                    u,
                    w,
                ),
            result is FoundNothing ==> forall|w: int|
                1 <= w < value ==> #[trigger] digit_open(start, u, w),
        decreases 10 - value,
    {
        let mut placement: Option<(u8, u8)> = None;
        let mut done = false;
        let mut k: usize = 0;
        while k < 9 && !done
            invariant
                k <= 9,
                1 <= value <= 9,
                field_coords@ == u,
                is_unit(u),
                board.wf(),
                start == *old(board),
                chained(start, *board, result),
                done ==> digit_open(*board, u, value as int),
                !done && placement is None ==> forall|i: int|
                    0 <= i < k ==> !unit_holds(*board, u, i, value as int) && !unit_candidate(
                        *board,
                        u,
                        i,
                        value as int,
                    ),
                !done ==> (placement matches Some(p) ==> exists|m: int|
                    0 <= m < k && u[m] == p && unit_candidate(*board, u, m, value as int) && forall|
                        i: int,
                    |
                        0 <= i < k && i != m ==> !unit_holds(*board, u, i, value as int)
                            && !unit_candidate(*board, u, i, value as int)),
            decreases 9 - k,
        {
            let (x, y) = field_coords[k];
            if let Some(current_value) = board.get_field(x as usize, y as usize) {
                if current_value == value {
                    proof {
                        assert(unit_holds(*board, u, k as int, value as int));
                    }
                    done = true;
                }
            } else {
                if board.possible_values().is_possible(x as usize, y as usize, value) {
                    if placement.is_none() {
                        placement = Some((x, y));
                    } else {
                        proof {
                            let m = choose|m: int|
                                0 <= m < k && u[m] == placement->0 && unit_candidate(
                                    *board,
                                    u,
                                    m,
                                    value as int,
                                ) && forall|i: int|
                                    0 <= i < k && i != m ==> !unit_holds(*board, u, i, value as int)
                                        && !unit_candidate(*board, u, i, value as int);
                            assert(unit_candidate(*board, u, k as int, value as int));
                            assert(unit_candidate(*board, u, m, value as int));
                        }
                        done = true;
                    }
                }
            }
            k += 1;
        }
        let ghost cur = *board;
        if done {
            proof {
                lemma_open_checked(cur, u, value as int);
                lemma_digit_lift(start, cur, cur, SimpleSolverResult::FoundSomething, u, value as int);
            }
        }
        if !done {
            proof {
                if unit_open(start, u) {
                    assert(digit_open(cur, u, value as int));
                    if exists|i: int| 0 <= i < 9 && #[trigger] unit_holds(cur, u, i, value as int) {
                        let i = choose|i: int|
                            0 <= i < 9 && #[trigger] unit_holds(cur, u, i, value as int);
                        assert(!unit_holds(cur, u, i, value as int));
                    } else {
                        let (i, j) = choose|i: int, j: int|
                            0 <= i < 9 && 0 <= j < 9 && i != j && #[trigger] unit_candidate(
                                cur,
                                u,
                                i,
                                value as int,
                            ) && #[trigger] unit_candidate(cur, u, j, value as int);
                        assert(!unit_candidate(cur, u, i, value as int) || !unit_candidate(
                            cur,
                            u,
                            j,
                            value as int,
                        ));
                    }
                }
            }
            match placement {
                Some((x, y)) => {
                    proof {
                        let m = choose|m: int|
                            0 <= m < 9 && u[m] == (x, y) && unit_candidate(cur, u, m, value as int)
                                && forall|i: int|
                                0 <= i < 9 && i != m ==> !unit_holds(cur, u, i, value as int)
                                    && !unit_candidate(cur, u, i, value as int);
                        lemma_count_empty_positive(cur.cells(), x * 9 + y, 81);
                        assert forall|s: Seq<u8>| #[trigger] cur.admits(s) implies cell_of(
                            s,
                            x as int,
                            y as int,
                        ) == value by {
                            lemma_unit_holds_digit(s, u, value as int);
                            let q = choose|q: int|
                                0 <= q < 9 && #[trigger] cell_of(s, u[q].0 as int, u[q].1 as int)
                                    == value;
                            let (qx, qy) = (u[q].0 as int, u[q].1 as int);
                            if q != m {
                                assert(!unit_holds(cur, u, q, value as int));
                                assert(!unit_candidate(cur, u, q, value as int));
                                if cell_of(cur.cells(), qx, qy) != 0 {
                                    assert(cur.cells()[qx * 9 + qy] != 0);
                                }
                            }
                        }
                    }
                    let r = board.set_empty_field_to_value_and_apply_simple_strategies(
                        x as usize,
                        y as usize,
                        value,
                    );
                    proof {
                        if r == SimpleSolverResult::NotSolvable {
                            assert forall|s: Seq<u8>| !#[trigger] cur.admits(s) by {
                                if cur.admits(s) {
                                    assert(cell_of(s, x as int, y as int) == value);
                                }
                            }
                        } else {
                            assert forall|s: Seq<u8>| #[trigger] board.admits(s) == cur.admits(
                                s,
                            ) by {
                                if cur.admits(s) {
                                    assert(cell_of(s, x as int, y as int) == value);
                                }
                            }
                        }
                        let rr = if r is NotSolvable {
                            SimpleSolverResult::NotSolvable
                        } else {
                            SimpleSolverResult::FoundSomething
                        };
                        assert(propagated(cur, *board, rr));
                        lemma_chain_step(start, cur, *board, result, rr);
                        if !(r is NotSolvable) {
                            let m = choose|m: int|
                                0 <= m < 9 && u[m] == (x, y) && unit_candidate(cur, u, m, value as int)
                                    && forall|i: int|
                                    0 <= i < 9 && i != m ==> !unit_holds(cur, u, i, value as int)
                                        && !unit_candidate(cur, u, i, value as int);
                            assert(unit_holds(*board, u, m, value as int));
                            assert(!no_place(cur, u, value as int)) by {
                                assert(!(!unit_holds(cur, u, m, value as int) && !unit_candidate(
                                    cur,
                                    u,
                                    m,
                                    value as int,
                                )));
                            }
                            assert forall|i: int| #[trigger]
                                hidden_single(cur, u, value as int, i) implies unit_holds(
                                *board,
                                u,
                                i,
                                value as int,
                            ) by {
                                if i != m {
                                    assert(!unit_holds(cur, u, i, value as int)
                                        && !unit_candidate(cur, u, i, value as int));
                                }
                            }
                            assert(digit_checked(
                                cur,
                                *board,
                                SimpleSolverResult::FoundSomething,
                                u,
                                value as int,
                            ));
                            lemma_digit_lift(
                                start,
                                cur,
                                *board,
                                SimpleSolverResult::FoundSomething,
                                u,
                                value as int,
                            );
                            assert forall|w: int| 1 <= w < value implies #[trigger] digit_checked(
                                start,
                                *board,
                                SimpleSolverResult::FoundSomething,
                                u,
                                w,
                            ) by {
                                lemma_digit_persists(start, cur, *board, u, w);
                            }
                        }
                    }
                    match r {
                        SimpleSolverResult::FoundSomething | SimpleSolverResult::FoundNothing => {
                            result = SimpleSolverResult::FoundSomething;
                        },
                        SimpleSolverResult::NotSolvable => {
                            return SimpleSolverResult::NotSolvable;
                        },
                    }
                },
                None => {
                    proof {
                        assert forall|s: Seq<u8>| !#[trigger] cur.admits(s) by {
                            if cur.admits(s) {
                                lemma_unit_holds_digit(s, u, value as int);
                                let q = choose|q: int|
                                    0 <= q < 9 && #[trigger] cell_of(
                                        s,
                                        u[q].0 as int,
                                        u[q].1 as int,
                                    ) == value;
                                let (qx, qy) = (u[q].0 as int, u[q].1 as int);
                                assert(!unit_holds(cur, u, q, value as int));
                                assert(!unit_candidate(cur, u, q, value as int));
                                if cell_of(cur.cells(), qx, qy) != 0 {
                                    assert(cur.cells()[qx * 9 + qy] != 0);
                                }
                            }
                        }
                        lemma_chain_step(start, cur, cur, result, SimpleSolverResult::NotSolvable);
                    }
                    return SimpleSolverResult::NotSolvable;
                },
            }
        }
        value += 1;
    }
    proof {
        assert forall|v: int| 1 <= v <= 9 implies #[trigger] digit_checked(
            start,
            *board,
            result,
            u,
            v,
        ) by {
            assert(digit_checked(start, *board, SimpleSolverResult::FoundSomething, u, v));
        }
    }
    result
}

} // verus!
