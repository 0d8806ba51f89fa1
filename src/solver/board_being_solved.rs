use vstd::prelude::*;

use crate::board::{
    cell_index, cell_of, conflicts_with, has_conflict, has_conflict_at, in_grid, is_grid,
    is_solution, is_subset, lemma_count_empty_mono, num_empty_of, sees, Board, HEIGHT, WIDTH,
};
use crate::solver::possible_values::{excluded_by, PossibleValues};
use crate::solver::strategies::{
    is_stable, scoped_stable, solve_simple_strategies,
    solve_simple_strategies_triggered_by_modification, SimpleSolverResult,
};

verus! {

/// Every digit still possible in an empty cell is absent from all the cells that see it.
pub open spec fn candidates_sound(cells: Seq<u8>, pv: PossibleValues) -> bool {
    forall|x: int, y: int, v: int|
        in_grid(x, y) && 1 <= v <= 9 && cell_of(cells, x, y) == 0 && #[trigger] pv.possible(x, y, v)
            ==> forall|c: int, d: int|
            in_grid(c, d) && sees(c, d, x, y) ==> #[trigger] cell_of(cells, c, d) != v
}

/// In every cell that `cells` leaves empty, `s` holds a digit that is still possible there.
pub open spec fn respects(cells: Seq<u8>, pv: PossibleValues, s: Seq<u8>) -> bool {
    forall|x: int, y: int|
        in_grid(x, y) && #[trigger] cell_of(cells, x, y) == 0 ==> pv.possible(
            x,
            y,
            cell_of(s, x, y) as int,
        )
}

/// A board together with the digits that are still possible in each of its cells.
#[derive(Clone, Copy)]
pub struct BoardBeingSolved {
    board: Board,
    possible_values: PossibleValues,
}

/// From `old` to `new` the possible digits only narrowed: a cell still empty keeps only digits
/// it had, and a cell filled since holds a digit that was possible there.
pub open spec fn narrowed(old: BoardBeingSolved, new: BoardBeingSolved) -> bool {
    &&& forall|x: int, y: int, v: int|
        in_grid(x, y) && 1 <= v <= 9 && cell_of(new.cells(), x, y) == 0
            && #[trigger] new.candidates().possible(x, y, v) ==> old.candidates().possible(x, y, v)
    &&& forall|x: int, y: int|
        in_grid(x, y) && cell_of(old.cells(), x, y) == 0 && #[trigger] cell_of(new.cells(), x, y)
            != 0 ==> old.candidates().possible(x, y, cell_of(new.cells(), x, y) as int)
}

pub proof fn lemma_narrowed_trans(a: BoardBeingSolved, b: BoardBeingSolved, c: BoardBeingSolved)
    requires
        narrowed(a, b),
        narrowed(b, c),
        is_subset(a.cells(), b.cells()),
        is_subset(b.cells(), c.cells()),
        b.cells().len() == 81,
        is_grid(c.cells()),
    ensures
        narrowed(a, c),
{
    assert forall|x: int, y: int, v: int|
        in_grid(x, y) && 1 <= v <= 9 && cell_of(c.cells(), x, y) == 0
            && #[trigger] c.candidates().possible(x, y, v) implies a.candidates().possible(
        x,
        y,
        v,
    ) by {
        if b.cells()[x * 9 + y] != 0 {
            assert(c.cells()[x * 9 + y] == b.cells()[x * 9 + y]);
        }
        assert(b.candidates().possible(x, y, v));
    }
    assert forall|x: int, y: int|
        in_grid(x, y) && cell_of(a.cells(), x, y) == 0 && #[trigger] cell_of(c.cells(), x, y)
            != 0 implies a.candidates().possible(x, y, cell_of(c.cells(), x, y) as int) by {
        if b.cells()[x * 9 + y] != 0 {
            assert(c.cells()[x * 9 + y] == b.cells()[x * 9 + y]);
            assert(cell_of(b.cells(), x, y) != 0);
        } else {
            assert(cell_of(b.cells(), x, y) == 0);
            assert(c.cells()[x * 9 + y] <= 9);
            assert(b.candidates().possible(x, y, cell_of(c.cells(), x, y) as int));
        }
    }
}

/// What a propagation step owes, from state `old` to state `new` with result `r`: cells are only
/// filled, never emptied; "found nothing" leaves the state as it was; "found something" filled at
/// least one cell; "not solvable" comes only for a state without solutions; otherwise the
/// solutions stay the same.
pub open spec fn propagated(
    old: BoardBeingSolved,
    new: BoardBeingSolved,
    r: SimpleSolverResult,
) -> bool {
    &&& new.wf()
    &&& is_subset(old.cells(), new.cells())
    &&& new.empties() <= old.empties()
    &&& narrowed(old, new)
    &&& r is FoundNothing ==> new == old
    &&& r is FoundSomething ==> new.empties() < old.empties()
    &&& r is NotSolvable ==> forall|s: Seq<u8>| !#[trigger] old.admits(s)
    &&& !(r is NotSolvable) ==> forall|s: Seq<u8>|
        #![trigger new.admits(s)]
        #![trigger old.admits(s)]
        new.admits(s) == old.admits(s)
}

/// Placing a digit that is still possible keeps the state sound and narrows its solutions to
/// those that hold the digit there.
proof fn lemma_place(
    old_cells: Seq<u8>,
    old_pv: PossibleValues,
    new_cells: Seq<u8>,
    new_pv: PossibleValues,
    x: int,
    y: int,
    v: int,
)
    requires
        is_grid(old_cells),
        old_pv.wf(),
        !has_conflict(old_cells),
        candidates_sound(old_cells, old_pv),
        in_grid(x, y),
        1 <= v <= 9,
        cell_of(old_cells, x, y) == 0,
        old_pv.possible(x, y, v),
        new_cells == old_cells.update(cell_index(x, y), v as u8),
        new_pv.wf(),
        forall|a: int, b: int, w: int|
            in_grid(a, b) && 1 <= w <= 9 ==> #[trigger] new_pv.possible(a, b, w) == (
            old_pv.possible(a, b, w) && !(w == v && sees(x, y, a, b))),
    ensures
        is_grid(new_cells),
        !has_conflict(new_cells),
        candidates_sound(new_cells, new_pv),
        is_subset(old_cells, new_cells),
        num_empty_of(new_cells) < num_empty_of(old_cells),
        forall|s: Seq<u8>|
            #![trigger is_solution(new_cells, s)]
            (is_solution(new_cells, s) && respects(new_cells, new_pv, s)) == (is_solution(
                old_cells,
                s,
            ) && respects(old_cells, old_pv, s) && cell_of(s, x, y) == v),
{
    assert(is_subset(old_cells, new_cells));
    assert(old_cells[x * 9 + y] == 0 && new_cells[x * 9 + y] != 0);
    lemma_count_empty_mono(old_cells, new_cells, 81);
    assert forall|x1: int, y1: int| in_grid(x1, y1) implies !#[trigger] has_conflict_at(
        new_cells,
        x1,
        y1,
    ) by {
        if has_conflict_at(new_cells, x1, y1) {
            let (x2, y2) = choose|x2: int, y2: int| #[trigger]
                conflicts_with(new_cells, x1, y1, x2, y2);
            if x1 == x && y1 == y {
                assert(cell_of(old_cells, x2, y2) != v);
            } else if x2 == x && y2 == y {
                assert(cell_of(old_cells, x1, y1) != v);
            } else {
                assert(x1 * 9 + y1 != x * 9 + y);
                assert(x2 * 9 + y2 != x * 9 + y);
                assert(conflicts_with(old_cells, x1, y1, x2, y2));
                assert(has_conflict_at(old_cells, x1, y1));
            }
        }
    }
    assert forall|a: int, b: int, w: int|
        in_grid(a, b) && 1 <= w <= 9 && cell_of(new_cells, a, b) == 0 && #[trigger] new_pv.possible(
            a,
            b,
            w,
        ) implies forall|c: int, d: int|
        in_grid(c, d) && sees(c, d, a, b) ==> #[trigger] cell_of(new_cells, c, d) != w by {
        assert(a * 9 + b != x * 9 + y);
        assert(cell_of(old_cells, a, b) == 0);
        assert(old_pv.possible(a, b, w));
        assert forall|c: int, d: int| in_grid(c, d) && sees(c, d, a, b) implies #[trigger] cell_of(
            new_cells,
            c,
            d,
        ) != w by {
            if c == x && d == y {
                if w == v {
                    assert(sees(x, y, a, b));
                }
            } else {
                assert(c * 9 + d != x * 9 + y);
                assert(cell_of(old_cells, c, d) != w);
            }
        }
    }
    assert forall|s: Seq<u8>| #[trigger]
        is_solution(new_cells, s) && respects(new_cells, new_pv, s) implies is_solution(
        old_cells,
        s,
    ) && respects(old_cells, old_pv, s) && cell_of(s, x, y) == v by {
        assert(new_cells[x * 9 + y] == v);
        assert forall|a: int, b: int| in_grid(a, b) && #[trigger] cell_of(old_cells, a, b)
            == 0 implies old_pv.possible(a, b, cell_of(s, a, b) as int) by {
            if a == x && b == y {
            } else {
                assert(a * 9 + b != x * 9 + y);
                assert(cell_of(new_cells, a, b) == 0);
                assert(1 <= s[a * 9 + b] <= 9);
            }
        }
    }
    assert forall|s: Seq<u8>|
        is_solution(old_cells, s) && respects(old_cells, old_pv, s) && cell_of(s, x, y)
            == v implies #[trigger] is_solution(new_cells, s) && respects(new_cells, new_pv, s) by {
        assert forall|i: int| 0 <= i < 81 && #[trigger] new_cells[i] != 0 implies s[i]
            == new_cells[i] by {
            if i != x * 9 + y {
                assert(old_cells[i] == new_cells[i]);
            }
        }
        assert forall|a: int, b: int| in_grid(a, b) && #[trigger] cell_of(new_cells, a, b)
            == 0 implies new_pv.possible(a, b, cell_of(s, a, b) as int) by {
            assert(a * 9 + b != x * 9 + y);
            assert(cell_of(old_cells, a, b) == 0);
            let w = cell_of(s, a, b) as int;
            assert(1 <= s[a * 9 + b] <= 9);
            if sees(x, y, a, b) && w == v {
                assert(conflicts_with(s, a, b, x, y));
                assert(has_conflict_at(s, a, b));
            }
        }
    }
}

impl BoardBeingSolved {
    pub closed spec fn cells(&self) -> Seq<u8> {
        self.board@
    }

    pub closed spec fn candidates(&self) -> PossibleValues {
        self.possible_values
    }

    /// The board has no conflict, and every digit still possible in an empty cell could be
    /// placed there without one.
    pub open spec fn wf(&self) -> bool {
        &&& is_grid(self.cells())
        &&& self.candidates().wf()
        &&& !has_conflict(self.cells())
        &&& candidates_sound(self.cells(), self.candidates())
    }

    /// `s` is a solution of the board that takes, in each empty cell, a digit still possible.
    pub open spec fn admits(&self, s: Seq<u8>) -> bool {
        is_solution(self.cells(), s) && respects(self.cells(), self.candidates(), s)
    }

    pub open spec fn empties(&self) -> nat {
        num_empty_of(self.cells())
    }

    /// The number of empty cells that remain once one more is filled.
    pub open spec fn empties_after_one(&self) -> nat {
        if self.empties() > 0 {
            (self.empties() - 1) as nat
        } else {
            0
        }
    }

    /// Starts solving `board`: derives the possible digits and applies the simple strategies.
    /// `None` when that shows that `board` has no solution.
    pub fn new(board: Board) -> (r: Option<Self>)
        ensures
            r matches Some(s) ==> s.wf() && is_subset(board@, s.cells()) && is_stable(s),
            r matches Some(s) ==> forall|t: Seq<u8>| #[trigger]
                s.admits(t) == is_solution(board@, t),
            r is None ==> forall|t: Seq<u8>| !#[trigger] is_solution(board@, t),
    {
        board.reveal_grid();
        if board.has_conflicts() {
            proof {
                assert forall|t: Seq<u8>| !#[trigger] is_solution(board@, t) by {
                    if is_solution(board@, t) {
                        let (x1, y1) = choose|x1: int, y1: int|
                            in_grid(x1, y1) && #[trigger] has_conflict_at(board@, x1, y1);
                        let (x2, y2) = choose|x2: int, y2: int| #[trigger]
                            conflicts_with(board@, x1, y1, x2, y2);
                        assert(board@[x1 * 9 + y1] != 0);
                        assert(board@[x2 * 9 + y2] != 0);
                        assert(conflicts_with(t, x1, y1, x2, y2));
                        assert(has_conflict_at(t, x1, y1));
                    }
                }
            }
            return None;
        }
        let possible_values = PossibleValues::from_board(&board);
        let mut this = Self { board, possible_values };
        let ghost first = this;
        proof {
            assert forall|x: int, y: int, v: int|
                in_grid(x, y) && 1 <= v <= 9 && cell_of(board@, x, y) == 0
                    && #[trigger] possible_values.possible(x, y, v) implies forall|c: int, d: int|
                in_grid(c, d) && sees(c, d, x, y) ==> #[trigger] cell_of(board@, c, d) != v by {
                assert(!excluded_by(board@, 81, x, y, v));
            }
            assert forall|t: Seq<u8>| #[trigger] is_solution(board@, t) implies respects(
                board@,
                possible_values,
                t,
            ) by {
                assert forall|x: int, y: int| in_grid(x, y) && #[trigger] cell_of(board@, x, y)
                    == 0 implies possible_values.possible(x, y, cell_of(t, x, y) as int) by {
                    let v = cell_of(t, x, y) as int;
                    assert(1 <= t[x * 9 + y] <= 9);
                    if excluded_by(board@, 81, x, y, v) {
                        let (c, d) = choose|c: int, d: int|
                            in_grid(c, d) && c * 9 + d < 81 && sees(c, d, x, y) && #[trigger] cell_of(
                                board@,
                                c,
                                d,
                            ) == v;
                        assert(board@[c * 9 + d] != 0);
                        assert(conflicts_with(t, x, y, c, d));
                        assert(has_conflict_at(t, x, y));
                    }
                }
            }
        }
        proof {
            assert forall|t: Seq<u8>| #[trigger] first.admits(t) == is_solution(board@, t) by {
                if is_solution(board@, t) {
                    assert(respects(board@, possible_values, t));
                }
            }
        }
        let r = solve_simple_strategies(&mut this);
        proof {
            if r is NotSolvable {
                assert forall|t: Seq<u8>| !#[trigger] is_solution(board@, t) by {
                    assert(!first.admits(t));
                }
            } else {
                assert forall|t: Seq<u8>| #[trigger] this.admits(t) == is_solution(board@, t) by {
                    assert(first.admits(t) == this.admits(t));
                }
            }
        }
        match r {
            SimpleSolverResult::FoundSomething | SimpleSolverResult::FoundNothing => Some(this),
            SimpleSolverResult::NotSolvable => None,
        }
    }

    /// The current board.
    pub fn board(&self) -> (r: &Board)
        ensures
            r@ == self.cells(),
    {
        &self.board
    }

    /// The digits still possible in each cell.
    pub fn possible_values(&self) -> (r: &PossibleValues)
        ensures
            *r == self.candidates(),
    {
        &self.possible_values
    }

    pub fn get_field(&self, x: usize, y: usize) -> (r: Option<u8>)
        requires
            x < WIDTH,
            y < HEIGHT,
        ensures
            r == (if cell_of(self.cells(), x as int, y as int) == 0 {
                None
            } else {
                Some(cell_of(self.cells(), x as int, y as int))
            }),
            r matches Some(v) ==> 1 <= v <= 9,
    {
        self.board.get(x, y)
    }

    pub fn field_is_empty(&self, x: usize, y: usize) -> (r: bool)
        requires
            x < WIDTH,
            y < HEIGHT,
        ensures
            r == (cell_of(self.cells(), x as int, y as int) == 0),
    {
        self.board.field(x, y).is_empty()
    }

    /// Places `value` into the empty cell `(x, y)`, excludes it from the cells that see it, then
    /// applies the simple strategies to the row, column and region of `(x, y)`.
    pub fn set_empty_field_to_value_and_apply_simple_strategies(
        &mut self,
        x: usize,
        y: usize,
        value: u8,
    ) -> (r: SimpleSolverResult)
        requires
            old(self).wf(),
            x < WIDTH,
            y < HEIGHT,
            1 <= value <= 9,
            cell_of(old(self).cells(), x as int, y as int) == 0,
            old(self).candidates().possible(x as int, y as int, value as int),
        ensures
            final(self).wf(),
            is_subset(old(self).cells(), final(self).cells()),
            cell_of(final(self).cells(), x as int, y as int) == value,
            final(self).empties() < old(self).empties(),
            narrowed(*old(self), *final(self)),
            r is NotSolvable ==> forall|s: Seq<u8>|
                !(#[trigger] old(self).admits(s) && cell_of(s, x as int, y as int) == value),
            !(r is NotSolvable) ==> forall|s: Seq<u8>|
                #![trigger final(self).admits(s)]
                #![trigger old(self).admits(s)]
                final(self).admits(s) == (old(self).admits(s) && cell_of(s, x as int, y as int)
                    == value),
            r is FoundNothing ==> scoped_stable(*final(self), x as int, y as int),
        decreases old(self).empties_after_one(), 5nat,
    {
        let ghost start = *self;
        self.board.set(x, y, Some(value));
        self.possible_values.remove_conflicting(x, y, value);
        proof {
            lemma_place(
                start.cells(),
                start.candidates(),
                self.cells(),
                self.candidates(),
                x as int,
                y as int,
                value as int,
            );
            assert forall|s: Seq<u8>| #[trigger]
                self.admits(s) == (start.admits(s) && cell_of(s, x as int, y as int) == value) by {
                assert(is_solution(self.cells(), s) == is_solution(self.cells(), s));
            }
        }
        let ghost mid = *self;
        let r = solve_simple_strategies_triggered_by_modification(self, x as u8, y as u8);
        proof {
            assert(propagated(mid, *self, r));
            if !(r is NotSolvable) {
                assert forall|s: Seq<u8>| #[trigger]
                    self.admits(s) == (start.admits(s) && cell_of(s, x as int, y as int)
                        == value) by {
                    assert(mid.admits(s) == self.admits(s));
                }
            } else {
                assert forall|s: Seq<u8>|
                    !(#[trigger] start.admits(s) && cell_of(s, x as int, y as int) == value) by {
                    assert(!mid.admits(s));
                }
            }
            assert(mid.cells()[x * 9 + y] != 0);
            assert(cell_of(self.cells(), x as int, y as int) == value);
            assert(narrowed(start, mid)) by {
                assert forall|a: int, b: int|
                    in_grid(a, b) && cell_of(start.cells(), a, b) == 0 && #[trigger] cell_of(
                        mid.cells(),
                        a,
                        b,
                    ) != 0 implies start.candidates().possible(
                    a,
                    b,
                    cell_of(mid.cells(), a, b) as int,
                ) by {
                    if a != x || b != y {
                        assert(a * 9 + b != x * 9 + y);
                    }
                }
            }
            lemma_narrowed_trans(start, mid, *self);
        }
        r
    }

    /// Excludes `value` from the empty cell `(x, y)`, so that a search does not try it there
    /// again.
    pub fn remove_possible_value(&mut self, x: usize, y: usize, value: u8)
        requires
            old(self).wf(),
            x < WIDTH,
            y < HEIGHT,
            1 <= value <= 9,
            cell_of(old(self).cells(), x as int, y as int) == 0,
            old(self).candidates().possible(x as int, y as int, value as int),
        ensures
            final(self).wf(),
            final(self).cells() == old(self).cells(),
            forall|a: int, b: int, w: int|
                in_grid(a, b) && 1 <= w <= 9 ==> #[trigger] final(self).candidates().possible(
                    a,
                    b,
                    w,
                ) == (old(self).candidates().possible(a, b, w) && !(a == x && b == y && w
                    == value)),
            forall|s: Seq<u8>|
                #![trigger final(self).admits(s)]
                #![trigger old(self).admits(s)]
                final(self).admits(s) == (old(self).admits(s) && cell_of(s, x as int, y as int)
                    != value),
    {
        let ghost start = *self;
        self.possible_values.remove(x, y, value);
        proof {
            assert forall|s: Seq<u8>| #[trigger]
                self.admits(s) == (start.admits(s) && cell_of(s, x as int, y as int)
                    != value) by {
                if start.admits(s) && cell_of(s, x as int, y as int) != value {
                    assert forall|a: int, b: int| in_grid(a, b) && #[trigger] cell_of(
                        self.cells(),
                        a,
                        b,
                    ) == 0 implies self.candidates().possible(
                        a,
                        b,
                        cell_of(s, a, b) as int,
                    ) by {
                        assert(1 <= s[a * 9 + b] <= 9);
                    }
                }
                if self.admits(s) {
                    assert forall|a: int, b: int| in_grid(a, b) && #[trigger] cell_of(
                        start.cells(),
                        a,
                        b,
                    ) == 0 implies start.candidates().possible(
                        a,
                        b,
                        cell_of(s, a, b) as int,
                    ) by {
                        assert(1 <= s[a * 9 + b] <= 9);
                    }
                    assert(1 <= s[x * 9 + y] <= 9);
                    assert(self.candidates().possible(
                        x as int,
                        y as int,
                        cell_of(s, x as int, y as int) as int,
                    ));
                }
            }
        }
    }
}

} // verus!
