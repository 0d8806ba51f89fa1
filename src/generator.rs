use vstd::prelude::*;

use rand::rngs::ThreadRng;
use rand::seq::SliceRandom;

use crate::board::{
    cell_of, conflicts_with, has_conflict_at, in_grid, is_solution, is_subset, is_unit,
    lemma_count_empty_positive, lemma_unit_holds_digit, num_empty_of, row_unit, Board, HEIGHT, WIDTH,
};
use crate::solver::search::empty_grid;
use crate::solver::{
    generate_solved, has_no_solution, has_several_solutions, has_unique_solution,
    is_unique_solution, solve, SolverError,
};

verus! {

broadcast use vstd::seq_lib::group_to_multiset_ensures;

/// Relies on `SliceRandom::shuffle`: the elements are only swapped, so the result is a
/// permutation of the input.
#[verifier::external_body]
fn shuffle_fields(fields: &mut Vec<(u8, u8)>, rng: &mut ThreadRng)
    ensures
        final(fields)@.to_multiset() == old(fields)@.to_multiset(),
{
    fields.shuffle(rng);
}

/// Every cell once, column by column.
pub open spec fn all_cells() -> Seq<(u8, u8)> {
    Seq::new(81, |i: int| ((i / 9) as u8, (i % 9) as u8))
}

/// Every cell of the board once, in random order.
pub fn shuffled_fields() -> (r: Vec<(u8, u8)>)
    ensures
        r@.to_multiset() == all_cells().to_multiset(),
        r@.len() == 81,
        forall|i: int| 0 <= i < r@.len() ==> (#[trigger] r@[i]).0 < 9 && r@[i].1 < 9,
{
    let mut all_fields: Vec<(u8, u8)> = Vec::new();
    let mut x: u8 = 0;
    while x < HEIGHT as u8
        invariant
            x <= 9,
            all_fields@ == all_cells().take(x * 9),
        decreases 9 - x,
    {
        let mut y: u8 = 0;
        while y < WIDTH as u8
            invariant
                x < 9,
                y <= 9,
                all_fields@ == all_cells().take(x * 9 + y),
            decreases 9 - y,
        {
            all_fields.push((x, y));
            proof {
                let k = x * 9 + y;
                assert(all_cells()[k] == (x, y));
                assert(all_fields@ =~= all_cells().take(k + 1));
            }
            y += 1;
        }
        x += 1;
    }
    assert(all_cells().take(81) =~= all_cells());
    let ghost before = all_fields@;
    let mut rng = rand::rng();
    shuffle_fields(&mut all_fields, &mut rng);
    assert(all_fields@.len() == 81) by {
        vstd::seq_lib::to_multiset_len(all_fields@);
        vstd::seq_lib::to_multiset_len(before);
    }
    assert forall|i: int| 0 <= i < all_fields@.len() implies (#[trigger] all_fields@[i]).0 < 9
        && all_fields@[i].1 < 9 by {
        let e = all_fields@[i];
        assert(all_fields@.contains(e));
        vstd::seq_lib::to_multiset_contains(all_fields@, e);
        vstd::seq_lib::to_multiset_contains(before, e);
        let k = choose|k: int| 0 <= k < before.len() && before[k] == e;
        assert(before[k] == all_cells()[k]);
    }
    all_fields
}

/// A board cleared in one cell of a solved board has that solved board as its only solution:
/// the row of the cell holds every other digit.
proof fn lemma_solved_minus_one(s: Seq<u8>, x: int, y: int)
    requires
        is_solution(empty_grid(), s),
        in_grid(x, y),
    ensures
        is_unique_solution(s.update(x * 9 + y, 0u8), s),
{
    let b = s.update(x * 9 + y, 0u8);
    let row = row_unit(y);
    assert(is_unit(row));
    assert forall|t: Seq<u8>| #[trigger] is_solution(b, t) implies t == s by {
        let v = cell_of(s, x, y) as int;
        assert(1 <= s[x * 9 + y] <= 9);
        lemma_unit_holds_digit(t, row, v);
        let q = choose|q: int| 0 <= q < 9 && #[trigger] cell_of(t, row[q].0 as int, row[q].1 as int) == v;
        if q != x {
            assert(b[q * 9 + y] == s[q * 9 + y]);
            assert(s[q * 9 + y] != 0);
            assert(conflicts_with(s, x, y, q, y));
            assert(has_conflict_at(s, x, y));
        }
        assert forall|i: int| 0 <= i < 81 implies t[i] == s[i] by {
            if i != x * 9 + y {
                assert(b[i] == s[i]);
                assert(s[i] != 0);
            }
        }
        assert(t =~= s);
    }
}

/// Whether `board` has more than one solution. It has at least one.
fn is_ambigious(board: Board) -> (r: bool)
    requires
        !has_no_solution(board@),
    ensures
        r == has_several_solutions(board@),
        !r ==> has_unique_solution(board@),
{
    match solve(board) {
        Err(SolverError::NotSolvable) => false,
        Err(SolverError::Ambigious) => true,
        Ok(_) => false,
    }
}

/// Empties the cell `(x, y)` if the board keeps a single solution without it; otherwise leaves
/// the board as it is. Returns whether the cell was emptied.
pub fn remove_field_if_unambigious(board: &mut Board, x: usize, y: usize) -> (r: bool)
    requires
        x < WIDTH,
        y < HEIGHT,
        !has_no_solution(old(board)@),
    ensures
        r == (cell_of(old(board)@, x as int, y as int) != 0 && has_unique_solution(
            old(board)@.update(x * 9 + y, 0u8),
        )),
        r ==> final(board)@ == old(board)@.update(x * 9 + y, 0u8),
        !r ==> final(board)@ == old(board)@,
        !has_no_solution(final(board)@),
        has_unique_solution(old(board)@) ==> has_unique_solution(final(board)@),
{
    board.reveal_grid();
    let ghost start = board@;
    let value = board.get(x, y);
    if value.is_none() {
        return false;
    }
    board.set(x, y, None);
    proof {
        let s = choose|s: Seq<u8>| #[trigger] is_solution(start, s);
        assert(is_subset(board@, start));
        assert(is_solution(board@, s));
    }
    if is_ambigious(*board) {
        board.set(x, y, value);
        proof {
            assert(board@ =~= start);
            if has_unique_solution(start.update(x * 9 + y, 0u8)) {
                let u = choose|u: Seq<u8>| #[trigger] is_unique_solution(
                    start.update(x * 9 + y, 0u8),
                    u,
                );
                let (s1, s2) = choose|s1: Seq<u8>, s2: Seq<u8>|
                    #[trigger] is_solution(start.update(x * 9 + y, 0u8), s1) && #[trigger] is_solution(
                        start.update(x * 9 + y, 0u8),
                        s2,
                    ) && s1 != s2;
                assert(s1 == u && s2 == u);
            }
        }
        false
    } else {
        true
    }
}

/// What emptying the first `n` cells of `order` one after the other leaves of `b`: each cell is
/// emptied only where the board keeps a single solution without it.
pub open spec fn greedy_removal(b: Seq<u8>, order: Seq<(u8, u8)>, n: int) -> Seq<u8>
    decreases n,
{
    if n <= 0 {
        b
    } else {
        let p = greedy_removal(b, order, n - 1);
        let (x, y) = (order[n - 1].0 as int, order[n - 1].1 as int);
        if cell_of(p, x, y) != 0 && has_unique_solution(p.update(x * 9 + y, 0u8)) {
            p.update(x * 9 + y, 0u8)
        } else {
            p
        }
    }
}

/// A board that keeps fewer clues than one with several solutions has several solutions too.
proof fn lemma_fewer_clues_not_unique(p: Seq<u8>, q: Seq<u8>, s: Seq<u8>)
    requires
        is_subset(q, p),
        is_solution(p, s),
        !has_unique_solution(p),
    ensures
        !has_unique_solution(q),
{
    assert(!is_unique_solution(p, s));
    let t = choose|t: Seq<u8>| #[trigger] is_solution(p, t) && t != s;
    assert(is_solution(q, s));
    assert(is_solution(q, t));
    if has_unique_solution(q) {
        let u = choose|u: Seq<u8>| #[trigger] is_unique_solution(q, u);
        assert(s == u && t == u);
    }
}

/// Empties the cells of `order` one after the other, each only where the board keeps a single
/// solution without it. No clue left on a cell of `order` can be emptied without losing that.
pub fn remove_fields_in_order(board: Board, order: &Vec<(u8, u8)>) -> (r: Board)
    requires
        has_unique_solution(board@),
        forall|k: int| 0 <= k < order@.len() ==> (#[trigger] order@[k]).0 < 9 && order@[k].1 < 9,
    ensures
        r@ == greedy_removal(board@, order@, order@.len() as int),
        has_unique_solution(r@),
        forall|n: int|
            0 <= n <= order@.len() ==> is_subset(r@, #[trigger] greedy_removal(board@, order@, n)),
        forall|k: int|
            0 <= k < order@.len() && cell_of(r@, order@[k].0 as int, order@[k].1 as int) != 0
                ==> !has_unique_solution(
                r@.update(#[trigger] order@[k].0 * 9 + order@[k].1, 0u8),
            ),
{
    board.reveal_grid();
    let mut board = board;
    let ghost start = board@;
    let mut i: usize = 0;
    while i < order.len()
        invariant
            forall|k: int| 0 <= k < order@.len() ==> (#[trigger] order@[k]).0 < 9 && order@[k].1 < 9,
            i <= order@.len(),
            board@ == greedy_removal(start, order@, i as int),
            has_unique_solution(board@),
            board@.len() == 81,
            forall|n: int| 0 <= n <= i ==> is_subset(board@, #[trigger] greedy_removal(start, order@, n)),
            forall|k: int|
                0 <= k < i && cell_of(board@, order@[k].0 as int, order@[k].1 as int) != 0
                    ==> !has_unique_solution(
                    board@.update(#[trigger] order@[k].0 * 9 + order@[k].1, 0u8),
                ),
        decreases order@.len() - i,
    {
        let (x, y) = order[i];
        let ghost cur = board@;
        let removed = remove_field_if_unambigious(&mut board, x as usize, y as usize);
        proof {
            assert(board@ == greedy_removal(start, order@, i + 1));
            assert(is_subset(board@, cur));
            assert forall|n: int| 0 <= n <= i + 1 implies is_subset(
                board@,
                #[trigger] greedy_removal(start, order@, n),
            ) by {
                if n <= i {
                    assert(is_subset(cur, greedy_removal(start, order@, n)));
                }
            }
            let s = choose|s: Seq<u8>| #[trigger] is_unique_solution(cur, s);
            assert forall|k: int|
                0 <= k < i + 1 && cell_of(board@, order@[k].0 as int, order@[k].1 as int) != 0
                    implies !has_unique_solution(
                board@.update(#[trigger] order@[k].0 * 9 + order@[k].1, 0u8),
            ) by {
                let c = order@[k].0 * 9 + order@[k].1;
                assert(order@[k].0 < 9 && order@[k].1 < 9);
                assert(cur[c] != 0);
                if k == i {
                    assert(!removed);
                } else {
                    assert(!has_unique_solution(cur.update(c, 0u8)));
                }
                assert(is_subset(cur.update(c, 0u8), cur));
                assert(is_solution(cur.update(c, 0u8), s));
                assert(is_subset(board@.update(c, 0u8), cur.update(c, 0u8)));
                lemma_fewer_clues_not_unique(cur.update(c, 0u8), board@.update(c, 0u8), s);
            }
        }
        i += 1;
    }
    board
}

/// A puzzle with a single solution: a random solved board, from which cells are emptied in
/// random order as long as the solution stays unique. No clue of it can be emptied without
/// losing that.
pub fn generate() -> (r: Board)
    ensures
        has_unique_solution(r@),
        num_empty_of(r@) >= 1,
        forall|x: int, y: int|
            in_grid(x, y) && cell_of(r@, x, y) != 0 ==> !has_unique_solution(
                #[trigger] r@.update(x * 9 + y, 0u8),
            ),
{
    let board = generate_solved();
    let all_fields = shuffled_fields();
    let ghost solved = board@;
    proof {
        assert(is_unique_solution(solved, solved)) by {
            assert forall|t: Seq<u8>| #[trigger] is_solution(solved, t) implies t == solved by {
                assert forall|i: int| 0 <= i < 81 implies t[i] == solved[i] by {
                    assert(solved[i] != 0);
                }
                assert(t =~= solved);
            }
        }
    }
    let r = remove_fields_in_order(board, &all_fields);
    r.reveal_grid();
    proof {
        let order = all_fields@;
        let (x0, y0) = (order[0].0 as int, order[0].1 as int);
        let c0 = x0 * 9 + y0;
        lemma_solved_minus_one(solved, x0, y0);
        assert(solved[c0] != 0);
        assert(greedy_removal(solved, order, 0) == solved);
        assert(greedy_removal(solved, order, 1) == solved.update(c0, 0u8));
        assert(is_subset(r@, greedy_removal(solved, order, 1)));
        assert(r@[c0] == 0);
        lemma_count_empty_positive(r@, c0, 81);
        assert forall|x: int, y: int|
            in_grid(x, y) && cell_of(r@, x, y) != 0 implies !has_unique_solution(
            #[trigger] r@.update(x * 9 + y, 0u8),
        ) by {
            let cell = (x as u8, y as u8);
            assert(all_cells()[x * 9 + y] == cell);
            assert(all_cells().contains(cell));
            vstd::seq_lib::to_multiset_contains(all_cells(), cell);
            vstd::seq_lib::to_multiset_contains(order, cell);
            let k = choose|k: int| 0 <= k < order.len() && order[k] == cell;
            assert(order[k].0 * 9 + order[k].1 == x * 9 + y);
        }
    }
    r
}

/// The board with the most empty cells found so far in a search for sparse puzzles.
pub struct BestBoard {
    num_empty: usize,
    board: Board,
}

impl BestBoard {
    pub closed spec fn board_spec(&self) -> Board {
        self.board
    }

    pub closed spec fn count(&self) -> usize {
        self.num_empty
    }

    /// `count` is the kept board's number of empty cells.
    pub open spec fn wf(&self) -> bool {
        self.count() == num_empty_of(self.board_spec()@)
    }

    pub fn new(board: Board) -> (r: Self)
        ensures
            r.wf(),
            r.board_spec() == board,
    {
        BestBoard { num_empty: board.num_empty(), board }
    }

    /// Keeps `board` if it has more empty cells than the kept one; returns whether it did.
    pub fn offer(&mut self, board: Board) -> (r: bool)
        requires
            old(self).wf(),
        ensures
            final(self).wf(),
            has_unique_solution(old(self).board_spec()@) && has_unique_solution(board@)
                ==> has_unique_solution(final(self).board_spec()@),
            r == (num_empty_of(board@) > old(self).count()),
            r ==> final(self).board_spec() == board,
            !r ==> *final(self) == *old(self),
    {
        let num_empty = board.num_empty();
        if num_empty > self.num_empty {
            self.num_empty = num_empty;
            self.board = board;
            true
        } else {
            false
        }
    }

    pub fn num_empty(&self) -> (r: usize)
        ensures
            r == self.count(),
    {
        self.num_empty
    }

    pub fn board(&self) -> (r: Board)
        ensures
            r == self.board_spec(),
    {
        self.board
    }
}

} // verus!
