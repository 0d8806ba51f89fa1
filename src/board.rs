use vstd::prelude::*;
use vstd::set_lib::{lemma_int_range, lemma_len_subset, set_int_range};
use vstd::string::StrSliceExecFns;

verus! {

pub const WIDTH: usize = 9;

pub const HEIGHT: usize = 9;

pub const NUM_FIELDS: usize = 81;

pub const MAX_VALUE: u8 = 9;

/// `(x, y)` addresses a cell: `x` is the column, `y` the row.
pub open spec fn in_grid(x: int, y: int) -> bool {
    0 <= x < 9 && 0 <= y < 9
}

/// Cells are stored column by column: first top to bottom, then the next column.
pub open spec fn cell_index(x: int, y: int) -> int {
    x * 9 + y
}

/// The value of cell `(x, y)` in a grid of 81 values, 0 meaning empty.
pub open spec fn cell_of(s: Seq<u8>, x: int, y: int) -> u8 {
    s[x * 9 + y]
}

/// The two cells lie in one row, one column or one 3x3 region (every cell sees itself).
pub open spec fn sees(x1: int, y1: int, x2: int, y2: int) -> bool {
    x1 == x2 || y1 == y2 || (x1 / 3 == x2 / 3 && y1 / 3 == y2 / 3)
}

/// Two different cells that share a unit.
pub open spec fn peers(x1: int, y1: int, x2: int, y2: int) -> bool {
    sees(x1, y1, x2, y2) && !(x1 == x2 && y1 == y2)
}

/// 81 cells, each empty (0) or holding a digit 1 to 9.
pub open spec fn is_grid(s: Seq<u8>) -> bool {
    s.len() == 81 && forall|i: int| 0 <= i < 81 ==> #[trigger] s[i] <= 9
}

/// `(x1, y1)` holds a digit that the other cell `(x2, y2)` of one of its units holds too.
pub open spec fn conflicts_with(s: Seq<u8>, x1: int, y1: int, x2: int, y2: int) -> bool {
    in_grid(x2, y2) && peers(x1, y1, x2, y2) && cell_of(s, x1, y1) != 0 && cell_of(s, x1, y1)
        == cell_of(s, x2, y2)
}

pub open spec fn has_conflict_at(s: Seq<u8>, x1: int, y1: int) -> bool {
    exists|x2: int, y2: int| #[trigger] conflicts_with(s, x1, y1, x2, y2)
}

/// Some unit holds one digit twice.
pub open spec fn has_conflict(s: Seq<u8>) -> bool {
    exists|x1: int, y1: int| in_grid(x1, y1) && #[trigger] has_conflict_at(s, x1, y1)
}

pub open spec fn is_full(s: Seq<u8>) -> bool {
    forall|i: int| 0 <= i < 81 ==> #[trigger] s[i] != 0
}

/// Every filled cell of `s` holds the same value in `t`.
pub open spec fn is_subset(s: Seq<u8>, t: Seq<u8>) -> bool {
    forall|i: int| 0 <= i < 81 && #[trigger] s[i] != 0 ==> t[i] == s[i]
}

/// The number of empty cells among the first `n`.
pub open spec fn count_empty(s: Seq<u8>, n: int) -> nat
    decreases n,
{
    if n <= 0 {
        0
    } else {
        count_empty(s, n - 1) + if s[n - 1] == 0 {
            1nat
        } else {
            0nat
        }
    }
}

pub open spec fn num_empty_of(s: Seq<u8>) -> nat {
    count_empty(s, 81)
}

/// `s` is a completed, conflict-free grid that keeps every clue of `puzzle`.
pub open spec fn is_solution(puzzle: Seq<u8>, s: Seq<u8>) -> bool {
    is_grid(s) && is_full(s) && !has_conflict(s) && is_subset(puzzle, s)
}

/// There are no more empty cells among the first `n` than `n`.
pub proof fn lemma_count_empty_bounds(s: Seq<u8>, n: int)
    ensures
        count_empty(s, n) <= if n < 0 {
            0
        } else {
            n
        },
    decreases n,
{
    if n > 0 {
        lemma_count_empty_bounds(s, n - 1);
    }
}

/// Filling cells never adds empty ones; filling one that was empty removes one.
pub proof fn lemma_count_empty_mono(s: Seq<u8>, t: Seq<u8>, n: int)
    requires
        0 <= n <= 81,
        s.len() == 81,
        t.len() == 81,
        is_subset(s, t),
    ensures
        count_empty(t, n) <= count_empty(s, n),
        (exists|i: int| 0 <= i < n && s[i] == 0 && t[i] != 0) ==> count_empty(t, n) < count_empty(
            s,
            n,
        ),
    decreases n,
{
    if n > 0 {
        lemma_count_empty_mono(s, t, n - 1);
        if s[n - 1] != 0 {
            assert(t[n - 1] == s[n - 1]);
        }
        if exists|i: int| 0 <= i < n && s[i] == 0 && t[i] != 0 {
            let i = choose|i: int| 0 <= i < n && s[i] == 0 && t[i] != 0;
            if i < n - 1 {
                assert(exists|i: int| 0 <= i < n - 1 && s[i] == 0 && t[i] != 0);
            }
        }
    }
}

/// A grid with an empty cell has at least one empty cell counted.
pub proof fn lemma_count_empty_positive(s: Seq<u8>, i: int, n: int)
    requires
        0 <= i < n <= 81,
        s.len() == 81,
        s[i] == 0,
    ensures
        count_empty(s, n) >= 1,
    decreases n,
{
    if i < n - 1 {
        lemma_count_empty_positive(s, i, n - 1);
    }
}

/// Nine different cells that all see each other: a row, a column or a region.
pub open spec fn is_unit(u: Seq<(u8, u8)>) -> bool {
    &&& u.len() == 9
    &&& forall|i: int| 0 <= i < 9 ==> (#[trigger] u[i]).0 < 9 && u[i].1 < 9
    &&& forall|i: int, j: int|
        0 <= i < 9 && 0 <= j < 9 && i != j ==> #[trigger] u[i] != #[trigger] u[j] && sees(
            u[i].0 as int,
            u[i].1 as int,
            u[j].0 as int,
            u[j].1 as int,
        )
}

/// The cells of row `y`, left to right.
pub open spec fn row_unit(y: int) -> Seq<(u8, u8)> {
    Seq::new(9, |i: int| (i as u8, y as u8))
}

/// The cells of column `x`, top to bottom.
pub open spec fn col_unit(x: int) -> Seq<(u8, u8)> {
    Seq::new(9, |i: int| (x as u8, i as u8))
}

/// The cells of the 3x3 region `(region_x, region_y)`, column by column.
pub open spec fn region_unit(region_x: int, region_y: int) -> Seq<(u8, u8)> {
    Seq::new(9, |i: int| ((region_x * 3 + i / 3) as u8, (region_y * 3 + i % 3) as u8))
}

/// A completed grid without conflicts holds every digit in every unit.
pub proof fn lemma_unit_holds_digit(s: Seq<u8>, u: Seq<(u8, u8)>, v: int)
    requires
        is_grid(s),
        is_full(s),
        !has_conflict(s),
        is_unit(u),
        1 <= v <= 9,
    ensures
        exists|i: int| 0 <= i < 9 && #[trigger] cell_of(s, u[i].0 as int, u[i].1 as int) == v,
{
    let vals = Seq::new(9, |i: int| cell_of(s, u[i].0 as int, u[i].1 as int) as int);
    if !exists|i: int| 0 <= i < 9 && #[trigger] cell_of(s, u[i].0 as int, u[i].1 as int) == v {
        assert forall|i: int, j: int| 0 <= i < j < 9 implies vals[i] != vals[j] by {
            let (x1, y1) = (u[i].0 as int, u[i].1 as int);
            let (x2, y2) = (u[j].0 as int, u[j].1 as int);
            assert(u[i] != u[j]);
            assert(s[x1 * 9 + y1] != 0);
            if vals[i] == vals[j] {
                assert(conflicts_with(s, x1, y1, x2, y2));
                assert(has_conflict_at(s, x1, y1));
            }
        }
        assert(vals.no_duplicates());
        vals.unique_seq_to_set();
        let digits = set_int_range(1, 10).remove(v);
        lemma_int_range(1, 10);
        assert forall|w: int| vals.to_set().contains(w) implies digits.contains(w) by {
            let i = choose|i: int| 0 <= i < 9 && vals[i] == w;
            let (x1, y1) = (u[i].0 as int, u[i].1 as int);
            assert(s[x1 * 9 + y1] != 0);
            assert(s[x1 * 9 + y1] <= 9);
        }
        lemma_len_subset(vals.to_set(), digits);
    }
}

/// A character with Unicode's White_Space property, which separates cells in the text form of a
/// board.
pub open spec fn is_blank(c: char) -> bool {
    let n = c as u32;
    (9 <= n <= 13) || n == 32 || n == 0x85 || n == 0xA0 || n == 0x1680 || (0x2000 <= n <= 0x200A)
        || n == 0x2028 || n == 0x2029 || n == 0x202F || n == 0x205F || n == 0x3000
}

/// The characters of `t` that are not whitespace, in order.
pub open spec fn text_cells(t: Seq<char>) -> Seq<char>
    decreases t.len(),
{
    if t.len() == 0 {
        Seq::empty()
    } else if is_blank(t.last()) {
        text_cells(t.drop_last())
    } else {
        text_cells(t.drop_last()).push(t.last())
    }
}

/// `_` for an empty cell, or a digit from `1` to `9`.
pub open spec fn is_cell_char(c: char) -> bool {
    c == '_' || ('1' <= c <= '9')
}

/// The content of a cell written as `c`: 0 for `_`.
pub open spec fn cell_char_value(c: char) -> u8 {
    if c == '_' {
        0
    } else {
        (c as u32 - 48) as u8
    }
}

/// Whether `c` has Unicode's White_Space property.
fn is_blank_char(c: char) -> (r: bool)
    ensures
        r == is_blank(c),
{
    let n = c as u32;
    (9 <= n && n <= 13) || n == 32 || n == 0x85 || n == 0xA0 || n == 0x1680 || (0x2000 <= n && n
        <= 0x200A) || n == 0x2028 || n == 0x2029 || n == 0x202F || n == 0x205F || n == 0x3000
}

/// 81 cell characters, row by row from the top, left to right, with any whitespace between.
pub open spec fn is_board_text(t: Seq<char>) -> bool {
    text_cells(t).len() == 81 && forall|k: int|
        0 <= k < 81 ==> is_cell_char(#[trigger] text_cells(t)[k])
}

proof fn lemma_text_cells_prefix(t: Seq<char>, i: int)
    requires
        0 <= i <= t.len(),
    ensures
        text_cells(t.take(i)).len() <= text_cells(t).len(),
        forall|k: int|
            0 <= k < text_cells(t.take(i)).len() ==> #[trigger] text_cells(t.take(i))[k]
                == text_cells(t)[k],
    decreases t.len(),
{
    if i == t.len() {
        assert(t.take(i) =~= t);
    } else {
        lemma_text_cells_prefix(t.drop_last(), i);
        assert(t.drop_last().take(i) =~= t.take(i));
    }
}

/// A 9x9 sudoku board. Each cell is empty or holds a digit from 1 to 9.
#[derive(Clone, Copy, PartialEq, Eq, Debug)]
pub struct Board {
    cells: [u8; 81],
}

/// One cell of a [Board]: a copy of its content (`FieldRef<u8>`), or the board borrowed
/// mutably with the cell's position (`FieldRef<&mut Board>`), through which the cell is written.
#[derive(Clone, Copy, PartialEq, Eq, Debug)]
pub struct FieldRef<T> {
    pub field: T,
    pub x: usize,
    pub y: usize,
}

impl View for Board {
    type V = Seq<u8>;

    closed spec fn view(&self) -> Seq<u8> {
        self.cells@
    }
}

impl FieldRef<u8> {
    /// The cell's content, 0 meaning empty.
    pub open spec fn content(&self) -> u8 {
        self.field
    }

    pub fn is_empty(&self) -> (r: bool)
        ensures
            r == (self.content() == 0),
    {
        self.field == 0
    }

    pub fn get(&self) -> (r: Option<u8>)
        ensures
            r == (if self.content() == 0 {
                None
            } else {
                Some(self.content())
            }),
    {
        if self.field == 0 {
            None
        } else {
            Some(self.field)
        }
    }
}

impl<'a> FieldRef<&'a mut Board> {
    /// The board as it stands now.
    pub open spec fn board_now(&self) -> Board {
        *self.field
    }

    pub open spec fn column(&self) -> int {
        self.x as int
    }

    pub open spec fn row(&self) -> int {
        self.y as int
    }

    pub open spec fn valid(&self) -> bool {
        self.x < 9 && self.y < 9
    }

    pub fn get(&self) -> (r: Option<u8>)
        requires
            self.valid(),
        ensures
            r == (if cell_of(self.board_now()@, self.column(), self.row()) == 0 {
                None
            } else {
                Some(cell_of(self.board_now()@, self.column(), self.row()))
            }),
    {
        self.field.get(self.x, self.y)
    }

    pub fn is_empty(&self) -> (r: bool)
        requires
            self.valid(),
        ensures
            r == (cell_of(self.board_now()@, self.column(), self.row()) == 0),
    {
        self.field.field(self.x, self.y).is_empty()
    }

    /// Writes `value` (a digit from 1 to 9, or `None` to empty it) into the cell.
    pub fn set(&mut self, value: Option<u8>)
        requires
            old(self).valid(),
            value matches Some(v) ==> 1 <= v <= 9,
        ensures
            final(self).valid(),
            *final(final(self).field) == *final(old(self).field),
            final(self).column() == old(self).column(),
            final(self).row() == old(self).row(),
            final(self).board_now()@ == old(self).board_now()@.update(
                cell_index(old(self).column(), old(self).row()),
                match value {
                    Some(v) => v,
                    None => 0u8,
                },
            ),
    {
        self.field.set(self.x, self.y, value);
    }
}

impl Board {
    #[verifier::type_invariant]
    spec fn inv(&self) -> bool {
        is_grid(self.cells@)
    }

    /// States the board's invariant for the caller's proofs: 81 cells with values from 0 to 9.
    /// Does nothing at run time.
    pub fn reveal_grid(&self)
        ensures
            is_grid(self@),
    {
        proof {
            use_type_invariant(self);
        }
    }

    pub fn new_empty() -> (r: Self)
        ensures
            is_grid(r@),
            forall|i: int| 0 <= i < 81 ==> #[trigger] r@[i] == 0,
    {
        let r = Board { cells: [0u8; 81] };
        r
    }

    /// The cell at column `x` and row `y`.
    pub fn field(&self, x: usize, y: usize) -> (r: FieldRef<u8>)
        requires
            x < WIDTH,
            y < HEIGHT,
        ensures
            r.content() == cell_of(self@, x as int, y as int),
            r.content() <= 9,
            r.x == x,
            r.y == y,
    {
        proof {
            use_type_invariant(self);
        }
        FieldRef { field: self.cells[x * 9 + y], x, y }
    }

    /// The value of the cell at column `x` and row `y`, `None` for an empty cell.
    pub fn get(&self, x: usize, y: usize) -> (r: Option<u8>)
        requires
            x < WIDTH,
            y < HEIGHT,
        ensures
            r == (if cell_of(self@, x as int, y as int) == 0 {
                None
            } else {
                Some(cell_of(self@, x as int, y as int))
            }),
            r matches Some(v) ==> 1 <= v <= 9,
    {
        self.field(x, y).get()
    }

    /// Writes `value` (a digit from 1 to 9, or `None` to empty it) into the cell at `(x, y)`.
    pub fn set(&mut self, x: usize, y: usize, value: Option<u8>)
        requires
            x < WIDTH,
            y < HEIGHT,
            value matches Some(v) ==> 1 <= v <= 9,
        ensures
            final(self)@ == old(self)@.update(
                cell_index(x as int, y as int),
                match value {
                    Some(v) => v,
                    None => 0u8,
                },
            ),
    {
        proof {
            use_type_invariant(&*self);
        }
        let v: u8 = match value {
            Some(v) => v,
            None => 0,
        };
        self.cells[x * 9 + y] = v;
    }

    /// The first empty cell in column-major order (outer loop over `x`, inner over `y`).
    pub fn first_empty_field_index(&self) -> (r: Option<(usize, usize)>)
        ensures
            r is None <==> is_full(self@),
            r matches Some((x, y)) ==> {
                &&& x < 9
                &&& y < 9
                &&& cell_of(self@, x as int, y as int) == 0
                &&& forall|i: int| 0 <= i < cell_index(x as int, y as int) ==> #[trigger] self@[i] != 0
            },
    {
        proof {
            use_type_invariant(self);
        }
        let mut x: usize = 0;
        while x < WIDTH
            invariant
                x <= 9,
                self@.len() == 81,
                forall|i: int| 0 <= i < x * 9 ==> #[trigger] self@[i] != 0,
            decreases 9 - x,
        {
            let mut y: usize = 0;
            while y < HEIGHT
                invariant
                    x < 9,
                    y <= 9,
                    self@.len() == 81,
                    forall|i: int| 0 <= i < x * 9 + y ==> #[trigger] self@[i] != 0,
                decreases 9 - y,
            {
                if self.field(x, y).is_empty() {
                    return Some((x, y));
                }
                y += 1;
            }
            x += 1;
        }
        None
    }

    pub fn is_filled(&self) -> (r: bool)
        ensures
            r == is_full(self@),
    {
        self.first_empty_field_index().is_none()
    }

    /// Every filled cell of `self` holds the same value in `rhs`.
    pub fn is_subset_of(&self, rhs: &Board) -> (r: bool)
        ensures
            r == is_subset(self@, rhs@),
    {
        proof {
            use_type_invariant(self);
            use_type_invariant(rhs);
        }
        let mut x: usize = 0;
        while x < WIDTH
            invariant
                x <= 9,
                self@.len() == 81,
                rhs@.len() == 81,
                forall|i: int| 0 <= i < x * 9 && #[trigger] self@[i] != 0 ==> rhs@[i] == self@[i],
            decreases 9 - x,
        {
            let mut y: usize = 0;
            while y < HEIGHT
                invariant
                    x < 9,
                    y <= 9,
                    self@.len() == 81,
                    rhs@.len() == 81,
                    forall|i: int|
                        0 <= i < x * 9 + y && #[trigger] self@[i] != 0 ==> rhs@[i] == self@[i],
                decreases 9 - y,
            {
                if let Some(lhs_value) = self.get(x, y) {
                    if rhs.get(x, y) != Some(lhs_value) {
                        assert(self@[x * 9 + y] != 0 && rhs@[x * 9 + y] != self@[x * 9 + y]);
                        return false;
                    }
                }
                y += 1;
            }
            x += 1;
        }
        true
    }

    pub fn num_empty(&self) -> (r: usize)
        ensures
            r == num_empty_of(self@),
            r <= 81,
    {
        proof {
            use_type_invariant(self);
        }
        let mut num_empty: usize = 0;
        let mut x: usize = 0;
        while x < WIDTH
            invariant
                x <= 9,
                self@.len() == 81,
                num_empty == count_empty(self@, x * 9),
            decreases 9 - x,
        {
            let mut y: usize = 0;
            while y < HEIGHT
                invariant
                    x < 9,
                    y <= 9,
                    self@.len() == 81,
                    num_empty == count_empty(self@, x * 9 + y),
                decreases 9 - y,
            {
                proof {
                    lemma_count_empty_bounds(self@, x * 9 + y);
                }
                if self.field(x, y).is_empty() {
                    num_empty += 1;
                }
                y += 1;
            }
            x += 1;
        }
        proof {
            lemma_count_empty_bounds(self@, 81);
        }
        num_empty
    }

    /// Whether the cell `(x1, y1)` holds a digit that another cell of its row, column or region
    /// holds too.
    fn has_conflicts_in_fields(&self, x1: usize, y1: usize) -> (r: bool)
        requires
            x1 < 9,
            y1 < 9,
        ensures
            r == has_conflict_at(self@, x1 as int, y1 as int),
    {
        proof {
            use_type_invariant(self);
        }
        let value = self.field(x1, y1);
        if value.is_empty() {
            return false;
        }
        assert(value.content() != 0);
        let mut x2: usize = 0;
        while x2 < WIDTH
            invariant
                x2 <= 9,
                x1 < 9,
                y1 < 9,
                self@.len() == 81,
                value.content() == cell_of(self@, x1 as int, y1 as int),
                value.content() != 0,
                forall|a: int, b: int|
                    a < x2 ==> !#[trigger] conflicts_with(self@, x1 as int, y1 as int, a, b),
            decreases 9 - x2,
        {
            let mut y2: usize = 0;
            while y2 < HEIGHT
                invariant
                    x2 < 9,
                    y2 <= 9,
                    x1 < 9,
                    y1 < 9,
                    self@.len() == 81,
                    value.content() == cell_of(self@, x1 as int, y1 as int),
                    value.content() != 0,
                    forall|a: int, b: int|
                        a < x2 || (a == x2 && b < y2) ==> !#[trigger] conflicts_with(
                            self@,
                            x1 as int,
                            y1 as int,
                            a,
                            b,
                        ),
                decreases 9 - y2,
            {
                let same_unit = x1 == x2 || y1 == y2 || (x1 / 3 == x2 / 3 && y1 / 3 == y2 / 3);
                if same_unit && !(x1 == x2 && y1 == y2) && self.field(x2, y2).get() == value.get() {
                    assert(conflicts_with(self@, x1 as int, y1 as int, x2 as int, y2 as int));
                    return true;
                }
                y2 += 1;
            }
            x2 += 1;
        }
        false
    }

    /// Whether some row, column or region holds one digit twice.
    pub fn has_conflicts(&self) -> (r: bool)
        ensures
            r == has_conflict(self@),
    {
        let mut x: usize = 0;
        while x < WIDTH
            invariant
                x <= 9,
                forall|a: int, b: int|
                    0 <= a < x && 0 <= b < 9 ==> !#[trigger] has_conflict_at(self@, a, b),
            decreases 9 - x,
        {
            let mut y: usize = 0;
            while y < HEIGHT
                invariant
                    x < 9,
                    y <= 9,
                    forall|a: int, b: int|
                        0 <= a < 9 && 0 <= b < 9 && (a < x || (a == x && b < y))
                            ==> !#[trigger] has_conflict_at(self@, a, b),
                decreases 9 - y,
            {
                if self.has_conflicts_in_fields(x, y) {
                    return true;
                }
                y += 1;
            }
            x += 1;
        }
        false
    }

    /// Reads a board from its text form: `_` for an empty cell or a digit, row by row from the
    /// top and left to right within a row; whitespace is skipped.
    pub fn from_str(board: &str) -> (r: Board)
        requires
            is_board_text(board@),
        ensures
            forall|x: int, y: int|
                in_grid(x, y) ==> #[trigger] cell_of(r@, x, y) == cell_char_value(
                    text_cells(board@)[y * 9 + x],
                ),
    {
        let len = board.unicode_len();
        let ghost t = board@;
        let mut result = Board::new_empty();
        let mut k: usize = 0;
        let mut i: usize = 0;
        while i < len
            invariant
                len == t.len(),
                board@ == t,
                is_board_text(t),
                i <= t.len(),
                k == text_cells(t.take(i as int)).len(),
                k <= 81,
                result@.len() == 81,
                forall|x: int, y: int|
                    in_grid(x, y) && y * 9 + x < k ==> #[trigger] cell_of(result@, x, y)
                        == cell_char_value(text_cells(t)[y * 9 + x]),
            decreases t.len() - i,
        {
            let c = board.get_char(i);
            proof {
                assert(t.take(i + 1).drop_last() =~= t.take(i as int));
                assert(t.take(i + 1).last() == c);
                lemma_text_cells_prefix(t, i + 1);
            }
            if !is_blank_char(c) {
                proof {
                    assert(text_cells(t.take(i + 1))[k as int] == c);
                    assert(is_cell_char(text_cells(t)[k as int]));
                }
                let x = k % 9;
                let y = k / 9;
                let value = if c == '_' {
                    None
                } else {
                    Some((c as u32 - 48) as u8)
                };
                let ghost prev = result@;
                result.set(x, y, value);
                proof {
                    assert forall|a: int, b: int| in_grid(a, b) && b * 9 + a < k + 1 implies
                        #[trigger] cell_of(result@, a, b) == cell_char_value(
                            text_cells(t)[b * 9 + a],
                        ) by {
                        if b * 9 + a == k {
                            assert(a == x && b == y);
                        } else {
                            assert(a * 9 + b != x * 9 + y);
                            assert(cell_of(prev, a, b) == cell_of(result@, a, b));
                        }
                    }
                }
                k += 1;
            }
            i += 1;
        }
        proof {
            assert(t.take(t.len() as int) =~= t);
        }
        result
    }

    /// The cells of row `row`, left to right.
    pub fn row_iter(&self, row: usize) -> (r: Vec<FieldRef<u8>>)
        requires
            row < HEIGHT,
        ensures
            r@.len() == 9,
            forall|i: int| 0 <= i < 9 ==> (#[trigger] r@[i]).content() == cell_of(self@, i, row as int) && r@[i].x == i
                    && r@[i].y == row,
    {
        let mut r: Vec<FieldRef<u8>> = Vec::new();
        let mut x: usize = 0;
        while x < WIDTH
            invariant
                x <= 9,
                row < 9,
                r@.len() == x,
                forall|i: int| 0 <= i < x ==> (#[trigger] r@[i]).content() == cell_of(self@, i, row as int) && r@[i].x == i
                    && r@[i].y == row,
            decreases 9 - x,
        {
            r.push(self.field(x, row));
            x += 1;
        }
        r
    }

    /// The cells of column `col`, top to bottom.
    pub fn col_iter(&self, col: usize) -> (r: Vec<FieldRef<u8>>)
        requires
            col < WIDTH,
        ensures
            r@.len() == 9,
            forall|i: int| 0 <= i < 9 ==> (#[trigger] r@[i]).content() == cell_of(self@, col as int, i) && r@[i].x == col
                    && r@[i].y == i,
    {
        let mut r: Vec<FieldRef<u8>> = Vec::new();
        let mut y: usize = 0;
        while y < HEIGHT
            invariant
                y <= 9,
                col < 9,
                r@.len() == y,
                forall|i: int| 0 <= i < y ==> (#[trigger] r@[i]).content() == cell_of(self@, col as int, i) && r@[i].x == col
                    && r@[i].y == i,
            decreases 9 - y,
        {
            r.push(self.field(col, y));
            y += 1;
        }
        r
    }

    /// The cells of the 3x3 region `(region_x, region_y)`, column by column.
    pub fn region_iter(&self, region_x: usize, region_y: usize) -> (r: Vec<FieldRef<u8>>)
        requires
            region_x < 3,
            region_y < 3,
        ensures
            r@.len() == 9,
            forall|i: int|
                0 <= i < 9 ==> (#[trigger] r@[i]).content() == cell_of(
                    self@,
                    region_x * 3 + i / 3,
                    region_y * 3 + i % 3,
                ) && r@[i].x == region_x * 3 + i / 3 && r@[i].y == region_y * 3 + i % 3,
    {
        let mut r: Vec<FieldRef<u8>> = Vec::new();
        let mut x: usize = 0;
        while x < 3
            invariant
                x <= 3,
                region_x < 3,
                region_y < 3,
                r@.len() == 3 * x,
                forall|i: int|
                    0 <= i < r@.len() ==> (#[trigger] r@[i]).content() == cell_of(
                        self@,
                        region_x * 3 + i / 3,
                        region_y * 3 + i % 3,
                    ) && r@[i].x == region_x * 3 + i / 3 && r@[i].y == region_y * 3 + i % 3,
            decreases 3 - x,
        {
            let mut y: usize = 0;
            while y < 3
                invariant
                    x < 3,
                    y <= 3,
                    region_x < 3,
                    region_y < 3,
                    r@.len() == 3 * x + y,
                    forall|i: int|
                        0 <= i < r@.len() ==> (#[trigger] r@[i]).content() == cell_of(
                            self@,
                            region_x * 3 + i / 3,
                            region_y * 3 + i % 3,
                        ) && r@[i].x == region_x * 3 + i / 3 && r@[i].y == region_y * 3 + i % 3,
                decreases 3 - y,
            {
                r.push(self.field(region_x * 3 + x, region_y * 3 + y));
                y += 1;
            }
            x += 1;
        }
        r
    }

    /// The cell at column `x` and row `y`, to be written.
    pub fn field_mut(&mut self, x: usize, y: usize) -> (r: FieldRef<&mut Board>)
        requires
            x < WIDTH,
            y < HEIGHT,
        ensures
            r.valid(),
            r.column() == x,
            r.row() == y,
            r.board_now() == *old(self),
            *final(self) == *final(r.field),
    {
        FieldRef { field: self, x, y }
    }
}

} // verus!
