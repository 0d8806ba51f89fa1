use vstd::prelude::*;

use bitvec::array::BitArray;
use bitvec::order::Lsb0;

use crate::board::{cell_of, in_grid, is_grid, sees, Board, HEIGHT, WIDTH};

verus! {

/// A fixed array of 736 bits, stored in a bit array of the bitvec crate. The array sits in an
/// opaque struct because `BitArray` cannot be declared to Verus: its parameters are bound by
/// bitvec's own traits. What it holds is named by [bits_of].
#[verifier::external_body]
#[derive(Copy)]
pub struct CandidateBits {
    bits: BitArray<[u32; 23], Lsb0>,
}

// Written out: a derived `clone` would show Verus the hidden field.
impl Clone for CandidateBits {
    fn clone(&self) -> (r: Self)
        ensures
            r == *self,
    {
        *self
    }
}

/// The bits of a [CandidateBits], in index order.
pub uninterp spec fn bits_of(a: CandidateBits) -> Seq<bool>;

/// Relies on `BitArray::new`: wraps the buffer; all its 23 * 32 bits are ones.
#[verifier::external_body]
fn all_ones() -> (r: CandidateBits)
    ensures
        bits_of(r).len() == 736,
        forall|i: int| 0 <= i < 736 ==> #[trigger] bits_of(r)[i],
{
    CandidateBits { bits: BitArray::new([u32::MAX; 23]) }
}

/// Relies on `BitSlice`'s indexing (through `Deref`): the bit at `i`.
#[verifier::external_body]
fn bit_at(a: &CandidateBits, i: usize) -> (r: bool)
    requires
        i < bits_of(*a).len(),
    ensures
        r == bits_of(*a)[i as int],
{
    a.bits[i]
}

/// Relies on `BitSlice::set`: writes `false` into the bit at `i`, leaving the others.
#[verifier::external_body]
fn clear_bit(a: &mut CandidateBits, i: usize)
    requires
        i < bits_of(*old(a)).len(),
    ensures
        bits_of(*final(a)) == bits_of(*old(a)).update(i as int, false),
{
    a.bits.set(i, false);
}

/// Where the bit of digit `v` of cell `(x, y)` sits.
pub open spec fn bit_index(x: int, y: int, v: int) -> int {
    9 * (x * 9 + y) + v - 1
}

/// The digit `v` is a candidate of the cell `(x, y)`.
pub open spec fn bit_possible(bits: Seq<bool>, x: int, y: int, v: int) -> bool {
    bits[bit_index(x, y, v)]
}

/// Some filled cell `(c, d)` among the first `n` in column-major order sees `(x, y)` and holds `v`.
pub open spec fn excluded_by(b: Seq<u8>, n: int, x: int, y: int, v: int) -> bool {
    exists|c: int, d: int|
        in_grid(c, d) && c * 9 + d < n && sees(c, d, x, y) && #[trigger] cell_of(b, c, d) == v
}

/// For each cell, the digits not yet excluded: nine bits per cell.
#[derive(Clone, Copy)]
pub struct PossibleValues {
    values: CandidateBits,
}

impl PossibleValues {
    pub closed spec fn wf(&self) -> bool {
        bits_of(self.values).len() == 736
    }

    /// Digit `v` (1 to 9) is still possible in cell `(x, y)`.
    pub closed spec fn possible(&self, x: int, y: int, v: int) -> bool {
        bit_possible(bits_of(self.values), x, y, v)
    }

    /// The number of digits still possible in cell `(x, y)`.
    pub open spec fn count(&self, x: int, y: int) -> int {
        (if self.possible(x, y, 1) { 1int } else { 0int }) + (if self.possible(x, y, 2) { 1int } else { 0int })
            + (if self.possible(x, y, 3) { 1int } else { 0int }) + (if self.possible(x, y, 4) { 1int } else { 0int })
            + (if self.possible(x, y, 5) { 1int } else { 0int }) + (if self.possible(x, y, 6) { 1int } else { 0int })
            + (if self.possible(x, y, 7) { 1int } else { 0int }) + (if self.possible(x, y, 8) { 1int } else { 0int })
            + (if self.possible(x, y, 9) { 1int } else { 0int })
    }

    pub fn new_all_is_possible() -> (r: Self)
        ensures
            r.wf(),
            forall|x: int, y: int, v: int|
                in_grid(x, y) && 1 <= v <= 9 ==> #[trigger] r.possible(x, y, v),
    {
        let r = PossibleValues { values: all_ones() };
        assert forall|x: int, y: int, v: int|
            in_grid(x, y) && 1 <= v <= 9 implies #[trigger] r.possible(x, y, v) by {
            assert(0 <= bit_index(x, y, v) < 736);
        }
        r
    }

    fn index(x: usize, y: usize, value: u8) -> (r: usize)
        requires
            x < WIDTH,
            y < HEIGHT,
            1 <= value <= 9,
        ensures
            r == bit_index(x as int, y as int, value as int),
            r < 729,
    {
        9 * (x * HEIGHT + y) + value as usize - 1
    }

    /// Whether digit `value` is still possible in cell `(x, y)`.
    pub fn is_possible(&self, x: usize, y: usize, value: u8) -> (r: bool)
        requires
            self.wf(),
            x < WIDTH,
            y < HEIGHT,
            1 <= value <= 9,
        ensures
            r == self.possible(x as int, y as int, value as int),
    {
        bit_at(&self.values, Self::index(x, y, value))
    }

    /// Excludes digit `value` from cell `(x, y)`, where it was possible.
    pub fn remove(&mut self, x: usize, y: usize, value: u8)
        requires
            old(self).wf(),
            x < WIDTH,
            y < HEIGHT,
            1 <= value <= 9,
            old(self).possible(x as int, y as int, value as int),
        ensures
            final(self).wf(),
            forall|a: int, b: int, w: int|
                in_grid(a, b) && 1 <= w <= 9 ==> #[trigger] final(self).possible(a, b, w) == (old(
                    self,
                ).possible(a, b, w) && !(a == x && b == y && w == value)),
    {
        self.remove_if_set(x, y, value);
    }

    fn remove_if_set(&mut self, x: usize, y: usize, value: u8)
        requires
            old(self).wf(),
            x < WIDTH,
            y < HEIGHT,
            1 <= value <= 9,
        ensures
            final(self).wf(),
            forall|a: int, b: int, w: int|
                in_grid(a, b) && 1 <= w <= 9 ==> #[trigger] final(self).possible(a, b, w) == (old(
                    self,
                ).possible(a, b, w) && !(a == x && b == y && w == value)),
    {
        let i = Self::index(x, y, value);
        clear_bit(&mut self.values, i);
        assert forall|a: int, b: int, w: int| in_grid(a, b) && 1 <= w <= 9 implies #[trigger] self.possible(a, b, w) == (old(
                    self,
                ).possible(a, b, w) && !(a == x && b == y && w == value)) by {
            if !(a == x && b == y && w == value) {
                assert(bit_index(a, b, w) != bit_index(x as int, y as int, value as int));
            }
        }
    }

    /// Excludes `value` from every cell that sees `(x, y)`: its column, its row and its region,
    /// `(x, y)` included.
    pub fn remove_conflicting(&mut self, x: usize, y: usize, value: u8)
        requires
            old(self).wf(),
            x < WIDTH,
            y < HEIGHT,
            1 <= value <= 9,
        ensures
            final(self).wf(),
            forall|a: int, b: int, w: int|
                in_grid(a, b) && 1 <= w <= 9 ==> #[trigger] final(self).possible(a, b, w) == (old(
                    self,
                ).possible(a, b, w) && !(w == value && sees(x as int, y as int, a, b))),
    {
        self.remove_value_from_col(value, x);
        self.remove_value_from_row(value, y);
        self.remove_value_from_region(value, x / 3, y / 3);
    }

    fn remove_value_from_col(&mut self, value: u8, x: usize)
        requires
            old(self).wf(),
            x < WIDTH,
            1 <= value <= 9,
        ensures
            final(self).wf(),
            forall|a: int, b: int, w: int|
                in_grid(a, b) && 1 <= w <= 9 ==> #[trigger] final(self).possible(a, b, w) == (old(
                    self,
                ).possible(a, b, w) && !(w == value && a == x)),
    {
        let ghost start = *self;
        let mut y: usize = 0;
        while y < HEIGHT
            invariant
                self.wf(),
                x < 9,
                1 <= value <= 9,
                y <= 9,
                forall|a: int, b: int, w: int|
                    in_grid(a, b) && 1 <= w <= 9 ==> #[trigger] self.possible(a, b, w) == (
                    start.possible(a, b, w) && !(w == value && a == x && b < y)),
            decreases 9 - y,
        {
            self.remove_if_set(x, y, value);
            y += 1;
        }
    }

    fn remove_value_from_row(&mut self, value: u8, y: usize)
        requires
            old(self).wf(),
            y < HEIGHT,
            1 <= value <= 9,
        ensures
            final(self).wf(),
            forall|a: int, b: int, w: int|
                in_grid(a, b) && 1 <= w <= 9 ==> #[trigger] final(self).possible(a, b, w) == (old(
                    self,
                ).possible(a, b, w) && !(w == value && b == y)),
    {
        let ghost start = *self;
        let mut x: usize = 0;
        while x < WIDTH
            invariant
                self.wf(),
                y < 9,
                1 <= value <= 9,
                x <= 9,
                forall|a: int, b: int, w: int|
                    in_grid(a, b) && 1 <= w <= 9 ==> #[trigger] self.possible(a, b, w) == (
                    start.possible(a, b, w) && !(w == value && b == y && a < x)),
            decreases 9 - x,
        {
            self.remove_if_set(x, y, value);
            x += 1;
        }
    }

    fn remove_value_from_region(&mut self, value: u8, region_x: usize, region_y: usize)
        requires
            old(self).wf(),
            region_x < 3,
            region_y < 3,
            1 <= value <= 9,
        ensures
            final(self).wf(),
            forall|a: int, b: int, w: int|
                in_grid(a, b) && 1 <= w <= 9 ==> #[trigger] final(self).possible(a, b, w) == (old(
                    self,
                ).possible(a, b, w) && !(w == value && a / 3 == region_x && b / 3 == region_y)),
    {
        let ghost start = *self;
        let mut i: usize = 0;
        while i < 3
            invariant
                self.wf(),
                region_x < 3,
                region_y < 3,
                1 <= value <= 9,
                i <= 3,
                forall|a: int, b: int, w: int|
                    in_grid(a, b) && 1 <= w <= 9 ==> #[trigger] self.possible(a, b, w) == (
                    start.possible(a, b, w) && !(w == value && a / 3 == region_x && b / 3
                        == region_y && a < 3 * region_x + i)),
            decreases 3 - i,
        {
            let mut j: usize = 0;
            while j < 3
                invariant
                    self.wf(),
                    region_x < 3,
                    region_y < 3,
                    1 <= value <= 9,
                    i < 3,
                    j <= 3,
                    forall|a: int, b: int, w: int|
                        in_grid(a, b) && 1 <= w <= 9 ==> #[trigger] self.possible(a, b, w) == (
                        start.possible(a, b, w) && !(w == value && a / 3 == region_x && b / 3
                            == region_y && (a < 3 * region_x + i || (a == 3 * region_x + i && b
                            < 3 * region_y + j)))),
                decreases 3 - j,
            {
                self.remove_if_set(3 * region_x + i, 3 * region_y + j, value);
                j += 1;
            }
            i += 1;
        }
    }

    /// All digits possible everywhere, then each filled cell's digit excluded from the cells
    /// that see it.
    pub fn from_board(board: &Board) -> (r: PossibleValues)
        ensures
            r.wf(),
            forall|x: int, y: int, v: int|
                in_grid(x, y) && 1 <= v <= 9 ==> #[trigger] r.possible(x, y, v) == !excluded_by(
                    board@,
                    81,
                    x,
                    y,
                    v,
                ),
    {
        board.reveal_grid();
        let mut possible_values = PossibleValues::new_all_is_possible();
        let mut x: usize = 0;
        while x < WIDTH
            invariant
                possible_values.wf(),
                x <= 9,
                is_grid(board@),
                forall|a: int, b: int, v: int|
                    in_grid(a, b) && 1 <= v <= 9 ==> #[trigger] possible_values.possible(a, b, v)
                        == !excluded_by(board@, x * 9, a, b, v),
            decreases 9 - x,
        {
            let mut y: usize = 0;
            while y < HEIGHT
                invariant
                    possible_values.wf(),
                    x < 9,
                    y <= 9,
                    is_grid(board@),
                    forall|a: int, b: int, v: int|
                        in_grid(a, b) && 1 <= v <= 9 ==> #[trigger] possible_values.possible(
                            a,
                            b,
                            v,
                        ) == !excluded_by(board@, x * 9 + y, a, b, v),
                decreases 9 - y,
            {
                let ghost before = possible_values;
                if let Some(value) = board.get(x, y) {
                    possible_values.remove_conflicting(x, y, value);
                }
                assert forall|a: int, b: int, v: int| in_grid(a, b) && 1 <= v <= 9 implies #[trigger] possible_values.possible(
                    a,
                    b,
                    v,
                ) == !excluded_by(board@, x * 9 + y + 1, a, b, v) by {
                    if excluded_by(board@, x * 9 + y + 1, a, b, v) {
                        let (c, d) = choose|c: int, d: int|
                            in_grid(c, d) && c * 9 + d < x * 9 + y + 1 && sees(c, d, a, b)
                                && #[trigger] cell_of(board@, c, d) == v;
                        if c * 9 + d < x * 9 + y {
                            assert(excluded_by(board@, x * 9 + y, a, b, v));
                        } else {
                            assert(c == x && d == y);
                        }
                    } else {
                        assert(!excluded_by(board@, x * 9 + y, a, b, v));
                        if cell_of(board@, x as int, y as int) == v {
                            assert(!sees(x as int, y as int, a, b));
                        }
                    }
                }
                y += 1;
            }
            x += 1;
        }
        possible_values
    }

    /// The digits still possible in cell `(x, y)`, in ascending order.
    pub fn possible_values_for_field(&self, x: usize, y: usize) -> (r: Vec<u8>)
        requires
            self.wf(),
            x < WIDTH,
            y < HEIGHT,
        ensures
            forall|i: int|
                0 <= i < r@.len() ==> 1 <= #[trigger] r@[i] <= 9 && self.possible(
                    x as int,
                    y as int,
                    r@[i] as int,
                ),
            forall|v: int|
                1 <= v <= 9 && self.possible(x as int, y as int, v) ==> r@.contains(v as u8),
            forall|i: int, j: int| 0 <= i < j < r@.len() ==> r@[i] < r@[j],
    {
        let mut r: Vec<u8> = Vec::new();
        let mut v: u8 = 1;
        while v <= 9
            invariant
                self.wf(),
                x < 9,
                y < 9,
                1 <= v <= 10,
                forall|i: int|
                    0 <= i < r@.len() ==> 1 <= #[trigger] r@[i] < v && self.possible(
                        x as int,
                        y as int,
                        r@[i] as int,
                    ),
                forall|w: int|
                    1 <= w < v && self.possible(x as int, y as int, w) ==> r@.contains(w as u8),
                forall|i: int, j: int| 0 <= i < j < r@.len() ==> r@[i] < r@[j],
            decreases 10 - v,
        {
            if self.is_possible(x, y, v) {
                let ghost prev = r@;
                r.push(v);
                assert forall|w: int|
                    1 <= w < v + 1 && self.possible(x as int, y as int, w) implies r@.contains(
                    w as u8,
                ) by {
                    if w < v {
                        let k = choose|k: int| 0 <= k < prev.len() && prev[k] == w as u8;
                        assert(r@[k] == w as u8);
                    } else {
                        assert(r@[prev.len() as int] == v);
                    }
                }
            }
            v += 1;
        }
        r
    }

    /// The smallest digit still possible in cell `(x, y)`.
    pub fn first_possible_value_for_field(&self, x: usize, y: usize) -> (r: Option<u8>)
        requires
            self.wf(),
            x < WIDTH,
            y < HEIGHT,
        ensures
            r is None <==> forall|v: int| 1 <= v <= 9 ==> !self.possible(x as int, y as int, v),
            r matches Some(v) ==> 1 <= v <= 9 && self.possible(x as int, y as int, v as int)
                && forall|w: int| 1 <= w < v ==> !self.possible(x as int, y as int, w),
    {
        let mut v: u8 = 1;
        while v <= 9
            invariant
                self.wf(),
                x < 9,
                y < 9,
                1 <= v <= 10,
                forall|w: int| 1 <= w < v ==> !self.possible(x as int, y as int, w),
            decreases 10 - v,
        {
            if self.is_possible(x, y, v) {
                return Some(v);
            }
            v += 1;
        }
        None
    }
}

} // verus!
