//! The 3x3 grid that a search lane works on, and the magic-square test.
//!
//! Contracts speak of a grid through its view: the nine cells as a
//! `Seq<nat>` in row-major order, so that row `x`, column `y` is entry
//! `3 * x + y`.

use vstd::prelude::*;

verus! {

/// Side length of the grid.
pub const SIZE: usize = 3;

/// Largest value a cell takes during enumeration.
pub const MAX_VALUE: usize = 100;

/// The cell in row `x`, column `y`.
pub open spec fn cell(cells: Seq<nat>, x: int, y: int) -> nat {
    cells[3 * x + y]
}

/// Sum of the three cells of row `x`.
pub open spec fn row_sum(cells: Seq<nat>, x: int) -> nat {
    cell(cells, x, 0) + cell(cells, x, 1) + cell(cells, x, 2)
}

/// Sum of the three cells of column `y`.
pub open spec fn col_sum(cells: Seq<nat>, y: int) -> nat {
    cell(cells, 0, y) + cell(cells, 1, y) + cell(cells, 2, y)
}

/// Sum of the diagonal from the top left to the bottom right.
pub open spec fn diagonal_sum(cells: Seq<nat>) -> nat {
    cell(cells, 0, 0) + cell(cells, 1, 1) + cell(cells, 2, 2)
}

/// Sum of the diagonal from the top right to the bottom left.
pub open spec fn anti_diagonal_sum(cells: Seq<nat>) -> nat {
    cell(cells, 0, 2) + cell(cells, 1, 1) + cell(cells, 2, 0)
}

/// A grid is magic when its three rows, its three columns and its two
/// diagonals all have the same sum.
pub open spec fn is_magic_grid(cells: Seq<nat>) -> bool {
    let common = row_sum(cells, 0);
    &&& row_sum(cells, 1) == common
    &&& row_sum(cells, 2) == common
    &&& col_sum(cells, 0) == common
    &&& col_sum(cells, 1) == common
    &&& col_sum(cells, 2) == common
    &&& diagonal_sum(cells) == common
    &&& anti_diagonal_sum(cells) == common
}

/// The grid whose every cell is the square of the cell in the same place.
pub open spec fn squared(cells: Seq<nat>) -> Seq<nat> {
    Seq::new(cells.len(), |k: int| cells[k] * cells[k])
}

/// The square of every cell fits in a machine word.
pub open spec fn squares_fit(cells: Seq<nat>) -> bool {
    forall|k: int| 0 <= k < cells.len() ==> #[trigger] cells[k] * cells[k] <= usize::MAX
}

/// Nine cells, none above `MAX_VALUE`.
pub open spec fn in_range(cells: Seq<nat>) -> bool {
    &&& cells.len() == 9
    &&& forall|k: int| 0 <= k < 9 ==> #[trigger] cells[k] <= MAX_VALUE
}

/// No two cells that have been assigned (are not 0) hold the same value.
pub open spec fn assigned_distinct(cells: Seq<nat>) -> bool {
    forall|i: int, j: int|
        0 <= i < j < cells.len() && cells[i] != 0 ==> #[trigger] cells[i] != #[trigger] cells[j]
}

/// What holds of every grid that a lane produces: every cell is unset or
/// within `1..=MAX_VALUE`, and the assigned cells are pairwise distinct.
pub open spec fn well_formed(cells: Seq<nat>) -> bool {
    in_range(cells) && assigned_distinct(cells)
}

/// Every cell holds a value of `1..=MAX_VALUE` and no two cells are equal.
pub open spec fn fully_distinct(cells: Seq<nat>) -> bool {
    &&& well_formed(cells)
    &&& forall|k: int| 0 <= k < 9 ==> #[trigger] cells[k] >= 1
}

/// The grid every lane starts from: 9, 8, ..., 1 in row-major order.
pub open spec fn minimum_cells() -> Seq<nat> {
    seq![9nat, 8nat, 7nat, 6nat, 5nat, 4nat, 3nat, 2nat, 1nat]
}

/// Sum of the first `n` cells of row `x`.
spec fn row_part(cells: Seq<nat>, x: int, n: int) -> nat
    decreases n,
{
    if n <= 0 {
        0
    } else {
        row_part(cells, x, n - 1) + cell(cells, x, n - 1)
    }
}

/// Sum of the first `n` cells of column `y`.
spec fn col_part(cells: Seq<nat>, y: int, n: int) -> nat
    decreases n,
{
    if n <= 0 {
        0
    } else {
        col_part(cells, y, n - 1) + cell(cells, n - 1, y)
    }
}

/// Sum of the diagonal cells of the first `n` rows.
spec fn diagonal_part(cells: Seq<nat>, n: int) -> nat
    decreases n,
{
    if n <= 0 {
        0
    } else {
        diagonal_part(cells, n - 1) + cell(cells, n - 1, n - 1)
    }
}

/// Sum of the anti-diagonal cells of the first `n` rows.
spec fn anti_diagonal_part(cells: Seq<nat>, n: int) -> nat
    decreases n,
{
    if n <= 0 {
        0
    } else {
        anti_diagonal_part(cells, n - 1) + cell(cells, n - 1, 3 - n)
    }
}

/// Row `x` and column `x` continue the sums of row `x - 1` and column
/// `x - 1`, or those two sums are both 0.
spec fn continues_previous(cells: Seq<nat>, x: int) -> bool {
    ||| row_sum(cells, x - 1) == 0 && col_sum(cells, x - 1) == 0
    ||| row_sum(cells, x - 1) == row_sum(cells, x) && col_sum(cells, x - 1) == col_sum(cells, x)
}

proof fn lemma_parts_are_sums(cells: Seq<nat>)
    ensures
        forall|x: int| #[trigger] row_part(cells, x, 3) == row_sum(cells, x),
        forall|y: int| #[trigger] col_part(cells, y, 3) == col_sum(cells, y),
        diagonal_part(cells, 3) == diagonal_sum(cells),
        anti_diagonal_part(cells, 3) == anti_diagonal_sum(cells),
{
    reveal_with_fuel(row_part, 4);
    reveal_with_fuel(col_part, 4);
    reveal_with_fuel(diagonal_part, 4);
    reveal_with_fuel(anti_diagonal_part, 4);
}

/// In a grid within range the square of every cell fits in a machine word.
pub proof fn lemma_in_range_squares_fit(cells: Seq<nat>)
    requires
        in_range(cells),
    ensures
        squares_fit(cells),
{
    assert forall|k: int| 0 <= k < cells.len() implies #[trigger] cells[k] * cells[k]
        <= usize::MAX by {
        assert(cells[k] <= MAX_VALUE);
        assert(cells[k] * cells[k] <= 100 * 100) by (nonlinear_arith)
            requires
                cells[k] <= 100,
        ;
    }
}

/// A 3x3 grid of integers. A cell that holds 0 is unset.
#[derive(Clone, Copy, Debug, PartialEq, Eq)]
pub struct Square {
    pub data: [[usize; SIZE]; SIZE],
}

impl View for Square {
    type V = Seq<nat>;

    /// The nine cells in row-major order.
    open spec fn view(&self) -> Seq<nat> {
        Seq::new(9, |k: int| self.data[k / 3][k % 3] as nat)
    }
}

impl Square {
    /// A grid with every cell unset.
    pub fn new() -> (square: Square)
        ensures
            square@ == Seq::new(9, |k: int| 0nat),
    {
        let square = Square { data: Square::empty() };
        assert(square@ =~= Seq::new(9, |k: int| 0nat));
        square
    }

    /// Nine unset cells.
    pub fn empty() -> (data: [[usize; SIZE]; SIZE])
        ensures
            forall|x: int, y: int| 0 <= x < 3 && 0 <= y < 3 ==> data[x][y] == 0,
    {
        [[0usize; SIZE]; SIZE]
    }

    /// Stores `value` in row `x`, column `y`; every other cell keeps its value.
    pub fn set(&mut self, x: usize, y: usize, value: usize)
        requires
            x < 3,
            y < 3,
        ensures
            final(self)@ == old(self)@.update(3 * x + y, value as nat),
    {
        self.data[x][y] = value;
        assert(self@ =~= old(self)@.update(3 * x + y, value as nat));
    }

    /// The value in row `x`, column `y`.
    pub fn get(&self, x: usize, y: usize) -> (value: usize)
        requires
            x < 3,
            y < 3,
        ensures
            value == cell(self@, x as int, y as int),
    {
        self.data[x][y]
    }

    /// Whether some cell holds `new_value`.
    pub fn contains(&self, new_value: usize) -> (found: bool)
        ensures
            found == self@.contains(new_value as nat),
    {
        for x in 0..SIZE
            invariant
                forall|k: int| 0 <= k < 3 * x ==> self@[k] != new_value,
        {
            for y in 0..SIZE
                invariant
                    x < 3,
                    forall|k: int| 0 <= k < 3 * x + y ==> self@[k] != new_value,
            {
                if self.get(x, y) == new_value {
                    assert(self@[3 * x + y] == new_value as nat);
                    return true;
                }
            }
        }
        false
    }

    /// Replaces every cell by its square.
    pub fn power_of_2(&mut self)
        requires
            squares_fit(old(self)@),
        ensures
            final(self)@ == squared(old(self)@),
    {
        let ghost before = self@;
        for x in 0..SIZE
            invariant
                squares_fit(before),
                before.len() == 9,
                forall|k: int| 0 <= k < 3 * x ==> self@[k] == before[k] * before[k],
                forall|k: int| 3 * x <= k < 9 ==> self@[k] == before[k],
        {
            for y in 0..SIZE
                invariant
                    x < 3,
                    squares_fit(before),
                    before.len() == 9,
                    forall|k: int| 0 <= k < 3 * x + y ==> self@[k] == before[k] * before[k],
                    forall|k: int| 3 * x + y <= k < 9 ==> self@[k] == before[k],
            {
                let value = self.get(x, y);
                let ghost current = self@;
                assert(value * value <= usize::MAX) by {
                    assert(before[3 * x + y] * before[3 * x + y] <= usize::MAX);
                }
                self.set(x, y, value * value);
                assert(self@ == current.update(3 * x + y, (value * value) as nat));
            }
        }
        assert(self@ =~= squared(before));
    }

    /// A new grid whose every cell is the square of the cell in the same
    /// place of this one.
    pub fn squared_copy(&self) -> (copy: Square)
        requires
            squares_fit(self@),
        ensures
            copy@ == squared(self@),
    {
        let mut copy = *self;
        copy.power_of_2();
        copy
    }

    /// Whether the three rows, the three columns and the two diagonals all
    /// have the same sum.
    ///
    /// The rows are scanned in order, each together with the column of the
    /// same index, and the scan stops at the first row whose two sums differ
    /// from those of the row before.
    pub fn is_magic(&self) -> (magic: bool)
        ensures
            magic == is_magic_grid(self@),
            forall|i: int, j: int|
                0 <= i < 3 && 0 <= j < 3 && #[trigger] row_sum(self@, i) != #[trigger] row_sum(
                    self@,
                    j,
                ) ==> !magic,
    {
        let mut last_row: u128 = 0;
        let mut last_col: u128 = 0;
        let mut diagonal: u128 = 0;
        let mut anti_diagonal: u128 = 0;
        let mut row: u128 = 0;
        let mut col: u128 = 0;
        proof {
            lemma_parts_are_sums(self@);
        }
        for x in 0..SIZE
            invariant
                diagonal == diagonal_part(self@, x as int),
                anti_diagonal == anti_diagonal_part(self@, x as int),
                diagonal <= x * usize::MAX,
                anti_diagonal <= x * usize::MAX,
                row == last_row,
                col == last_col,
                x == 0 ==> last_row == 0 && last_col == 0,
                x > 0 ==> last_row == row_sum(self@, x - 1) && last_col == col_sum(self@, x - 1),
                x >= 2 ==> continues_previous(self@, 1),
                x >= 3 ==> continues_previous(self@, 2),
                forall|i: int| #[trigger] row_part(self@, i, 3) == row_sum(self@, i),
                forall|i: int| #[trigger] col_part(self@, i, 3) == col_sum(self@, i),
        {
            row = 0;
            col = 0;
            let ghost diagonal_before = diagonal;
            let ghost anti_before = anti_diagonal;
            for y in 0..SIZE
                invariant
                    x < 3,
                    row == row_part(self@, x as int, y as int),
                    col == col_part(self@, x as int, y as int),
                    row <= y * usize::MAX,
                    col <= y * usize::MAX,
                    diagonal_before <= x * usize::MAX,
                    anti_before <= x * usize::MAX,
                    diagonal == diagonal_before + if y > x {
                        cell(self@, x as int, x as int)
                    } else {
                        0
                    },
                    anti_diagonal == anti_before + if y > 2 - x {
                        cell(self@, x as int, 2 - x)
                    } else {
                        0
                    },
            {
                let value = self.get(x, y) as u128;
                row += value;
                col += self.get(y, x) as u128;
                if x == y {
                    diagonal += value;
                }
                if SIZE - x - 1 == y {
                    anti_diagonal += value;
                }
            }
            if !(last_row == 0 && last_col == 0) && !(last_row == row && last_col == col) {
                return false;
            }
            last_row = row;
            last_col = col;
        }
        row == col && row == diagonal && diagonal == anti_diagonal
    }

    /// Whether every cell is at most `MAX_VALUE` and no two assigned cells
    /// are equal.
    pub fn is_well_formed(&self) -> (ok: bool)
        ensures
            ok == well_formed(self@),
    {
        let ghost cells = self@;
        let mut k: usize = 0;
        while k < 9
            invariant
                k <= 9,
                cells == self@,
                forall|i: int| 0 <= i < k ==> #[trigger] cells[i] <= MAX_VALUE,
                forall|i: int, j: int|
                    0 <= i < k && i < j < 9 && cells[i] != 0 ==> #[trigger] cells[i]
                        != #[trigger] cells[j],
            decreases 9 - k,
        {
            let value = self.get(k / 3, k % 3);
            if value > MAX_VALUE {
                return false;
            }
            let mut m: usize = k + 1;
            while m < 9
                invariant
                    k < m <= 9,
                    cells == self@,
                    value == cells[k as int],
                    forall|j: int|
                        k < j < m && value != 0 ==> cells[k as int] != #[trigger] cells[j],
                decreases 9 - m,
            {
                if value != 0 && self.get(m / 3, m % 3) == value {
                    assert(cells[k as int] == cells[m as int]);
                    return false;
                }
                m += 1;
            }
            k += 1;
        }
        true
    }
}

/// Fills `square` with 9, 8, ..., 1 in row-major order, the grid every lane
/// starts from.
pub fn reset_to_minimum(square: &mut Square)
    ensures
        final(square)@ == minimum_cells(),
        fully_distinct(final(square)@),
{
    square.set(0, 0, 9);
    square.set(0, 1, 8);
    square.set(0, 2, 7);
    square.set(1, 0, 6);
    square.set(1, 1, 5);
    square.set(1, 2, 4);
    square.set(2, 0, 3);
    square.set(2, 1, 2);
    square.set(2, 2, 1);
    assert(square@ =~= minimum_cells());
}

} // verus!
