//! The largest product of four adjacent numbers in a grid, along rows,
//! columns and both diagonals.

use ndarray::Array2;
use vstd::prelude::*;

verus! {

/// The numbers of the grid that is searched, row by row.
pub const GRID_NUMBERS: [u32; 400] = [
    8, 2, 22, 97, 38, 15, 0, 40, 0, 75, 4, 5, 7, 78, 52, 12, 50, 77, 91, 8,
    49, 49, 99, 40, 17, 81, 18, 57, 60, 87, 17, 40, 98, 43, 69, 48, 4, 56, 62, 0,
    81, 49, 31, 73, 55, 79, 14, 29, 93, 71, 40, 67, 53, 88, 30, 3, 49, 13, 36, 65,
    52, 70, 95, 23, 4, 60, 11, 42, 69, 24, 68, 56, 1, 32, 56, 71, 37, 2, 36, 91,
    22, 31, 16, 71, 51, 67, 63, 89, 41, 92, 36, 54, 22, 40, 40, 28, 66, 33, 13, 80,
    24, 47, 32, 60, 99, 3, 45, 2, 44, 75, 33, 53, 78, 36, 84, 20, 35, 17, 12, 50,
    32, 98, 81, 28, 64, 23, 67, 10, 26, 38, 40, 67, 59, 54, 70, 66, 18, 38, 64, 70,
    67, 26, 20, 68, 2, 62, 12, 20, 95, 63, 94, 39, 63, 8, 40, 91, 66, 49, 94, 21,
    24, 55, 58, 5, 66, 73, 99, 26, 97, 17, 78, 78, 96, 83, 14, 88, 34, 89, 63, 72,
    21, 36, 23, 9, 75, 0, 76, 44, 20, 45, 35, 14, 0, 61, 33, 97, 34, 31, 33, 95,
    78, 17, 53, 28, 22, 75, 31, 67, 15, 94, 3, 80, 4, 62, 16, 14, 9, 53, 56, 92,
    16, 39, 5, 42, 96, 35, 31, 47, 55, 58, 88, 24, 0, 17, 54, 24, 36, 29, 85, 57,
    86, 56, 0, 48, 35, 71, 89, 7, 5, 44, 44, 37, 44, 60, 21, 58, 51, 54, 17, 58,
    19, 80, 81, 68, 5, 94, 47, 69, 28, 73, 92, 13, 86, 52, 17, 77, 4, 89, 55, 40,
    4, 52, 8, 83, 97, 35, 99, 16, 7, 97, 57, 32, 16, 26, 26, 79, 33, 27, 98, 66,
    88, 36, 68, 87, 57, 62, 20, 72, 3, 46, 33, 67, 46, 55, 12, 32, 63, 93, 53, 69,
    4, 42, 16, 73, 38, 25, 39, 11, 24, 94, 72, 18, 8, 46, 29, 32, 40, 62, 76, 36,
    20, 69, 36, 41, 72, 30, 23, 88, 34, 62, 99, 69, 82, 67, 59, 85, 74, 4, 36, 16,
    20, 73, 35, 29, 78, 31, 90, 1, 74, 31, 49, 71, 48, 86, 81, 16, 23, 57, 5, 54,
    1, 70, 54, 71, 83, 51, 54, 69, 16, 92, 33, 48, 61, 43, 52, 1, 89, 19, 67, 48,
];

/// The number of rows, and of columns, of the grid that is searched.
pub const GRID_SIDE: usize = 20;

/// The largest index of a row or column of the grid that is searched.
pub const LAST_INDEX: i32 = 19;

/// The largest index from which four numbers fit in a row or column.
pub const LAST_START: i32 = 16;

/// A rectangular grid of numbers, held in a two-dimensional `ndarray` array.
#[verifier::external_body]
#[derive(Debug, PartialEq)]
pub struct Grid {
    arr: Array2<u32>,
}

/// The rows of a grid, each with its numbers in order.
pub uninterp spec fn grid_rows(grid: Grid) -> Seq<Seq<u32>>;

/// `rows` are `height` rows of `width` numbers, which are `cells` row by row.
pub open spec fn is_grid_of(rows: Seq<Seq<u32>>, height: nat, width: nat, cells: Seq<u32>) -> bool {
    &&& rows.len() == height
    &&& cells.len() == height * width
    &&& forall|i: int| 0 <= i < height ==> (#[trigger] rows[i]).len() == width
    &&& forall|i: int, j: int|
        0 <= i < height && 0 <= j < width ==> #[trigger] rows[i][j] == cells[i * width + j]
}

/// Every row of `rows` has `width` numbers.
pub open spec fn all_rows_have_len(rows: Seq<Seq<u32>>, width: nat) -> bool {
    forall|i: int| 0 <= i < rows.len() ==> (#[trigger] rows[i]).len() == width
}

/// The number of columns of `rows`: the length of the first row, or zero where there is none.
pub open spec fn width_of(rows: Seq<Seq<u32>>) -> nat {
    if rows.len() == 0 {
        0
    } else {
        rows[0].len()
    }
}

/// The index that `idx` stands for among `n`: itself, or counted from the end where it is negative.
pub open spec fn resolve(idx: int, n: int) -> int {
    if idx >= 0 {
        idx
    } else {
        n + idx
    }
}

/// Whether `idx` stands for an index among `n`, and can be negated.
pub open spec fn resolves(idx: int, n: int) -> bool {
    idx > i32::MIN && 0 <= resolve(idx, n) < n
}

/// The product of the four numbers of `window`.
pub open spec fn product4(window: Seq<u32>) -> nat {
    (window[0] * window[1] * window[2] * window[3]) as nat
}

/// The product of the four numbers of `window`, taken one factor at a time, fits in a `u32`.
pub open spec fn fits4(window: Seq<u32>) -> bool {
    &&& window[0] * window[1] <= u32::MAX
    &&& window[0] * window[1] * window[2] <= u32::MAX
    &&& window[0] * window[1] * window[2] * window[3] <= u32::MAX
}

/// The product of a window, or one where there is no window.
pub open spec fn product_or_one(window: Option<Seq<u32>>) -> nat {
    match window {
        Some(w) => product4(w),
        None => 1,
    }
}

/// The larger of two numbers.
pub open spec fn larger(a: nat, b: nat) -> nat {
    if a >= b {
        a
    } else {
        b
    }
}

/// Makes a grid with `Array2::from_shape_vec`. The contract claims what the
/// source of `ndarray` shows: for a shape without an empty side whose size
/// is the length of `cells`, the call succeeds, and a grid that it makes
/// holds `cells` row by row.
#[verifier::external_body]
fn grid_from_shape_vec(rows: usize, cols: usize, cells: Vec<u32>) -> (r: Option<Grid>)
    ensures
        rows >= 1 && cols >= 1 && rows * cols == cells@.len() ==> r is Some,
        r matches Some(grid) ==> is_grid_of(grid_rows(grid), rows as nat, cols as nat, cells@),
{
    match Array2::from_shape_vec((rows, cols), cells) {
        Ok(arr) => Some(Grid { arr }),
        Err(_) => None,
    }
}

/// Calls `nrows` of the array. The contract claims that it is the number of rows.
#[verifier::external_body]
fn grid_nrows(grid: &Grid) -> (r: usize)
    ensures
        r == grid_rows(*grid).len(),
{
    grid.arr.nrows()
}

/// Calls `ncols` of the array. The contract claims that every row has that length.
#[verifier::external_body]
fn grid_ncols(grid: &Grid) -> (r: usize)
    ensures
        all_rows_have_len(grid_rows(*grid), r as nat),
{
    grid.arr.ncols()
}

/// Indexes the array with a pair of indices. The contract claims that this
/// gives the number in that row at that column.
#[verifier::external_body]
fn grid_cell(grid: &Grid, row: usize, col: usize) -> (r: u32)
    requires
        row < grid_rows(*grid).len(),
        col < grid_rows(*grid)[row as int].len(),
    ensures
        r == grid_rows(*grid)[row as int][col as int],
{
    grid.arr[[row, col]]
}

/// Takes the subview at place `row_num` of the array's `outer_iter` and
/// copies it with `to_vec`. The contract claims that this is the row at
/// that index, and that there is none from the number of rows on.
#[verifier::external_body]
fn grid_row(grid: &Grid, row_num: usize) -> (r: Option<Vec<u32>>)
    ensures
        r is Some <==> row_num < grid_rows(*grid).len(),
        r matches Some(row) ==> row@ == grid_rows(*grid)[row_num as int],
{
    match grid.arr.outer_iter().nth(row_num) {
        Some(row) => Some(row.to_vec()),
        None => None,
    }
}

/// The grid that is searched: twenty rows of twenty numbers.
pub fn get_array() -> (r: Grid)
    ensures
        is_grid_of(grid_rows(r), GRID_SIDE as nat, GRID_SIDE as nat, GRID_NUMBERS@),
{
    let mut cells: Vec<u32> = Vec::new();
    let mut i: usize = 0;
    while i < 400
        invariant
            i <= 400,
            cells@ == GRID_NUMBERS@.take(i as int),
        decreases 400 - i,
    {
        cells.push(GRID_NUMBERS[i]);
        assert(cells@ =~= GRID_NUMBERS@.take(i + 1));
        i += 1;
    }
    assert(GRID_NUMBERS@.take(400) =~= GRID_NUMBERS@);
    match grid_from_shape_vec(GRID_SIDE, GRID_SIDE, cells) {
        Some(grid) => grid,
        None => vstd::pervasive::unreached(),
    }
}

/// The index that `idx` stands for among `n`: itself, or counted from the
/// end where it is negative.
pub fn idx_to_usize(idx: i32, n: usize) -> (r: usize)
    requires
        idx >= 0 || (idx > i32::MIN && -idx <= n),
    ensures
        r == resolve(idx as int, n as int),
{
    if idx >= 0 {
        idx as usize
    } else {
        n - (-idx as usize)
    }
}

/// The directions in which four adjacent numbers are multiplied.
pub enum ProductDirection {
    Right,
    Down,
    RightDiagonal,
    LeftDiagonal,
}

/// A grid and the largest product of four adjacent numbers that has been seen in it.
#[derive(Debug, PartialEq)]
pub struct GridProduct {
    pub arr: Grid,
    pub current_max: u64,
}

impl GridProduct {
    /// Whether `row` and `col` stand for a place in the grid.
    pub open spec fn has(&self, row: int, col: int) -> bool {
        &&& resolves(row, grid_rows(self.arr).len() as int)
        &&& resolves(col, width_of(grid_rows(self.arr)) as int)
        &&& all_rows_have_len(grid_rows(self.arr), width_of(grid_rows(self.arr)))
    }

    /// The number at the place that `row` and `col` stand for.
    pub open spec fn at(&self, row: int, col: int) -> u32 {
        grid_rows(self.arr)[resolve(row, grid_rows(self.arr).len() as int)][resolve(
            col,
            width_of(grid_rows(self.arr)) as int,
        )]
    }

    /// The four numbers from the place `(row, col)` on, each `(down, right)` from the one before.
    pub open spec fn window(&self, row: int, col: int, down: int, right: int) -> Seq<u32> {
        seq![
            self.at(row, col),
            self.at(row + down, col + right),
            self.at(row + 2 * down, col + 2 * right),
            self.at(row + 3 * down, col + 3 * right),
        ]
    }

    /// Whether the four places from `(row, col)` on, each `(down, right)` from the one before, are in the grid.
    pub open spec fn has_window(&self, row: int, col: int, down: int, right: int) -> bool {
        &&& self.has(row, col)
        &&& self.has(row + down, col + right)
        &&& self.has(row + 2 * down, col + 2 * right)
        &&& self.has(row + 3 * down, col + 3 * right)
    }

    /// The four numbers to the right from `(row, col)`, where four fit.
    pub open spec fn spec_right(&self, row: int, col: int) -> Option<Seq<u32>> {
        if row <= LAST_INDEX && col <= LAST_START {
            Some(self.window(row, col, 0, 1))
        } else {
            None
        }
    }

    /// The four numbers down from `(row, col)`, where four fit.
    pub open spec fn spec_down(&self, row: int, col: int) -> Option<Seq<u32>> {
        if row <= LAST_START && col <= LAST_INDEX {
            Some(self.window(row, col, 1, 0))
        } else {
            None
        }
    }

    /// The four numbers up and to the right from three rows below `(row, col)`, where four fit.
    pub open spec fn spec_left_diag(&self, row: int, col: int) -> Option<Seq<u32>> {
        if row <= LAST_START && col <= LAST_START {
            Some(self.window(row + 3, col, -1, 1))
        } else {
            None
        }
    }

    /// The four numbers down and to the right from `(row, col)`, where four fit.
    pub open spec fn spec_right_diag(&self, row: int, col: int) -> Option<Seq<u32>> {
        if row <= LAST_START && col <= LAST_START {
            Some(self.window(row, col, 1, 1))
        } else {
            None
        }
    }

    /// The largest of the four products at `(row, col)`, where a direction
    /// in which four numbers do not fit counts as one.
    pub open spec fn spec_products_at(&self, row: int, col: int) -> nat {
        larger(
            larger(
                product_or_one(self.spec_right(row, col)),
                product_or_one(self.spec_down(row, col)),
            ),
            larger(
                product_or_one(self.spec_left_diag(row, col)),
                product_or_one(self.spec_right_diag(row, col)),
            ),
        )
    }

    /// Whether the four windows at `(row, col)` are in the grid where four
    /// numbers fit, and their products fit in a `u32`.
    pub open spec fn can_multiply_at(&self, row: int, col: int) -> bool {
        &&& self.spec_right(row, col) is Some ==> self.has_window(row, col, 0, 1) && fits4(
            self.window(row, col, 0, 1),
        )
        &&& self.spec_down(row, col) is Some ==> self.has_window(row, col, 1, 0) && fits4(
            self.window(row, col, 1, 0),
        )
        &&& self.spec_left_diag(row, col) is Some ==> self.has_window(row + 3, col, -1, 1)
            && fits4(self.window(row + 3, col, -1, 1))
        &&& self.spec_right_diag(row, col) is Some ==> self.has_window(row, col, 1, 1) && fits4(
            self.window(row, col, 1, 1),
        )
    }

    /// A search of `arr` that has seen nothing yet.
    pub fn new(arr: Grid) -> (r: Self)
        ensures
            r.arr == arr,
            r.current_max == 0,
    {
        GridProduct { arr, current_max: 0 }
    }

    /// The row at index `row_num`, or nothing from the number of rows on.
    pub fn row(&self, row_num: usize) -> (r: Vec<u32>)
        ensures
            r@ == if row_num < grid_rows(self.arr).len() {
                grid_rows(self.arr)[row_num as int]
            } else {
                Seq::empty()
            },
    {
        let res = grid_row(&self.arr, row_num);
        match res {
            Some(arr) => arr,
            None => {
                let nothing: Vec<u32> = Vec::new();
                nothing
            },
        }
    }

    /// The number at the place that the two indices stand for, where a
    /// negative index counts from the end.
    pub fn index(&self, index: [i32; 2]) -> (r: u32)
        requires
            self.has(index[0] as int, index[1] as int),
        ensures
            r == self.at(index[0] as int, index[1] as int),
    {
        let nrows = grid_nrows(&self.arr);
        let ncols = grid_ncols(&self.arr);
        assert(grid_rows(self.arr)[0].len() == ncols);
        let row = idx_to_usize(index[0], nrows);
        let col = idx_to_usize(index[1], ncols);
        assert(grid_rows(self.arr)[row as int].len() == ncols);
        grid_cell(&self.arr, row, col)
    }

    /// The four numbers from `(row, col)` on, each `(down, right)` from the one before.
    pub fn four_from(&self, row: i32, col: i32, down: i32, right: i32) -> (r: [u32; 4])
        requires
            -1 <= down <= 1,
            -1 <= right <= 1,
            row <= 0x1000_0000,
            col <= 0x1000_0000,
            self.has_window(row as int, col as int, down as int, right as int),
        ensures
            r@ == self.window(row as int, col as int, down as int, right as int),
    {
        let window = [
            self.index([row, col]),
            self.index([row + down, col + right]),
            self.index([row + 2 * down, col + 2 * right]),
            self.index([row + 3 * down, col + 3 * right]),
        ];
        assert(window@ =~= self.window(row as int, col as int, down as int, right as int));
        window
    }

    /// The four numbers to the right from `(row, col)`, where four fit.
    pub fn right(&self, row: i32, col: i32) -> (r: Option<[u32; 4]>)
        requires
            self.spec_right(row as int, col as int) is Some ==> self.has_window(
                row as int,
                col as int,
                0,
                1,
            ),
        ensures
            r is Some <==> self.spec_right(row as int, col as int) is Some,
            r matches Some(w) ==> Some(w@) == self.spec_right(row as int, col as int),
    {
        if row <= LAST_INDEX && col <= LAST_START {
            Some(self.four_from(row, col, 0, 1))
        } else {
            None
        }
    }

    /// The four numbers down from `(row, col)`, where four fit.
    pub fn down(&self, row: i32, col: i32) -> (r: Option<[u32; 4]>)
        requires
            self.spec_down(row as int, col as int) is Some ==> self.has_window(
                row as int,
                col as int,
                1,
                0,
            ),
        ensures
            r is Some <==> self.spec_down(row as int, col as int) is Some,
            r matches Some(w) ==> Some(w@) == self.spec_down(row as int, col as int),
    {
        if row <= LAST_START && col <= LAST_INDEX {
            Some(self.four_from(row, col, 1, 0))
        } else {
            None
        }
    }

    /// The four numbers up and to the right from three rows below `(row, col)`, where four fit.
    pub fn left_diag(&self, row: i32, col: i32) -> (r: Option<[u32; 4]>)
        requires
            self.spec_left_diag(row as int, col as int) is Some ==> self.has_window(
                row + 3,
                col as int,
                -1,
                1,
            ),
        ensures
            r is Some <==> self.spec_left_diag(row as int, col as int) is Some,
            r matches Some(w) ==> Some(w@) == self.spec_left_diag(row as int, col as int),
    {
        if row <= LAST_START && col <= LAST_START {
            Some(self.four_from(row + 3, col, -1, 1))
        } else {
            None
        }
    }

    /// The four numbers down and to the right from `(row, col)`, where four fit.
    pub fn right_diag(&self, row: i32, col: i32) -> (r: Option<[u32; 4]>)
        requires
            self.spec_right_diag(row as int, col as int) is Some ==> self.has_window(
                row as int,
                col as int,
                1,
                1,
            ),
        ensures
            r is Some <==> self.spec_right_diag(row as int, col as int) is Some,
            r matches Some(w) ==> Some(w@) == self.spec_right_diag(row as int, col as int),
    {
        if row <= LAST_START && col <= LAST_START {
            Some(self.four_from(row, col, 1, 1))
        } else {
            None
        }
    }

    /// The product of the four numbers of a window, or one where there is no window.
    pub fn product_of(window: Option<[u32; 4]>) -> (r: u64)
        requires
            window matches Some(w) ==> fits4(w@),
        ensures
            r == match window {
                Some(w) => product4(w@),
                None => 1,
            },
    {
        match window {
            Some(arr) => {
                let mut acc: u32 = 1;
                acc = acc * arr[0];
                acc = acc * arr[1];
                acc = acc * arr[2];
                acc = acc * arr[3];
                acc as u64
            },
            None => 1,
        }
    }

    /// The largest of the four products at `(row, col)`, where a direction
    /// in which four numbers do not fit counts as one.
    pub fn products_at(&self, row: i32, col: i32) -> (r: u64)
        requires
            self.can_multiply_at(row as int, col as int),
        ensures
            r == self.spec_products_at(row as int, col as int),
    {
        let along = Self::product_of(self.right(row, col));
        let below = Self::product_of(self.down(row, col));
        let rising = Self::product_of(self.left_diag(row, col));
        let falling = Self::product_of(self.right_diag(row, col));
        let mut best = along;
        if below > best {
            best = below;
        }
        let mut other = rising;
        if falling > other {
            other = falling;
        }
        if other > best {
            best = other;
        }
        best
    }

    /// Keeps the largest product at `(row, col)` where it is larger than any seen.
    pub fn compare_products_with_current_max(&mut self, row: i32, col: i32)
        requires
            old(self).can_multiply_at(row as int, col as int),
        ensures
            final(self).arr == old(self).arr,
            final(self).current_max == larger(
                old(self).current_max as nat,
                old(self).spec_products_at(row as int, col as int),
            ),
    {
        let max_product_from_index = self.products_at(row, col);
        if self.current_max < max_product_from_index {
            self.current_max = max_product_from_index
        }
    }
}

/// The largest of `floor` and the largest products at the first `count`
/// places of the grid, counted row by row.
pub open spec fn largest_product_upto(search: GridProduct, count: nat, floor: nat) -> nat
    decreases count,
{
    if count == 0 {
        floor
    } else {
        larger(
            largest_product_upto(search, (count - 1) as nat, floor),
            search.spec_products_at(
                (count - 1) / GRID_SIDE as int,
                (count - 1) % GRID_SIDE as int,
            ),
        )
    }
}

/// No number of the grid that is searched exceeds ninety-nine.
pub proof fn lemma_grid_numbers_small()
    ensures
        forall|i: int| 0 <= i < 400 ==> #[trigger] GRID_NUMBERS@[i] <= 99,
{
}

/// In a grid of twenty rows of twenty numbers up to ninety-nine, the four
/// windows at every place with indices up to nineteen can be multiplied.
pub proof fn lemma_can_multiply_everywhere(search: GridProduct, row: int, col: int)
    requires
        is_grid_of(grid_rows(search.arr), GRID_SIDE as nat, GRID_SIDE as nat, GRID_NUMBERS@),
        0 <= row <= LAST_INDEX,
        0 <= col <= LAST_INDEX,
    ensures
        search.can_multiply_at(row, col),
{
    lemma_grid_numbers_small();
    let rows = grid_rows(search.arr);
    assert(rows[0].len() == 20);
    assert forall|i: int, j: int| 0 <= i < 20 && 0 <= j < 20 implies search.has(i, j)
        && search.at(i, j) <= 99 by {
        assert(rows[i][j] == GRID_NUMBERS@[i * 20 + j]);
    }
    assert forall|i: int, j: int, down: int, right: int|
        0 <= i < 20 && 0 <= j < 20 && 0 <= i + 3 * down < 20 && 0 <= j + 3 * right < 20 && -1
            <= down <= 1 && -1 <= right <= 1 implies search.has_window(i, j, down, right)
        && fits4(#[trigger] search.window(i, j, down, right)) by {
        let w = search.window(i, j, down, right);
        assert(search.has(i, j) && search.at(i, j) <= 99);
        assert(search.has(i + down, j + right) && search.at(i + down, j + right) <= 99);
        assert(search.has(i + 2 * down, j + 2 * right) && search.at(i + 2 * down, j + 2 * right)
            <= 99);
        assert(search.has(i + 3 * down, j + 3 * right) && search.at(i + 3 * down, j + 3 * right)
            <= 99);
        assert(w[0] * w[1] <= 99 * 99 && w[0] * w[1] * w[2] <= 99 * 99 * 99 && w[0] * w[1]
            * w[2] * w[3] <= 99 * 99 * 99 * 99) by (nonlinear_arith)
            requires
                0 <= w[0] <= 99,
                0 <= w[1] <= 99,
                0 <= w[2] <= 99,
                0 <= w[3] <= 99,
        ;
    }
    if row <= LAST_INDEX && col <= LAST_START {
        assert(fits4(search.window(row, col, 0, 1)));
    }
    if row <= LAST_START && col <= LAST_INDEX {
        assert(fits4(search.window(row, col, 1, 0)));
    }
    if row <= LAST_START && col <= LAST_START {
        assert(fits4(search.window(row + 3, col, -1, 1)));
        assert(fits4(search.window(row, col, 1, 1)));
    }
}

/// The largest product of four adjacent numbers of the grid that is
/// searched, along rows, columns and both diagonals.
pub fn largest_product_in_grid() -> (r: u64)
    ensures
        exists|search: GridProduct|
            is_grid_of(grid_rows(search.arr), GRID_SIDE as nat, GRID_SIDE as nat, GRID_NUMBERS@)
                && r == #[trigger] largest_product_upto(search, 400, 0),
{
    let mut gp = GridProduct::new(get_array());
    let ghost search = gp;
    let mut row: i32 = 0;
    while row < 20
        invariant
            0 <= row <= 20,
            gp.arr == search.arr,
            is_grid_of(grid_rows(search.arr), GRID_SIDE as nat, GRID_SIDE as nat, GRID_NUMBERS@),
            gp.current_max == largest_product_upto(search, (row * 20) as nat, 0),
        decreases 20 - row,
    {
        let mut col: i32 = 0;
        while col < 20
            invariant
                0 <= row < 20,
                0 <= col <= 20,
                gp.arr == search.arr,
                is_grid_of(
                    grid_rows(search.arr),
                    GRID_SIDE as nat,
                    GRID_SIDE as nat,
                    GRID_NUMBERS@,
                ),
                gp.current_max == largest_product_upto(search, (row * 20 + col) as nat, 0),
            decreases 20 - col,
        {
            proof {
                lemma_can_multiply_everywhere(gp, row as int, col as int);
                let count = (row * 20 + col + 1) as nat;
                assert((count - 1) / 20 == row && (count - 1) % 20 == col);
                assert(gp.spec_products_at(row as int, col as int) == search.spec_products_at(
                    row as int,
                    col as int,
                ));
            }
            gp.compare_products_with_current_max(row, col);
            col += 1;
        }
        row += 1;
    }
    gp.current_max
}

} // verus!
