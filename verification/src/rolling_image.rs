//! The layout of a rolling integral image.
//!
//! An integral image holds in the cell of row `r` and column `c` the sum of
//! all cells of the raw image in the rows up to `r` and the columns up to
//! `c`. The sum over a rectangle of the raw image is then had from the four
//! cells at its corners. A rolling image keeps the last rows only, in a ring
//! of `max_rows + 1` rows.
//!
//! This module knows where the cells are: in which cells a new row is to be
//! written, and which cells give the sum over a rectangle. The numbers
//! themselves are kept by whoever uses it.

use vstd::prelude::*;

verus! {

/// Where a new row of the integral image is to be written.
#[derive(Debug, Clone, Copy, PartialEq, Eq, Structural)]
pub struct RowSlot {
    /// Index of the first cell of the new row.
    pub start: usize,
    /// Index of the first cell of the row before it, which is to be added to
    /// the running sums of the new row; none for the first row.
    pub previous: Option<usize>,
}

/// The cells that give the sum over a rectangle: the sum is the cell at
/// `bottom_right`, less those at `top_right` and `bottom_left`, and the cell
/// at `top_left`. A cell that is missing counts as zero.
#[derive(Debug, Clone, Copy, PartialEq, Eq, Structural)]
pub struct AreaCorners {
    /// The cell of the last row and the last column of the rectangle.
    pub bottom_right: Option<usize>,
    /// The cell of the row before the first and the last column.
    pub top_right: Option<usize>,
    /// The cell of the last row and the column before the first.
    pub bottom_left: Option<usize>,
    /// The cell of the row before the first and the column before the first.
    pub top_left: Option<usize>,
}

/// The layout of a ring of rows of an integral image.
#[derive(Debug, Clone, Copy, PartialEq, Eq, Structural)]
pub struct RollingIntegralImage {
    max_rows: usize,
    columns: usize,
    rows: usize,
}

/// The sum of the cells `0 ..= c` of a row.
pub open spec fn row_prefix(row: Seq<int>, c: int) -> int
    decreases c + 1,
{
    if c < 0 {
        0
    } else {
        row_prefix(row, c - 1) + row[c]
    }
}

/// The sum of the cells of the rows `0 ..= r` and the columns `0 ..= c`.
pub open spec fn prefix(raw: Seq<Seq<int>>, r: int, c: int) -> int
    decreases r + 1,
{
    if r < 0 {
        0
    } else {
        prefix(raw, r - 1, c) + row_prefix(raw[r], c)
    }
}

/// The sum of the cells `c1 .. c2` of a row.
pub open spec fn segment_sum(row: Seq<int>, c1: int, c2: int) -> int
    decreases c2 - c1,
{
    if c2 <= c1 {
        0
    } else {
        segment_sum(row, c1, c2 - 1) + row[c2 - 1]
    }
}

/// The sum of the cells of the rows `r1 .. r2` and the columns `c1 .. c2`.
pub open spec fn region_sum(raw: Seq<Seq<int>>, r1: int, c1: int, r2: int, c2: int) -> int
    decreases r2 - r1,
{
    if r2 <= r1 {
        0
    } else {
        region_sum(raw, r1, c1, r2 - 1, c2) + segment_sum(raw[r2 - 1], c1, c2)
    }
}

/// The value of a cell that may be missing.
pub open spec fn cell_value(data: Seq<int>, cell: Option<usize>) -> int {
    match cell {
        Some(i) => data[i as int],
        None => 0,
    }
}

/// The sum that the cells at `corners` give.
pub open spec fn area_value(data: Seq<int>, corners: AreaCorners) -> int {
    cell_value(data, corners.bottom_right) - cell_value(data, corners.top_right) - cell_value(
        data,
        corners.bottom_left,
    ) + cell_value(data, corners.top_left)
}

impl RollingIntegralImage {
    /// Number of rows of the ring.
    pub closed spec fn slots(&self) -> int {
        self.max_rows as int
    }

    /// Number of columns, or zero while no row was added.
    pub closed spec fn spec_columns(&self) -> int {
        self.columns as int
    }

    /// Number of rows that were added.
    pub closed spec fn spec_rows(&self) -> int {
        self.rows as int
    }

    /// The ring has a row, and its cells can be counted.
    pub open spec fn wf(&self) -> bool {
        self.slots() >= 1 && self.slots() * self.spec_columns() <= usize::MAX
    }

    /// Index of the cell that holds row `r` and column `c`.
    pub open spec fn cell(&self, r: int, c: int) -> int {
        (r % self.slots()) * self.spec_columns() + c
    }

    /// Whether row `r` is still held.
    pub open spec fn held(&self, r: int) -> bool {
        0 <= r < self.spec_rows() && r >= self.spec_rows() - self.slots()
    }

    /// Whether the sum over the rows `r1 .. r2` and the columns `c1 .. c2` can
    /// be asked for.
    pub open spec fn can_ask(&self, r1: int, c1: int, r2: int, c2: int) -> bool {
        &&& 0 <= r1 <= r2 <= self.spec_rows()
        &&& 0 <= c1 <= c2 <= self.spec_columns()
        &&& self.spec_rows() > self.slots() ==> r1 > self.spec_rows() - self.slots()
    }

    /// The layout of an image that keeps `max_rows + 1` rows.
    pub fn new(max_rows: usize) -> (image: Self)
        requires
            max_rows < usize::MAX,
        ensures
            image.wf(),
            image.slots() == max_rows + 1,
            image.spec_columns() == 0,
            image.spec_rows() == 0,
    {
        let image = Self { max_rows: max_rows + 1, columns: 0, rows: 0 };
        assert(image.slots() * 0 == 0) by (nonlinear_arith);
        image
    }

    /// Number of columns, or zero while no row was added.
    pub fn columns(&self) -> (columns: usize)
        ensures
            columns == self.spec_columns(),
    {
        self.columns
    }

    /// Number of rows that were added.
    pub fn rows(&self) -> (rows: usize)
        ensures
            rows == self.spec_rows(),
    {
        self.rows
    }

    /// Number of rows of the ring: one more than the number of rows that the
    /// image keeps besides the newest.
    pub fn slot_count(&self) -> (slots: usize)
        ensures
            slots == self.slots(),
    {
        self.max_rows
    }

    /// Number of cells of the ring.
    pub fn cells(&self) -> (cells: usize)
        requires
            self.wf(),
        ensures
            cells == self.slots() * self.spec_columns(),
    {
        self.max_rows * self.columns
    }

    /// Forgets all rows and the number of columns.
    pub fn reset(&mut self)
        requires
            old(self).wf(),
        ensures
            final(self).wf(),
            final(self).slots() == old(self).slots(),
            final(self).spec_columns() == 0,
            final(self).spec_rows() == 0,
    {
        self.rows = 0;
        self.columns = 0;
        assert(self.slots() * 0 == 0) by (nonlinear_arith);
    }

    /// Index of the first cell of row `i`.
    fn row(&self, i: usize) -> (start: usize)
        requires
            self.wf(),
        ensures
            start == self.cell(i as int, 0),
            start + self.spec_columns() <= self.slots() * self.spec_columns(),
    {
        let slot: usize = i % self.max_rows;
        proof {
            assert(slot * self.columns + self.columns <= self.max_rows * self.columns)
                by (nonlinear_arith)
                requires
                    0 <= slot < self.max_rows,
                    0 <= self.columns,
            ;
        }
        slot * self.columns
    }

    /// Whether a row of `len` cells can be added: it has as many cells as
    /// the rows before it, and the cells and the rows can be counted.
    pub open spec fn can_add(&self, len: int) -> bool {
        &&& self.spec_columns() == 0 || self.spec_columns() == len
        &&& self.slots() * len <= usize::MAX
        &&& self.spec_rows() < usize::MAX
    }

    /// Tells whether a row of `len` cells can be added.
    pub fn is_addable(&self, len: usize) -> (addable: bool)
        requires
            self.wf(),
        ensures
            addable == self.can_add(len as int),
    {
        if self.columns != 0 && self.columns != len {
            return false;
        }
        if self.rows == usize::MAX {
            return false;
        }
        if len == 0 {
            assert(self.slots() * 0 == 0) by (nonlinear_arith);
            return true;
        }
        let fits: bool = self.max_rows <= usize::MAX / len;
        proof {
            let slots = self.max_rows as int;
            let n = len as int;
            let q = usize::MAX as int / n;
            vstd::arithmetic::div_mod::lemma_fundamental_div_mod(usize::MAX as int, n);
            if slots <= q {
                assert(slots * n <= q * n) by (nonlinear_arith)
                    requires
                        slots <= q,
                        n > 0,
                ;
                assert(q * n == n * q) by (nonlinear_arith);
            } else {
                assert(slots * n >= (q + 1) * n) by (nonlinear_arith)
                    requires
                        slots >= q + 1,
                        n > 0,
                ;
                assert((q + 1) * n == n * q + n) by (nonlinear_arith);
            }
        }
        fits
    }

    /// Tells whether the sum over the rows `r1 .. r2` and the columns
    /// `c1 .. c2` can be asked for.
    pub fn is_askable(&self, r1: usize, c1: usize, r2: usize, c2: usize) -> (askable: bool)
        ensures
            askable == self.can_ask(r1 as int, c1 as int, r2 as int, c2 as int),
    {
        r1 <= r2 && r2 <= self.rows && c1 <= c2 && c2 <= self.columns && (self.rows
            <= self.max_rows || r1 > self.rows - self.max_rows)
    }

    /// Adds a row of `len` cells and tells where it is to be written.
    ///
    /// The first row that is added gives the image its number of columns;
    /// every later row must have as many cells.
    pub fn add_row(&mut self, len: usize) -> (slot: RowSlot)
        requires
            old(self).wf(),
            old(self).can_add(len as int),
        ensures
            final(self).wf(),
            final(self).slots() == old(self).slots(),
            final(self).spec_columns() == len,
            final(self).spec_rows() == old(self).spec_rows() + 1,
            slot.start == final(self).cell(old(self).spec_rows(), 0),
            slot.start + len <= final(self).slots() * len,
            slot.previous == if old(self).spec_rows() > 0 {
                Some(final(self).cell(old(self).spec_rows() - 1, 0) as usize)
            } else {
                None
            },
            slot.previous is Some ==> slot.previous->0 + len <= final(self).slots() * len,
    {
        if self.columns == 0 {
            self.columns = len;
        }
        let start: usize = self.row(self.rows);
        let previous: Option<usize> = if self.rows > 0 {
            Some(self.row(self.rows - 1))
        } else {
            None
        };
        self.rows += 1;
        RowSlot { start, previous }
    }

    /// Tells which cells give the sum over the rows `r1 .. r2` and the
    /// columns `c1 .. c2`.
    pub fn area(&self, r1: usize, c1: usize, r2: usize, c2: usize) -> (corners: AreaCorners)
        requires
            self.wf(),
            self.can_ask(r1 as int, c1 as int, r2 as int, c2 as int),
        ensures
            corners == self.corners(r1 as int, c1 as int, r2 as int, c2 as int),
            forall|i: usize|
                corners.bottom_right == Some(i) || corners.top_right == Some(i)
                    || corners.bottom_left == Some(i) || corners.top_left == Some(i) ==> i
                    < self.slots() * self.spec_columns(),
    {
        if r1 == r2 || c1 == c2 {
            return AreaCorners {
                bottom_right: None,
                top_right: None,
                bottom_left: None,
                top_left: None,
            };
        }
        let row2: usize = self.row(r2 - 1);
        if r1 == 0 {
            if c1 == 0 {
                AreaCorners {
                    bottom_right: Some(row2 + (c2 - 1)),
                    top_right: None,
                    bottom_left: None,
                    top_left: None,
                }
            } else {
                AreaCorners {
                    bottom_right: Some(row2 + (c2 - 1)),
                    top_right: None,
                    bottom_left: Some(row2 + (c1 - 1)),
                    top_left: None,
                }
            }
        } else {
            let row1: usize = self.row(r1 - 1);
            if c1 == 0 {
                AreaCorners {
                    bottom_right: Some(row2 + (c2 - 1)),
                    top_right: Some(row1 + (c2 - 1)),
                    bottom_left: None,
                    top_left: None,
                }
            } else {
                AreaCorners {
                    bottom_right: Some(row2 + (c2 - 1)),
                    top_right: Some(row1 + (c2 - 1)),
                    bottom_left: Some(row2 + (c1 - 1)),
                    top_left: Some(row1 + (c1 - 1)),
                }
            }
        }
    }

    /// The cell of row `r` and column `c`, or none where the row or the
    /// column is the one before the first.
    pub open spec fn corner(&self, r: int, c: int) -> Option<usize> {
        if r < 0 || c < 0 {
            None
        } else {
            Some(self.cell(r, c) as usize)
        }
    }

    /// The cells that give the sum over the rows `r1 .. r2` and the columns
    /// `c1 .. c2`: none for an empty rectangle, else the four corners.
    pub open spec fn corners(&self, r1: int, c1: int, r2: int, c2: int) -> AreaCorners {
        if r1 == r2 || c1 == c2 {
            AreaCorners { bottom_right: None, top_right: None, bottom_left: None, top_left: None }
        } else {
            AreaCorners {
                bottom_right: self.corner(r2 - 1, c2 - 1),
                top_right: self.corner(r1 - 1, c2 - 1),
                bottom_left: self.corner(r2 - 1, c1 - 1),
                top_left: self.corner(r1 - 1, c1 - 1),
            }
        }
    }

    /// Whether `data` holds the integral image of `raw` in this layout: every
    /// row that is still held stands in its cells.
    pub open spec fn stores(&self, data: Seq<int>, raw: Seq<Seq<int>>) -> bool {
        &&& raw.len() == self.spec_rows()
        &&& data.len() == self.slots() * self.spec_columns()
        &&& forall|r: int, c: int|
            self.held(r) && 0 <= c < self.spec_columns() ==> #[trigger] data[self.cell(r, c)]
                == prefix(raw, r, c)
    }
}

/// The sum of a segment of a row is the difference of two sums from its
/// beginning.
pub proof fn lemma_segment(row: Seq<int>, c1: int, c2: int)
    requires
        0 <= c1 <= c2,
    ensures
        segment_sum(row, c1, c2) == row_prefix(row, c2 - 1) - row_prefix(row, c1 - 1),
    decreases c2 - c1,
{
    if c1 < c2 {
        lemma_segment(row, c1, c2 - 1);
    }
}

/// The sum over a rectangle is had from the sums up to its four corners.
pub proof fn lemma_region(raw: Seq<Seq<int>>, r1: int, c1: int, r2: int, c2: int)
    requires
        0 <= r1 <= r2,
        0 <= c1 <= c2,
    ensures
        region_sum(raw, r1, c1, r2, c2) == prefix(raw, r2 - 1, c2 - 1) - prefix(
            raw,
            r1 - 1,
            c2 - 1,
        ) - prefix(raw, r2 - 1, c1 - 1) + prefix(raw, r1 - 1, c1 - 1),
    decreases r2 - r1,
{
    if r1 < r2 {
        lemma_region(raw, r1, c1, r2 - 1, c2);
        lemma_segment(raw[r2 - 1], c1, c2);
    }
}

/// Before the first column there is nothing to sum.
proof fn lemma_prefix_edge(raw: Seq<Seq<int>>, r: int)
    ensures
        prefix(raw, r, -1) == 0,
    decreases r + 1,
{
    if r >= 0 {
        lemma_prefix_edge(raw, r - 1);
    }
}

/// What the corners of a rectangle give is the sum of the raw image over
/// the rectangle.
pub proof fn lemma_area(
    image: RollingIntegralImage,
    data: Seq<int>,
    raw: Seq<Seq<int>>,
    r1: int,
    c1: int,
    r2: int,
    c2: int,
)
    requires
        image.wf(),
        image.stores(data, raw),
        image.can_ask(r1, c1, r2, c2),
    ensures
        area_value(data, image.corners(r1, c1, r2, c2)) == region_sum(raw, r1, c1, r2, c2),
{
    lemma_region(raw, r1, c1, r2, c2);
    if r1 == r2 {
    } else if c1 == c2 {
    } else {
        lemma_prefix_edge(raw, r2 - 1);
        lemma_prefix_edge(raw, r1 - 1);
        assert(image.held(r2 - 1));
        lemma_cell_range(image, r2 - 1, c2 - 1);
        assert(data[image.cell(r2 - 1, c2 - 1)] == prefix(raw, r2 - 1, c2 - 1));
        if c1 > 0 {
            lemma_cell_range(image, r2 - 1, c1 - 1);
            assert(data[image.cell(r2 - 1, c1 - 1)] == prefix(raw, r2 - 1, c1 - 1));
        }
        if r1 > 0 {
            assert(image.held(r1 - 1));
            lemma_cell_range(image, r1 - 1, c2 - 1);
            assert(data[image.cell(r1 - 1, c2 - 1)] == prefix(raw, r1 - 1, c2 - 1));
            if c1 > 0 {
                lemma_cell_range(image, r1 - 1, c1 - 1);
                assert(data[image.cell(r1 - 1, c1 - 1)] == prefix(raw, r1 - 1, c1 - 1));
            }
        }
    }
}

/// A cell of the image lies in the ring.
pub proof fn lemma_cell_range(image: RollingIntegralImage, r: int, c: int)
    requires
        image.wf(),
        0 <= r,
        0 <= c < image.spec_columns(),
    ensures
        0 <= image.cell(r, c) < image.slots() * image.spec_columns(),
{
    let s = r % image.slots();
    let n = image.spec_columns();
    assert(0 <= s * n + c < image.slots() * n) by (nonlinear_arith)
        requires
            0 <= s < image.slots(),
            0 <= c < n,
    ;
}

/// The cells after a row was written as `slot` directs: the cells of the
/// new row hold the running sums of `row`, each with the cell of the row
/// before it added; all others stay.
pub open spec fn written(data: Seq<int>, slot: RowSlot, row: Seq<int>) -> Seq<int> {
    Seq::new(
        data.len(),
        |i: int|
            if slot.start <= i < slot.start + row.len() {
                row_prefix(row, i - slot.start) + match slot.previous {
                    Some(p) => data[p + (i - slot.start)],
                    None => 0,
                }
            } else {
                data[i]
            },
    )
}

/// A new row does not change the sums over the rows before it.
proof fn lemma_prefix_push(raw: Seq<Seq<int>>, row: Seq<int>, r: int, c: int)
    requires
        r < raw.len(),
    ensures
        prefix(raw.push(row), r, c) == prefix(raw, r, c),
    decreases r + 1,
{
    if r >= 0 {
        lemma_prefix_push(raw, row, r - 1, c);
        assert(raw.push(row)[r] == raw[r]);
    }
}

/// Rows that are fewer than the rows of the ring apart stand in different rows
/// of the ring.
proof fn lemma_other_slot(r: int, d: int, m: int)
    requires
        0 <= r,
        0 < d < m,
    ensures
        (r + d) % m != r % m,
{
    let q1 = r / m;
    let q2 = (r + d) / m;
    vstd::arithmetic::div_mod::lemma_fundamental_div_mod(r, m);
    vstd::arithmetic::div_mod::lemma_fundamental_div_mod(r + d, m);
    if (r + d) % m == r % m {
        assert(d == m * (q2 - q1)) by (nonlinear_arith)
            requires
                r == m * q1 + r % m,
                r + d == m * q2 + (r + d) % m,
                (r + d) % m == r % m,
        ;
        assert(false) by (nonlinear_arith)
            requires
                d == m * (q2 - q1),
                0 < d < m,
        ;
    }
}

/// Writing a row as `add_row` directs keeps the integral image: where the
/// cells held the integral image of `raw` before, they hold that of `raw`
/// with the new row after.
pub proof fn lemma_add_row(
    before: RollingIntegralImage,
    after: RollingIntegralImage,
    slot: RowSlot,
    data: Seq<int>,
    raw: Seq<Seq<int>>,
    row: Seq<int>,
)
    requires
        after.wf(),
        after.slots() >= 2,
        after.slots() == before.slots(),
        after.spec_columns() == row.len(),
        after.spec_rows() == before.spec_rows() + 1,
        before.spec_rows() == raw.len(),
        data.len() == after.slots() * after.spec_columns(),
        slot.start == after.cell(before.spec_rows(), 0),
        slot.previous == if before.spec_rows() > 0 {
            Some(after.cell(before.spec_rows() - 1, 0) as usize)
        } else {
            None
        },
        forall|r: int, c: int|
            before.held(r) && 0 <= c < after.spec_columns() ==> #[trigger] data[after.cell(r, c)]
                == prefix(raw, r, c),
    ensures
        after.stores(written(data, slot, row), raw.push(row)),
{
    let n = after.spec_columns();
    let m = after.slots();
    let last = before.spec_rows();
    let grown = raw.push(row);
    let next = written(data, slot, row);
    assert forall|r: int, c: int| after.held(r) && 0 <= c < n implies #[trigger] next[after.cell(
        r,
        c,
    )] == prefix(grown, r, c) by {
        lemma_cell_range(after, r, c);
        let i = after.cell(r, c);
        if r == last {
            assert(i == slot.start + c);
            assert(grown[r] == row);
            lemma_prefix_push(raw, row, r - 1, c);
            if last > 0 {
                assert(before.held(last - 1));
                lemma_cell_range(after, last - 1, c);
                assert(data[after.cell(last - 1, c)] == prefix(raw, last - 1, c));
            }
        } else {
            assert(before.held(r));
            lemma_other_slot(r, last - r, m);
            let s1 = r % m;
            let s2 = last % m;
            assert(!(s2 * n <= s1 * n + c < s2 * n + n)) by (nonlinear_arith)
                requires
                    s1 != s2,
                    0 <= c < n,
                    0 <= s1,
                    0 <= s2,
            ;
            lemma_prefix_push(raw, row, r, c);
        }
    }
}

} // verus!
