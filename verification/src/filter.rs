//! The six rectangular kernels that are laid over the integral image.
//!
//! A filter looks at a window of the image that is `width` rows long, from
//! row `x` on, and `height` columns wide, from column `y` on. It splits the
//! window into rectangles of two kinds, and its value compares the sum of the
//! image over the one kind with the sum over the other.

use vstd::prelude::*;

verus! {

/// A rectangle of the image: the rows `r1 .. r2` of the columns `c1 .. c2`.
#[derive(Debug, Clone, Copy, PartialEq, Eq, Structural)]
pub struct Rect {
    /// The first row.
    pub r1: usize,
    /// The first column.
    pub c1: usize,
    /// The row behind the last.
    pub r2: usize,
    /// The column behind the last.
    pub c2: usize,
}

impl Rect {
    /// Whether the cell in row `r` and column `c` lies in the rectangle.
    pub open spec fn holds(&self, r: int, c: int) -> bool {
        self.r1 <= r < self.r2 && self.c1 <= c < self.c2
    }
}

/// The shape of a filter.
#[derive(Debug, Clone, Copy, PartialEq, Eq, Structural)]
pub enum FilterKind {
    /// The whole window against nothing.
    Filter0,
    /// The upper half of the columns against the lower half.
    Filter1,
    /// The later half of the rows against the earlier half.
    Filter2,
    /// Two opposite quarters against the two others.
    Filter3,
    /// The middle third of the columns against the two outer thirds.
    Filter4,
    /// The middle third of the rows against the two outer thirds.
    Filter5,
}

/// A kernel: its shape and its window.
#[derive(Debug, Clone, Copy, PartialEq, Eq, Structural)]
pub struct Filter {
    kind: FilterKind,
    y: usize,
    height: usize,
    width: usize,
}

/// How many of `rects` hold the cell in row `r` and column `c`.
pub open spec fn cover(rects: Seq<Rect>, r: int, c: int) -> int
    decreases rects.len(),
{
    if rects.len() == 0 {
        0
    } else {
        cover(rects.drop_last(), r, c) + if rects.last().holds(r, c) {
            1int
        } else {
            0int
        }
    }
}

/// The rectangles whose sum a filter of shape `kind` counts, for the window
/// of `w` rows from `x` and `h` columns from `y`.
pub open spec fn counted(kind: FilterKind, x: int, y: int, w: int, h: int) -> Seq<Rect> {
    match kind {
        FilterKind::Filter0 => seq![rect(x, y, x + w, y + h)],
        FilterKind::Filter1 => seq![rect(x, y + h / 2, x + w, y + h)],
        FilterKind::Filter2 => seq![rect(x + w / 2, y, x + w, y + h)],
        FilterKind::Filter3 => seq![
            rect(x, y + h / 2, x + w / 2, y + h),
            rect(x + w / 2, y, x + w, y + h / 2),
        ],
        FilterKind::Filter4 => seq![rect(x, y + h / 3, x + w, y + 2 * (h / 3))],
        FilterKind::Filter5 => seq![rect(x + w / 3, y, x + 2 * (w / 3), y + h)],
    }
}

/// The rectangles whose sum a filter of shape `kind` holds against the
/// counted ones.
pub open spec fn opposed(kind: FilterKind, x: int, y: int, w: int, h: int) -> Seq<Rect> {
    match kind {
        FilterKind::Filter0 => Seq::empty(),
        FilterKind::Filter1 => seq![rect(x, y, x + w, y + h / 2)],
        FilterKind::Filter2 => seq![rect(x, y, x + w / 2, y + h)],
        FilterKind::Filter3 => seq![
            rect(x, y, x + w / 2, y + h / 2),
            rect(x + w / 2, y + h / 2, x + w, y + h),
        ],
        FilterKind::Filter4 => seq![
            rect(x, y, x + w, y + h / 3),
            rect(x, y + 2 * (h / 3), x + w, y + h),
        ],
        FilterKind::Filter5 => seq![
            rect(x, y, x + w / 3, y + h),
            rect(x + 2 * (w / 3), y, x + w, y + h),
        ],
    }
}

/// The rectangle of the rows `r1 .. r2` and the columns `c1 .. c2`.
pub open spec fn rect(r1: int, c1: int, r2: int, c2: int) -> Rect {
    Rect { r1: r1 as usize, c1: c1 as usize, r2: r2 as usize, c2: c2 as usize }
}

impl Filter {
    /// The shape.
    pub closed spec fn spec_kind(&self) -> FilterKind {
        self.kind
    }

    /// The first column of the window.
    pub closed spec fn spec_y(&self) -> usize {
        self.y
    }

    /// The number of columns of the window.
    pub closed spec fn spec_height(&self) -> usize {
        self.height
    }

    /// The number of rows of the window.
    pub closed spec fn spec_width(&self) -> usize {
        self.width
    }

    /// A filter of shape `kind` whose window has `width` rows and the
    /// `height` columns from `y` on.
    pub fn new(kind: FilterKind, y: usize, height: usize, width: usize) -> (filter: Self)
        ensures
            filter.spec_kind() == kind,
            filter.spec_y() == y,
            filter.spec_height() == height,
            filter.spec_width() == width,
    {
        Self { kind, y, height, width }
    }

    /// The shape of the filter.
    pub fn kind(&self) -> (kind: FilterKind)
        ensures
            kind == self.spec_kind(),
    {
        self.kind
    }

    /// The first column of the window.
    pub fn y(&self) -> (y: usize)
        ensures
            y == self.spec_y(),
    {
        self.y
    }

    /// The number of columns of the window.
    pub fn height(&self) -> (height: usize)
        ensures
            height == self.spec_height(),
    {
        self.height
    }

    /// The number of rows of the window.
    pub fn width(&self) -> (width: usize)
        ensures
            width == self.spec_width(),
    {
        self.width
    }

    /// Whether the filter has a window at row `x`: the window is not empty,
    /// and its rows and columns can be counted.
    pub open spec fn has_window(&self, x: int) -> bool {
        &&& self.spec_width() >= 1
        &&& self.spec_height() >= 1
        &&& x + self.spec_width() <= usize::MAX
        &&& self.spec_y() + self.spec_height() <= usize::MAX
    }

    /// Tells whether the filter has a window at row `x`.
    pub fn is_applicable(&self, x: usize) -> (applicable: bool)
        ensures
            applicable == self.has_window(x as int),
    {
        self.width >= 1 && self.height >= 1 && x <= usize::MAX - self.width && self.y
            <= usize::MAX - self.height
    }

    /// The rectangles of the window that begins at row `x`: first those
    /// whose sum the filter counts, then those that it holds against them.
    pub fn regions(&self, x: usize) -> (regions: (Vec<Rect>, Vec<Rect>))
        requires
            self.has_window(x as int),
        ensures
            regions.0@ == counted(
                self.spec_kind(),
                x as int,
                self.spec_y() as int,
                self.spec_width() as int,
                self.spec_height() as int,
            ),
            regions.1@ == opposed(
                self.spec_kind(),
                x as int,
                self.spec_y() as int,
                self.spec_width() as int,
                self.spec_height() as int,
            ),
    {
        let y: usize = self.y;
        let w: usize = self.width;
        let h: usize = self.height;
        let mut a: Vec<Rect> = Vec::new();
        let mut b: Vec<Rect> = Vec::new();
        match self.kind {
            FilterKind::Filter0 => {
                a.push(Rect { r1: x, c1: y, r2: x + w, c2: y + h });
            },
            FilterKind::Filter1 => {
                let h_2: usize = h / 2;
                a.push(Rect { r1: x, c1: y + h_2, r2: x + w, c2: y + h });
                b.push(Rect { r1: x, c1: y, r2: x + w, c2: y + h_2 });
            },
            FilterKind::Filter2 => {
                let w_2: usize = w / 2;
                a.push(Rect { r1: x + w_2, c1: y, r2: x + w, c2: y + h });
                b.push(Rect { r1: x, c1: y, r2: x + w_2, c2: y + h });
            },
            FilterKind::Filter3 => {
                let w_2: usize = w / 2;
                let h_2: usize = h / 2;
                a.push(Rect { r1: x, c1: y + h_2, r2: x + w_2, c2: y + h });
                a.push(Rect { r1: x + w_2, c1: y, r2: x + w, c2: y + h_2 });
                b.push(Rect { r1: x, c1: y, r2: x + w_2, c2: y + h_2 });
                b.push(Rect { r1: x + w_2, c1: y + h_2, r2: x + w, c2: y + h });
            },
            FilterKind::Filter4 => {
                let h_3: usize = h / 3;
                a.push(Rect { r1: x, c1: y + h_3, r2: x + w, c2: y + 2 * h_3 });
                b.push(Rect { r1: x, c1: y, r2: x + w, c2: y + h_3 });
                b.push(Rect { r1: x, c1: y + 2 * h_3, r2: x + w, c2: y + h });
            },
            FilterKind::Filter5 => {
                let w_3: usize = w / 3;
                a.push(Rect { r1: x + w_3, c1: y, r2: x + 2 * w_3, c2: y + h });
                b.push(Rect { r1: x, c1: y, r2: x + w_3, c2: y + h });
                b.push(Rect { r1: x + 2 * w_3, c1: y, r2: x + w, c2: y + h });
            },
        }
        assert(a@ =~= counted(self.kind, x as int, y as int, w as int, h as int));
        assert(b@ =~= opposed(self.kind, x as int, y as int, w as int, h as int));
        (a, b)
    }
}

/// One rectangle covers the cells that it holds, and no rectangle covers
/// nothing.
proof fn lemma_cover_one(a: Rect, r: int, c: int)
    ensures
        cover(seq![a], r, c) == if a.holds(r, c) {
            1int
        } else {
            0int
        },
        cover(Seq::<Rect>::empty(), r, c) == 0,
{
    let none = Seq::<Rect>::empty();
    assert(none.len() == 0);
    assert(cover(none, r, c) == 0);
    assert(seq![a].len() == 1);
    assert(seq![a].drop_last() =~= none);
    assert(seq![a].last() == a);
}

/// Two rectangles cover each cell as often as they hold it.
proof fn lemma_cover_two(a: Rect, b: Rect, r: int, c: int)
    ensures
        cover(seq![a, b], r, c) == (if a.holds(r, c) {
            1int
        } else {
            0int
        }) + (if b.holds(r, c) {
            1int
        } else {
            0int
        }),
{
    assert(seq![a, b].len() == 2);
    assert(seq![a, b].drop_last() =~= seq![a]);
    assert(seq![a, b].last() == b);
    lemma_cover_one(a, r, c);
}

/// The rectangles of a filter tile its window: every cell of the window
/// lies in exactly one of them, and no other cell in any.
pub proof fn lemma_regions_tile(kind: FilterKind, x: int, y: int, w: int, h: int, r: int, c: int)
    requires
        0 <= x,
        0 <= y,
        1 <= w,
        1 <= h,
        x + w <= usize::MAX,
        y + h <= usize::MAX,
    ensures
        cover(counted(kind, x, y, w, h), r, c) + cover(opposed(kind, x, y, w, h), r, c) == if x
            <= r < x + w && y <= c < y + h {
            1int
        } else {
            0int
        },
{
    match kind {
        FilterKind::Filter0 => {
            lemma_cover_one(rect(x, y, x + w, y + h), r, c);
        },
        FilterKind::Filter1 => {
            lemma_cover_one(rect(x, y + h / 2, x + w, y + h), r, c);
            lemma_cover_one(rect(x, y, x + w, y + h / 2), r, c);
        },
        FilterKind::Filter2 => {
            lemma_cover_one(rect(x + w / 2, y, x + w, y + h), r, c);
            lemma_cover_one(rect(x, y, x + w / 2, y + h), r, c);
        },
        FilterKind::Filter3 => {
            lemma_cover_two(
                rect(x, y + h / 2, x + w / 2, y + h),
                rect(x + w / 2, y, x + w, y + h / 2),
                r,
                c,
            );
            lemma_cover_two(
                rect(x, y, x + w / 2, y + h / 2),
                rect(x + w / 2, y + h / 2, x + w, y + h),
                r,
                c,
            );
        },
        FilterKind::Filter4 => {
            lemma_cover_one(rect(x, y + h / 3, x + w, y + 2 * (h / 3)), r, c);
            lemma_cover_two(
                rect(x, y, x + w, y + h / 3),
                rect(x, y + 2 * (h / 3), x + w, y + h),
                r,
                c,
            );
        },
        FilterKind::Filter5 => {
            lemma_cover_one(rect(x + w / 3, y, x + 2 * (w / 3), y + h), r, c);
            lemma_cover_two(
                rect(x, y, x + w / 3, y + h),
                rect(x + 2 * (w / 3), y, x + w, y + h),
                r,
                c,
            );
        },
    }
}

} // verus!
