//! Grid geometry: point requests and half-open axis-aligned rectangles.

use vstd::prelude::*;

verus! {

/// Side length of the square grid; all coordinates live in `[0, MAP_SIZE)`
/// and rectangle bounds in `[0, MAP_SIZE]`.
pub const MAP_SIZE: u64 = 10000;

/// One input request: a point on the grid and the desired rectangle area.
#[derive(Clone, Copy, Debug, PartialEq, Eq, Structural)]
pub struct Request {
    pub row: u64,
    pub col: u64,
    pub area: u64,
}

/// A candidate answer to one request: the half-open box
/// `[row0, row1) x [col0, col1)`.
#[derive(Clone, Copy, Debug, PartialEq, Eq, Structural)]
pub struct Rect {
    pub row0: u64,
    pub col0: u64,
    pub row1: u64,
    pub col1: u64,
}

impl Request {
    /// A request is valid when its point lies on the grid and it asks for a
    /// positive area.
    pub open spec fn valid(self) -> bool {
        self.row < MAP_SIZE && self.col < MAP_SIZE && self.area >= 1
    }
}

impl Rect {
    /// A rectangle is well formed when both projections are non-empty and it
    /// lies within the grid. The upper bounds may close the box at `MAP_SIZE`
    /// itself: the initial one-by-one answer to a request on the last row or
    /// column needs that. Mutated candidates are held strictly below
    /// `MAP_SIZE` in every coordinate by the acceptance engine.
    pub open spec fn wf(self) -> bool {
        self.row0 < self.row1 <= MAP_SIZE && self.col0 < self.col1 <= MAP_SIZE
    }

    pub open spec fn spec_width(self) -> int {
        self.col1 - self.col0
    }

    pub open spec fn spec_height(self) -> int {
        self.row1 - self.row0
    }

    pub open spec fn spec_area(self) -> int {
        self.spec_height() * self.spec_width()
    }

    /// Whether the point `(row, col)` lies inside the half-open box.
    pub open spec fn spec_contains(self, row: u64, col: u64) -> bool {
        self.row0 <= row < self.row1 && self.col0 <= col < self.col1
    }

    /// Whether the interiors of `self` and `other` overlap: both projections
    /// must overlap strictly, so two rectangles touching only along an edge
    /// or at a corner do not intersect.
    pub open spec fn spec_intersects(self, other: Rect) -> bool {
        self.row0 < other.row1 && other.row0 < self.row1
            && self.col0 < other.col1 && other.col0 < self.col1
    }

    pub fn width(&self) -> (w: u64)
        requires
            self.wf(),
        ensures
            w == self.spec_width(),
    {
        self.col1 - self.col0
    }

    pub fn height(&self) -> (h: u64)
        requires
            self.wf(),
        ensures
            h == self.spec_height(),
    {
        self.row1 - self.row0
    }

    /// The area of the box; well-formedness bounds both sides by `MAP_SIZE`,
    /// so the product cannot overflow.
    pub fn area(&self) -> (a: u64)
        requires
            self.wf(),
        ensures
            a == self.spec_area(),
            1 <= a <= MAP_SIZE * MAP_SIZE,
    {
        proof {
            lemma_area_bounds(*self);
        }
        (self.row1 - self.row0) * (self.col1 - self.col0)
    }

    pub fn contains(&self, row: u64, col: u64) -> (r: bool)
        ensures
            r == self.spec_contains(row, col),
    {
        self.row0 <= row && row < self.row1 && self.col0 <= col && col < self.col1
    }

    pub fn intersects(&self, other: &Rect) -> (r: bool)
        ensures
            r == self.spec_intersects(*other),
    {
        self.row0 < other.row1 && other.row0 < self.row1
            && self.col0 < other.col1 && other.col0 < self.col1
    }
}

/// A well-formed rectangle's area lies between 1 and the whole grid.
pub proof fn lemma_area_bounds(r: Rect)
    requires
        r.wf(),
    ensures
        1 <= r.spec_area() <= MAP_SIZE * MAP_SIZE,
{
    let h = r.spec_height();
    let w = r.spec_width();
    assert(1 <= h <= MAP_SIZE && 1 <= w <= MAP_SIZE);
    assert(1 <= h * w <= MAP_SIZE * MAP_SIZE) by (nonlinear_arith)
        requires
            1 <= h <= MAP_SIZE && 1 <= w <= MAP_SIZE,
    ;
}

/// Intersection is symmetric: whether two rectangles overlap does not depend
/// on the order in which they are compared.
pub proof fn lemma_intersects_symmetric(a: Rect, b: Rect)
    ensures
        a.spec_intersects(b) == b.spec_intersects(a),
{
}

/// Two rectangles that share only a boundary edge do not intersect: the
/// boxes are half-open, so strict overlap of both projections is required.
pub proof fn lemma_edge_touch_disjoint(a: Rect, b: Rect)
    requires
        a.row1 == b.row0 || b.row1 == a.row0 || a.col1 == b.col0 || b.col1 == a.col0,
    ensures
        !a.spec_intersects(b),
        !b.spec_intersects(a),
{
}

} // verus!
