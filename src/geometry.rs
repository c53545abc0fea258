use vstd::math::{max, min};
use vstd::prelude::*;

verus! {

/// Half-width, on each axis, of the box that stands for a point: one arcsecond.
pub const POINT_HALF_WIDTH: i64 = 1;

/// An axis-aligned rectangle with an optional tag into a caller-owned set.
#[derive(Debug, Clone, Copy, PartialEq, Eq)]
pub struct Rectangle {
    pub x_min: i64,
    pub y_min: i64,
    pub x_max: i64,
    pub y_max: i64,
    pub tag: Option<usize>,
}

/// A point with an optional tag.
#[derive(Debug, Clone, Copy, PartialEq, Eq)]
pub struct Point {
    pub x: i64,
    pub y: i64,
    pub tag: Option<usize>,
}

/// The shapes that can be placed in a sky or an index.
#[derive(Debug, Clone, Copy, PartialEq, Eq)]
pub enum Shape {
    Rect(Rectangle),
    Pt(Point),
}

impl Rectangle {
    /// Bounds are ordered on both axes.
    pub open spec fn wf(self) -> bool {
        self.x_min <= self.x_max && self.y_min <= self.y_max
    }

    /// `self` encloses `other` on both axes, bounds included.
    pub open spec fn encloses(self, other: Rectangle) -> bool {
        self.x_min <= other.x_min && self.y_min <= other.y_min && other.x_max <= self.x_max
            && other.y_max <= self.y_max
    }

    /// The x-ranges and the y-ranges intersect, touching edges included.
    pub open spec fn meets(self, other: Rectangle) -> bool {
        self.x_min <= other.x_max && other.x_min <= self.x_max && self.y_min <= other.y_max
            && other.y_min <= self.y_max
    }

    /// The bounds as `[x_min, y_min, x_max, y_max]`.
    pub open spec fn bound_seq(self) -> Seq<i64> {
        seq![self.x_min, self.y_min, self.x_max, self.y_max]
    }

    /// Builds a rectangle from two corners given in any order.
    pub fn new(x_min: i64, y_min: i64, x_max: i64, y_max: i64, idx: Option<usize>) -> (r: Self)
        ensures
            r.wf(),
            r.x_min == min(x_min as int, x_max as int),
            r.x_max == max(x_min as int, x_max as int),
            r.y_min == min(y_min as int, y_max as int),
            r.y_max == max(y_min as int, y_max as int),
            r.tag == idx,
    {
        let (x0, x1) = if x_min <= x_max { (x_min, x_max) } else { (x_max, x_min) };
        let (y0, y1) = if y_min <= y_max { (y_min, y_max) } else { (y_max, y_min) };
        Rectangle { x_min: x0, y_min: y0, x_max: x1, y_max: y1, tag: idx }
    }

    /// The four bounds, `[x_min, y_min, x_max, y_max]`.
    pub fn bounds(&self) -> (r: [i64; 4])
        ensures
            r@ == self.bound_seq(),
    {
        let r = [self.x_min, self.y_min, self.x_max, self.y_max];
        assert(r@ =~= self.bound_seq());
        r
    }

    /// Whether `self` fully encloses `other`, bounds included.
    pub fn contains(&self, other: &Rectangle) -> (r: bool)
        ensures
            r == self.encloses(*other),
    {
        if self.x_min > other.x_min {
            return false;
        }
        if self.y_min > other.y_min {
            return false;
        }
        if self.x_max < other.x_max {
            return false;
        }
        if self.y_max < other.y_max {
            return false;
        }
        true
    }

    /// Whether the two rectangles intersect; touching edges count.
    pub fn overlaps(&self, other: &Rectangle) -> (r: bool)
        ensures
            r == self.meets(*other),
    {
        self.x_min <= other.x_max && other.x_min <= self.x_max && self.y_min <= other.y_max
            && other.y_min <= self.y_max
    }

    /// Signed difference of each bound, `self` minus `other`, in the order of `bounds`.
    pub fn dbounds(&self, other: &Rectangle) -> (r: [i64; 4])
        requires
            i64::MIN <= self.x_min - other.x_min <= i64::MAX,
            i64::MIN <= self.y_min - other.y_min <= i64::MAX,
            i64::MIN <= self.x_max - other.x_max <= i64::MAX,
            i64::MIN <= self.y_max - other.y_max <= i64::MAX,
        ensures
            r@[0] == self.x_min - other.x_min,
            r@[1] == self.y_min - other.y_min,
            r@[2] == self.x_max - other.x_max,
            r@[3] == self.y_max - other.y_max,
    {
        [
            self.x_min - other.x_min,
            self.y_min - other.y_min,
            self.x_max - other.x_max,
            self.y_max - other.y_max,
        ]
    }

    /// A rectangle is its own bounding box.
    pub fn bounding_box(&self) -> (r: Rectangle)
        ensures
            r == *self,
    {
        *self
    }

    /// The rectangle's tag.
    pub fn get_idx(&self) -> (r: Option<usize>)
        ensures
            r == self.tag,
    {
        self.tag
    }
}

/// Every rectangle contains itself.
pub proof fn lemma_contains_reflexive(b: Rectangle)
    ensures
        b.encloses(b),
{
}

/// Overlap does not depend on the order of its arguments.
pub proof fn lemma_overlaps_symmetric(a: Rectangle, b: Rectangle)
    ensures
        a.meets(b) == b.meets(a),
{
}

/// A rectangle that encloses one which meets `q` meets `q` too.
pub proof fn lemma_enclosing_meets(outer: Rectangle, inner: Rectangle, q: Rectangle)
    requires
        outer.encloses(inner),
        inner.meets(q),
    ensures
        outer.meets(q),
{
}

impl Point {
    /// The point's box stays within the range of `i64`.
    pub open spec fn wf(self) -> bool {
        i64::MIN < self.x < i64::MAX && i64::MIN < self.y < i64::MAX
    }

    /// The box of half-width `POINT_HALF_WIDTH` centred on the point.
    pub open spec fn box_of(self) -> Rectangle {
        Rectangle {
            x_min: (self.x - POINT_HALF_WIDTH) as i64,
            y_min: (self.y - POINT_HALF_WIDTH) as i64,
            x_max: (self.x + POINT_HALF_WIDTH) as i64,
            y_max: (self.y + POINT_HALF_WIDTH) as i64,
            tag: self.tag,
        }
    }

    /// The box of half-width one arcsecond around the point, with its tag.
    pub fn bounding_box(&self) -> (r: Rectangle)
        requires
            self.wf(),
        ensures
            r == self.box_of(),
            r.wf(),
    {
        Rectangle::new(
            self.x - POINT_HALF_WIDTH,
            self.y - POINT_HALF_WIDTH,
            self.x + POINT_HALF_WIDTH,
            self.y + POINT_HALF_WIDTH,
            self.get_idx(),
        )
    }

    /// The point's tag.
    pub fn get_idx(&self) -> (r: Option<usize>)
        ensures
            r == self.tag,
    {
        self.tag
    }
}

impl Shape {
    /// A rectangle has ordered bounds; a point's box fits in `i64`.
    pub open spec fn wf(self) -> bool {
        match self {
            Shape::Rect(r) => r.wf(),
            Shape::Pt(p) => p.wf(),
        }
    }

    /// The bounding box of the shape.
    pub open spec fn box_of(self) -> Rectangle {
        match self {
            Shape::Rect(r) => r,
            Shape::Pt(p) => p.box_of(),
        }
    }

    /// The tag of the shape.
    pub open spec fn tag_of(self) -> Option<usize> {
        match self {
            Shape::Rect(r) => r.tag,
            Shape::Pt(p) => p.tag,
        }
    }

    /// The bounding box of the shape, carrying the shape's tag.
    pub fn bounding_box(&self) -> (r: Rectangle)
        requires
            self.wf(),
        ensures
            r == self.box_of(),
            r.wf(),
            r.tag == self.tag_of(),
    {
        match self {
            Shape::Rect(r) => r.bounding_box(),
            Shape::Pt(p) => p.bounding_box(),
        }
    }

    /// The tag of the shape.
    pub fn get_idx(&self) -> (r: Option<usize>)
        ensures
            r == self.tag_of(),
    {
        match self {
            Shape::Rect(r) => r.get_idx(),
            Shape::Pt(p) => p.get_idx(),
        }
    }
}

} // verus!
