//! Shared geometric primitives: 2D vectors, points, sizes and axis-aligned
//! rectangles over integer coordinates.

use vstd::prelude::*;

verus! {

/// A 2D vector (also used for translations).
#[derive(Debug, Clone, Copy, PartialEq, Eq, Hash, Structural)]
pub struct Vec2 {
    pub x: i64,
    pub y: i64,
}

impl Vec2 {
    pub fn new(x: i64, y: i64) -> (r: Vec2)
        ensures
            r == (Vec2 { x, y }),
    {
        Vec2 { x, y }
    }

    /// The zero vector.
    pub fn zero() -> (r: Vec2)
        ensures
            r == (Vec2 { x: 0, y: 0 }),
    {
        Vec2 { x: 0, y: 0 }
    }
}

/// A 2D size (width, height).
#[derive(Debug, Clone, Copy, PartialEq, Eq, Hash, Structural)]
pub struct Size {
    pub width: i64,
    pub height: i64,
}

impl Size {
    pub fn new(width: i64, height: i64) -> (r: Size)
        ensures
            r == (Size { width, height }),
    {
        Size { width, height }
    }

    pub fn zero() -> (r: Size)
        ensures
            r == (Size { width: 0, height: 0 }),
    {
        Size { width: 0, height: 0 }
    }
}

/// A 2D point.
#[derive(Debug, Clone, Copy, PartialEq, Eq, Hash, Structural)]
pub struct Point {
    pub x: i64,
    pub y: i64,
}

impl Point {
    pub fn new(x: i64, y: i64) -> (r: Point)
        ensures
            r == (Point { x, y }),
    {
        Point { x, y }
    }
}

/// An axis-aligned rectangle, spanned by its minimum corner `(x0, y0)` and
/// its maximum corner `(x1, y1)`.
#[derive(Debug, Clone, Copy, PartialEq, Eq, Hash, Structural)]
pub struct Rect {
    pub x0: i64,
    pub y0: i64,
    pub x1: i64,
    pub y1: i64,
}

/// A rectangle is well-formed when its corners are ordered.
pub open spec fn rect_wf(r: Rect) -> bool {
    r.x0 <= r.x1 && r.y0 <= r.y1
}

/// The smallest rectangle enclosing two rectangles.
pub open spec fn spec_union(a: Rect, b: Rect) -> Rect {
    Rect {
        x0: if a.x0 <= b.x0 { a.x0 } else { b.x0 },
        y0: if a.y0 <= b.y0 { a.y0 } else { b.y0 },
        x1: if a.x1 >= b.x1 { a.x1 } else { b.x1 },
        y1: if a.y1 >= b.y1 { a.y1 } else { b.y1 },
    }
}

/// Half-open point containment: the minimum edges are inside, the maximum
/// edges are not.
pub open spec fn spec_contains(r: Rect, p: Point) -> bool {
    p.x >= r.x0 && p.x < r.x1 && p.y >= r.y0 && p.y < r.y1
}

/// Closed-edge overlap test: rectangles that merely touch count as
/// overlapping.
pub open spec fn spec_overlaps(a: Rect, b: Rect) -> bool {
    a.x0 <= b.x1 && a.x1 >= b.x0 && a.y0 <= b.y1 && a.y1 >= b.y0
}

/// `inner` lies entirely within `outer`.
pub open spec fn spec_encloses(outer: Rect, inner: Rect) -> bool {
    outer.x0 <= inner.x0 && inner.x1 <= outer.x1 && outer.y0 <= inner.y0 && inner.y1 <= outer.y1
}

impl Rect {
    pub fn new(x0: i64, y0: i64, x1: i64, y1: i64) -> (r: Rect)
        ensures
            r == (Rect { x0, y0, x1, y1 }),
    {
        Rect { x0, y0, x1, y1 }
    }

    /// The rectangle whose four coordinates are all zero.
    pub fn zero() -> (r: Rect)
        ensures
            r == (Rect { x0: 0, y0: 0, x1: 0, y1: 0 }),
    {
        Rect { x0: 0, y0: 0, x1: 0, y1: 0 }
    }

    /// The smallest rectangle enclosing `self` and `other`.
    pub fn union(&self, other: Rect) -> (r: Rect)
        ensures
            r == spec_union(*self, other),
    {
        Rect {
            x0: if self.x0 <= other.x0 { self.x0 } else { other.x0 },
            y0: if self.y0 <= other.y0 { self.y0 } else { other.y0 },
            x1: if self.x1 >= other.x1 { self.x1 } else { other.x1 },
            y1: if self.y1 >= other.y1 { self.y1 } else { other.y1 },
        }
    }

    /// Half-open point containment test.
    pub fn contains(&self, point: Point) -> (r: bool)
        ensures
            r == spec_contains(*self, point),
    {
        point.x >= self.x0 && point.x < self.x1 && point.y >= self.y0 && point.y < self.y1
    }

    /// Closed-edge overlap test.
    pub fn overlaps(&self, other: Rect) -> (r: bool)
        ensures
            r == spec_overlaps(*self, other),
    {
        self.x0 <= other.x1 && self.x1 >= other.x0 && self.y0 <= other.y1 && self.y1 >= other.y0
    }

    pub fn width(&self) -> (r: i64)
        requires
            self.x1 - self.x0 <= i64::MAX,
            rect_wf(*self),
        ensures
            r == self.x1 - self.x0,
    {
        self.x1 - self.x0
    }

    pub fn height(&self) -> (r: i64)
        requires
            self.y1 - self.y0 <= i64::MAX,
            rect_wf(*self),
        ensures
            r == self.y1 - self.y0,
    {
        self.y1 - self.y0
    }

    /// The center point, rounded toward the minimum corner.
    pub fn center(&self) -> (r: Point)
        requires
            rect_wf(*self),
            self.x1 - self.x0 <= i64::MAX,
            self.y1 - self.y0 <= i64::MAX,
        ensures
            r.x == self.x0 + (self.x1 - self.x0) / 2,
            r.y == self.y0 + (self.y1 - self.y0) / 2,
    {
        Point { x: self.x0 + (self.x1 - self.x0) / 2, y: self.y0 + (self.y1 - self.y0) / 2 }
    }
}

/// The midpoint of a coordinate span, measured from the lower end.
pub open spec fn mid_of(a: int, b: int) -> int {
    let lo = if a <= b {
        a
    } else {
        b
    };
    let hi = if a <= b {
        b
    } else {
        a
    };
    lo + (hi - lo) / 2
}

impl Rect {
    /// The center point rounded toward the minimum corner, defined for
    /// every rectangle: unlike `center`, no size limit is demanded, so this
    /// form can be handed to `Spatree::build` from verified code.
    pub fn midpoint(&self) -> (r: Point)
        ensures
            r.x == mid_of(self.x0 as int, self.x1 as int),
            r.y == mid_of(self.y0 as int, self.y1 as int),
            rect_wf(*self) ==> r.x == self.x0 + (self.x1 - self.x0) / 2 && r.y == self.y0 + (
            self.y1 - self.y0) / 2,
    {
        let x = Self::mid_coord(self.x0, self.x1);
        let y = Self::mid_coord(self.y0, self.y1);
        Point { x, y }
    }

    fn mid_coord(a: i64, b: i64) -> (r: i64)
        ensures
            r == mid_of(a as int, b as int),
    {
        let (lo, hi) = if a <= b {
            (a, b)
        } else {
            (b, a)
        };
        let span: i128 = (hi as i128) - (lo as i128);
        let half: i128 = ((span as u128) / 2) as i128;
        proof {
            assert(0 <= span <= u64::MAX);
            assert((span as u128) / 2 <= (span as u128));
            assert(half == (hi - lo) / 2);
            assert(lo <= lo + half <= hi);
        }
        ((lo as i128) + half) as i64
    }
}

/// The union is commutative.
pub proof fn lemma_union_commutative(a: Rect, b: Rect)
    ensures
        spec_union(a, b) == spec_union(b, a),
{
}

/// The union is associative.
pub proof fn lemma_union_associative(a: Rect, b: Rect, c: Rect)
    ensures
        spec_union(spec_union(a, b), c) == spec_union(a, spec_union(b, c)),
{
}

/// The union encloses both of its arguments.
pub proof fn lemma_union_encloses(a: Rect, b: Rect)
    ensures
        spec_encloses(spec_union(a, b), a),
        spec_encloses(spec_union(a, b), b),
{
}

/// Enclosure is transitive.
pub proof fn lemma_encloses_transitive(a: Rect, b: Rect, c: Rect)
    requires
        spec_encloses(a, b),
        spec_encloses(b, c),
    ensures
        spec_encloses(a, c),
{
}

/// A point inside an enclosed rectangle is inside the enclosing one.
pub proof fn lemma_contains_monotone(outer: Rect, inner: Rect, p: Point)
    requires
        spec_encloses(outer, inner),
        spec_contains(inner, p),
    ensures
        spec_contains(outer, p),
{
}

/// A rectangle overlapping an enclosed rectangle overlaps the enclosing one.
pub proof fn lemma_overlaps_monotone(outer: Rect, inner: Rect, t: Rect)
    requires
        spec_encloses(outer, inner),
        spec_overlaps(inner, t),
    ensures
        spec_overlaps(outer, t),
{
}

} // verus!
