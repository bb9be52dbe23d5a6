use vstd::prelude::*;

verus! {

/// A 2D vector of integer canvas units (also used for per-axis scale factors).
#[derive(Clone, Copy, Debug, PartialEq, Eq, Structural)]
pub struct Vector2D {
    pub x: i64,
    pub y: i64,
}

/// An axis-aligned rectangle in world space, with both edges included.
#[derive(Clone, Copy, Debug, PartialEq, Eq, Structural)]
pub struct BoundingBox {
    pub min: Vector2D,
    pub max: Vector2D,
}

/// Whether the point `(x, y)` lies in `b` (edges included).
pub open spec fn box_contains_point(b: BoundingBox, x: int, y: int) -> bool {
    b.min.x <= x <= b.max.x && b.min.y <= y <= b.max.y
}

/// Whether `b` shares at least one point with the rectangle from `(x0, y0)` to `(x1, y1)`.
pub open spec fn box_overlaps_rect(b: BoundingBox, x0: int, y0: int, x1: int, y1: int) -> bool {
    b.min.x <= x1 && x0 <= b.max.x && b.min.y <= y1 && y0 <= b.max.y
}

/// Whether `inner` lies entirely inside `outer`.
pub open spec fn box_within(inner: BoundingBox, outer: BoundingBox) -> bool {
    outer.min.x <= inner.min.x && inner.max.x <= outer.max.x && outer.min.y <= inner.min.y
        && inner.max.y <= outer.max.y
}

impl BoundingBox {
    pub fn new(min: Vector2D, max: Vector2D) -> (r: BoundingBox)
        ensures
            r.min == min,
            r.max == max,
    {
        BoundingBox { min, max }
    }

    /// Whether the point `(x, y)` lies in this box, edges included.
    pub fn contains_point(&self, x: i64, y: i64) -> (r: bool)
        ensures
            r == box_contains_point(*self, x as int, y as int),
    {
        self.min.x <= x && x <= self.max.x && self.min.y <= y && y <= self.max.y
    }

    /// Whether this box and `other` share at least one point; touching edges count.
    pub fn intersects(&self, other: &BoundingBox) -> (r: bool)
        ensures
            r == box_overlaps_rect(*self, other.min.x as int, other.min.y as int, other.max.x as int, other.max.y as int),
    {
        self.min.x <= other.max.x && other.min.x <= self.max.x && self.min.y <= other.max.y
            && other.min.y <= self.max.y
    }

    /// Whether this box lies entirely inside `outer`.
    pub fn is_within(&self, outer: &BoundingBox) -> (r: bool)
        ensures
            r == box_within(*self, *outer),
    {
        outer.min.x <= self.min.x && self.max.x <= outer.max.x && outer.min.y <= self.min.y
            && self.max.y <= outer.max.y
    }
}

/// A box that contains a point also meets every rectangle around that point, and a box
/// inside `outer` only meets what `outer` meets.
pub proof fn lemma_within_preserves_hits(inner: BoundingBox, outer: BoundingBox, x0: int, y0: int, x1: int, y1: int)
    requires
        box_within(inner, outer),
    ensures
        box_contains_point(inner, x0, y0) ==> box_contains_point(outer, x0, y0),
        box_overlaps_rect(inner, x0, y0, x1, y1) ==> box_overlaps_rect(outer, x0, y0, x1, y1),
{
}

} // verus!
