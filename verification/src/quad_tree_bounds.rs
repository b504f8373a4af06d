use vstd::prelude::*;

verus! {

/// An axis-aligned rectangle: `(x, y)` is one corner, `(w, h)` the extents.
///
/// Containment is inclusive on all four edges, while intersection is the
/// overlap of the *open* rectangles: two rectangles that only touch at an
/// edge or a corner do not intersect.  This asymmetry decides both quadrant
/// placement and query matching throughout the tree.
#[derive(Clone, Copy, PartialEq, Eq, Structural, Debug)]
pub struct QuadTreeBounds {
    pub x: i64,
    pub y: i64,
    pub w: i64,
    pub h: i64,
}

impl QuadTreeBounds {
    /// `other` lies entirely within or on the boundary of `self`.
    pub open spec fn spec_contains(&self, other: QuadTreeBounds) -> bool {
        &&& self.x <= other.x
        &&& other.x + other.w <= self.x + self.w
        &&& self.y <= other.y
        &&& other.y + other.h <= self.y + self.h
    }

    /// The open rectangles overlap on both axes.
    pub open spec fn spec_intersects(&self, other: QuadTreeBounds) -> bool {
        &&& self.x < other.x + other.w
        &&& other.x < self.x + self.w
        &&& self.y < other.y + other.h
        &&& other.y < self.y + self.h
    }

    pub fn new(x: i64, y: i64, w: i64, h: i64) -> (r: QuadTreeBounds)
        ensures
            r == (QuadTreeBounds { x, y, w, h }),
    {
        QuadTreeBounds { x, y, w, h }
    }

    /// The edge with the greater `y` coordinate.
    pub fn top(&self) -> (r: i64)
        requires
            i64::MIN <= self.y + self.h <= i64::MAX,
        ensures
            r == self.y + self.h,
    {
        self.y + self.h
    }

    /// The edge with the greater `x` coordinate.
    pub fn right(&self) -> (r: i64)
        requires
            i64::MIN <= self.x + self.w <= i64::MAX,
        ensures
            r == self.x + self.w,
    {
        self.x + self.w
    }

    /// The edge with the lesser `y` coordinate.
    pub fn bottom(&self) -> (r: i64)
        ensures
            r == self.y,
    {
        self.y
    }

    /// The edge with the lesser `x` coordinate.
    pub fn left(&self) -> (r: i64)
        ensures
            r == self.x,
    {
        self.x
    }

    /// Inclusive containment test; the sums are computed in a wider type so
    /// the test is total over all coordinates.
    #[verifier::when_used_as_spec(spec_contains)]
    pub fn contains(&self, other: QuadTreeBounds) -> (r: bool)
        ensures
            r == self.spec_contains(other),
    {
        self.x <= other.x
            && other.x as i128 + other.w as i128 <= self.x as i128 + self.w as i128
            && self.y <= other.y
            && other.y as i128 + other.h as i128 <= self.y as i128 + self.h as i128
    }

    /// Exclusive (open-rectangle) intersection test.
    #[verifier::when_used_as_spec(spec_intersects)]
    pub fn intersects(&self, other: QuadTreeBounds) -> (r: bool)
        ensures
            r == self.spec_intersects(other),
    {
        (self.x as i128) < other.x as i128 + other.w as i128
            && (other.x as i128) < self.x as i128 + self.w as i128
            && (self.y as i128) < other.y as i128 + other.h as i128
            && (other.y as i128) < self.y as i128 + self.h as i128
    }
}

/// An area that intersects a rectangle inside `outer` intersects `outer` too.
pub proof fn lemma_intersects_contained(
    area: QuadTreeBounds,
    outer: QuadTreeBounds,
    inner: QuadTreeBounds,
)
    requires
        outer.spec_contains(inner),
        area.spec_intersects(inner),
    ensures
        area.spec_intersects(outer),
{
}

/// Containment is transitive.
pub proof fn lemma_contains_transitive(
    a: QuadTreeBounds,
    b: QuadTreeBounds,
    c: QuadTreeBounds,
)
    requires
        a.spec_contains(b),
        b.spec_contains(c),
    ensures
        a.spec_contains(c),
{
}

} // verus!
