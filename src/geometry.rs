//! Points and axis-aligned rectangles with integer coordinates.
use vstd::prelude::*;

verus! {

/// A point of the plane.
#[derive(Debug, Clone, Copy, PartialEq, Eq, Structural)]
pub struct Point {
    pub x: i32,
    pub y: i32,
}

impl Point {
    pub fn new(x: i32, y: i32) -> (r: Self)
        ensures
            r.x == x,
            r.y == y,
    {
        Point { x, y }
    }

    /// Lexicographic order: `x` first, then `y`.
    pub open spec fn cmp_spec(&self, other: &Point) -> core::cmp::Ordering {
        if self.x < other.x || (self.x == other.x && self.y < other.y) {
            core::cmp::Ordering::Less
        } else if self.x == other.x && self.y == other.y {
            core::cmp::Ordering::Equal
        } else {
            core::cmp::Ordering::Greater
        }
    }
}

impl PartialOrd for Point {
    fn partial_cmp(&self, other: &Point) -> (r: Option<core::cmp::Ordering>)
        ensures
            r == Some(self.cmp_spec(other)),
    {
        if self.x == other.x {
            if self.y < other.y {
                Some(core::cmp::Ordering::Less)
            } else if self.y == other.y {
                Some(core::cmp::Ordering::Equal)
            } else {
                Some(core::cmp::Ordering::Greater)
            }
        } else if self.x < other.x {
            Some(core::cmp::Ordering::Less)
        } else {
            Some(core::cmp::Ordering::Greater)
        }
    }
}

impl vstd::std_specs::cmp::PartialOrdSpecImpl for Point {
    open spec fn obeys_partial_cmp_spec() -> bool {
        true
    }

    open spec fn partial_cmp_spec(&self, other: &Point) -> Option<core::cmp::Ordering> {
        Some(self.cmp_spec(other))
    }
}

/// An axis-aligned rectangle given by its lower-left and upper-right corners.
#[derive(Debug, Clone, Copy, PartialEq, Eq, Structural)]
pub struct Rectangle {
    pub ll: Point,
    pub ur: Point,
}

/// Smaller of two coordinates.
pub open spec fn min_i32(a: i32, b: i32) -> i32 {
    if a <= b { a } else { b }
}

/// Larger of two coordinates.
pub open spec fn max_i32(a: i32, b: i32) -> i32 {
    if a >= b { a } else { b }
}

impl Rectangle {
    /// Corners are ordered on both axes (degenerate rectangles allowed).
    pub open spec fn valid(&self) -> bool {
        self.ll.x <= self.ur.x && self.ll.y <= self.ur.y
    }

    pub open spec fn contains_spec(&self, p: Point) -> bool {
        self.ll.x <= p.x && p.x <= self.ur.x && self.ll.y <= p.y && p.y <= self.ur.y
    }

    pub open spec fn intersects_spec(&self, o: Rectangle) -> bool {
        self.ll.x <= o.ur.x && o.ll.x <= self.ur.x && self.ll.y <= o.ur.y && o.ll.y <= self.ur.y
    }

    pub open spec fn contains_rect_spec(&self, o: Rectangle) -> bool {
        self.ll.x <= o.ll.x && o.ur.x <= self.ur.x && self.ll.y <= o.ll.y && o.ur.y <= self.ur.y
    }

    /// The tightest rectangle covering both.
    pub open spec fn mbr_spec(&self, o: Rectangle) -> Rectangle {
        Rectangle {
            ll: Point { x: min_i32(self.ll.x, o.ll.x), y: min_i32(self.ll.y, o.ll.y) },
            ur: Point { x: max_i32(self.ur.x, o.ur.x), y: max_i32(self.ur.y, o.ur.y) },
        }
    }

    /// Area, for a valid rectangle.
    pub open spec fn area_spec(&self) -> int {
        (self.ur.x - self.ll.x) * (self.ur.y - self.ll.y)
    }

    pub fn new(ll: Point, ur: Point) -> (r: Self)
        ensures
            r.ll == ll,
            r.ur == ur,
    {
        Rectangle { ll, ur }
    }

    /// True iff the corners are ordered on both axes.
    pub fn is_valid(&self) -> (r: bool)
        ensures
            r == self.valid(),
    {
        self.ll.x <= self.ur.x && self.ll.y <= self.ur.y
    }

    /// True iff `p` lies within the inclusive bounds.
    pub fn contains(&self, p: &Point) -> (r: bool)
        ensures
            r == self.contains_spec(*p),
    {
        self.ll.x <= p.x && p.x <= self.ur.x && self.ll.y <= p.y && p.y <= self.ur.y
    }

    /// True iff the two rectangles overlap on both axes (inclusive bounds).
    pub fn intersects(&self, other: &Rectangle) -> (r: bool)
        ensures
            r == self.intersects_spec(*other),
    {
        self.ll.x <= other.ur.x && other.ll.x <= self.ur.x && self.ll.y <= other.ur.y
            && other.ll.y <= self.ur.y
    }

    /// True iff this rectangle encloses `other` on both axes.
    pub fn contains_rect(&self, other: &Rectangle) -> (r: bool)
        ensures
            r == self.contains_rect_spec(*other),
    {
        self.ll.x <= other.ll.x && other.ur.x <= self.ur.x && self.ll.y <= other.ll.y
            && other.ur.y <= self.ur.y
    }

    /// The minimum bounding rectangle of both rectangles.
    pub fn mbr(&self, other: &Rectangle) -> (r: Rectangle)
        ensures
            r == self.mbr_spec(*other),
    {
        let llx = if self.ll.x <= other.ll.x { self.ll.x } else { other.ll.x };
        let lly = if self.ll.y <= other.ll.y { self.ll.y } else { other.ll.y };
        let urx = if self.ur.x >= other.ur.x { self.ur.x } else { other.ur.x };
        let ury = if self.ur.y >= other.ur.y { self.ur.y } else { other.ur.y };
        Rectangle::new(Point::new(llx, lly), Point::new(urx, ury))
    }

    /// The area, exact for every rectangle of `i32` coordinates.
    pub fn area(&self) -> (r: i128)
        ensures
            r == self.area_spec(),
            -0x1_0000_0000_0000_0000 <= r <= 0x1_0000_0000_0000_0000,
    {
        let w: i128 = self.ur.x as i128 - self.ll.x as i128;
        let h: i128 = self.ur.y as i128 - self.ll.y as i128;
        proof {
            assert(-0x1_0000_0000 <= w <= 0x1_0000_0000);
            assert(-0x1_0000_0000 <= h <= 0x1_0000_0000);
            lemma_area_bound(w as int, h as int);
        }
        w * h
    }
}

proof fn lemma_area_bound(w: int, h: int)
    requires
        -0x1_0000_0000 <= w <= 0x1_0000_0000,
        -0x1_0000_0000 <= h <= 0x1_0000_0000,
    ensures
        -0x1_0000_0000_0000_0000 <= w * h <= 0x1_0000_0000_0000_0000,
{
    assert(-0x1_0000_0000_0000_0000 <= w * h <= 0x1_0000_0000_0000_0000) by (nonlinear_arith)
        requires
            -0x1_0000_0000 <= w <= 0x1_0000_0000,
            -0x1_0000_0000 <= h <= 0x1_0000_0000,
    ;
}

/// The minimum bounding rectangle of two rectangles contains both of them.
pub proof fn lemma_mbr_contains_both(a: Rectangle, b: Rectangle)
    ensures
        a.mbr_spec(b).contains_rect_spec(a),
        a.mbr_spec(b).contains_rect_spec(b),
        a.valid() && b.valid() ==> a.mbr_spec(b).valid(),
{
}

/// Intersection is symmetric.
pub proof fn lemma_intersects_symmetric(a: Rectangle, b: Rectangle)
    ensures
        a.intersects_spec(b) == b.intersects_spec(a),
{
}

/// Containment of rectangles is transitive.
pub proof fn lemma_contains_rect_transitive(a: Rectangle, b: Rectangle, c: Rectangle)
    requires
        a.contains_rect_spec(b),
        b.contains_rect_spec(c),
    ensures
        a.contains_rect_spec(c),
{
}

/// A rectangle meeting `q` inside a container makes the container meet `q`.
pub proof fn lemma_intersects_container(outer: Rectangle, inner: Rectangle, q: Rectangle)
    requires
        outer.contains_rect_spec(inner),
        inner.intersects_spec(q),
    ensures
        outer.intersects_spec(q),
{
}

} // verus!
