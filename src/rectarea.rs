use vstd::prelude::*;

verus! {

/// An axis-aligned, half-open integer rectangle: the cells `(x, y)` with
/// `left <= x < left + width` and `top <= y < top + height`.
#[derive(Clone, Copy, Debug, PartialEq, Eq, Structural)]
pub struct RectArea {
    pub left: i32,
    pub top: i32,
    pub width: u32,
    pub height: u32,
}

pub open spec fn min_int(a: int, b: int) -> int {
    if a <= b { a } else { b }
}

pub open spec fn max_int(a: int, b: int) -> int {
    if a >= b { a } else { b }
}

impl RectArea {
    /// One past the rightmost column.
    pub open spec fn right(self) -> int {
        self.left as int + self.width as int
    }

    /// One past the bottom row.
    pub open spec fn bottom(self) -> int {
        self.top as int + self.height as int
    }

    pub open spec fn has(self, x: int, y: int) -> bool {
        self.left <= x < self.right() && self.top <= y < self.bottom()
    }

    pub open spec fn is_empty_spec(self) -> bool {
        self.width == 0 || self.height == 0
    }

    /// The rectangle that `intersect` returns: the overlap, placed at the larger
    /// of the two left and top edges, with zero extent when there is none.
    pub open spec fn intersect_spec(self, other: RectArea) -> RectArea {
        let l = max_int(self.left as int, other.left as int);
        let t = max_int(self.top as int, other.top as int);
        let r = min_int(self.right(), other.right());
        let b = min_int(self.bottom(), other.bottom());
        RectArea {
            left: l as i32,
            top: t as i32,
            width: (if r > l { r - l } else { 0 }) as u32,
            height: (if b > t { b - t } else { 0 }) as u32,
        }
    }

    pub open spec fn new_spec(left: i32, top: i32, width: u32, height: u32) -> RectArea {
        RectArea { left, top, width, height }
    }

    pub fn new(left: i32, top: i32, width: u32, height: u32) -> (r: RectArea)
        ensures
            r == RectArea::new_spec(left, top, width, height),
    {
        RectArea { left, top, width, height }
    }

    pub fn is_empty(&self) -> (r: bool)
        ensures
            r == self.is_empty_spec(),
    {
        self.width == 0 || self.height == 0
    }

    /// Whether the point lies inside: the left and top edges are included, the
    /// right and bottom edges are not.
    pub fn contains(&self, x: i32, y: i32) -> (r: bool)
        ensures
            r == self.has(x as int, y as int),
    {
        let xr = self.left as i64 + self.width as i64;
        let yb = self.top as i64 + self.height as i64;
        self.left <= x && (x as i64) < xr && self.top <= y && (y as i64) < yb
    }

    /// The largest rectangle inside both; zero-sized where they do not meet.
    pub fn intersect(&self, other: &RectArea) -> (r: RectArea)
        ensures
            r == self.intersect_spec(*other),
            forall|x: int, y: int| r.has(x, y) <==> (self.has(x, y) && other.has(x, y)),
    {
        let l: i32 = if self.left >= other.left { self.left } else { other.left };
        let t: i32 = if self.top >= other.top { self.top } else { other.top };
        let r1: i64 = self.left as i64 + self.width as i64;
        let r2: i64 = other.left as i64 + other.width as i64;
        let b1: i64 = self.top as i64 + self.height as i64;
        let b2: i64 = other.top as i64 + other.height as i64;
        let r: i64 = if r1 <= r2 { r1 } else { r2 };
        let b: i64 = if b1 <= b2 { b1 } else { b2 };
        let w: u32 = if r > l as i64 { (r - l as i64) as u32 } else { 0 };
        let h: u32 = if b > t as i64 { (b - t as i64) as u32 } else { 0 };
        RectArea { left: l, top: t, width: w, height: h }
    }
}

/// Intersection does not depend on the order of its operands, and a rectangle
/// met with itself is unchanged.
pub proof fn lemma_intersect_symmetric_idempotent(a: RectArea, b: RectArea)
    ensures
        a.intersect_spec(b) == b.intersect_spec(a),
        a.intersect_spec(a) == a,
{
}

} // verus!
