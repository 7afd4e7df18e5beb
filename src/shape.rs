use vstd::prelude::*;

use crate::rectarea::{max_int, min_int};

verus! {

/// A set of cells that a drawing primitive covers.
#[derive(Clone, Copy, Debug, PartialEq, Eq, Structural)]
pub enum Shape {
    /// The filled rectangle at `(x, y)` of `w` by `h` cells.
    Rect { x: i32, y: i32, w: i32, h: i32 },
    /// The one-cell-wide border of that rectangle.
    RectB { x: i32, y: i32, w: i32, h: i32 },
    /// The straight segment between two end points, both included.
    Line { x1: i32, y1: i32, x2: i32, y2: i32 },
    /// The disk of radius `r` (at least zero) about `(x, y)`.
    Circ { x: i32, y: i32, r: i32 },
    /// The cells of that disk with a 4-neighbour outside it.
    CircB { x: i32, y: i32, r: i32 },
    /// The cells whose centre lies inside or on the triangle.
    Tri { x1: i32, y1: i32, x2: i32, y2: i32, x3: i32, y3: i32 },
    /// The three edges of the triangle, drawn as segments.
    TriB { x1: i32, y1: i32, x2: i32, y2: i32, x3: i32, y3: i32 },
}

impl Shape {
    pub open spec fn has(self, px: int, py: int) -> bool {
        match self {
            Shape::Rect { x, y, w, h } => in_rect(x as int, y as int, w as int, h as int, px, py),
            Shape::RectB { x, y, w, h } => in_rect(x as int, y as int, w as int, h as int, px, py)
                && (px == x || px == x + w - 1 || py == y || py == y + h - 1),
            Shape::Line { x1, y1, x2, y2 } => on_line(x1 as int, y1 as int, x2 as int, y2 as int, px, py),
            Shape::Circ { x, y, r } => in_disk(px - x, py - y, r as int),
            Shape::CircB { x, y, r } => on_ring(px - x, py - y, r as int),
            Shape::Tri { x1, y1, x2, y2, x3, y3 } => in_tri(
                x1 as int,
                y1 as int,
                x2 as int,
                y2 as int,
                x3 as int,
                y3 as int,
                px,
                py,
            ),
            Shape::TriB { x1, y1, x2, y2, x3, y3 } => on_line(x1 as int, y1 as int, x2 as int, y2 as int, px, py)
                || on_line(x2 as int, y2 as int, x3 as int, y3 as int, px, py)
                || on_line(x3 as int, y3 as int, x1 as int, y1 as int, px, py),
        }
    }
}

pub open spec fn abs_int(a: int) -> int {
    if a >= 0 { a } else { -a }
}

/// `q` is `t * e / d` rounded to the nearest integer, halves rounded up.
pub open spec fn nearest(t: int, d: int, e: int, q: int) -> bool {
    let dd = if d > 0 { d } else { -d };
    let n = if d > 0 { t * e } else { -(t * e) };
    2 * (dd * q) <= 2 * n + dd < 2 * (dd * q) + 2 * dd
}

/// The cells of the segment: one per column along a mostly horizontal line, one
/// per row along a mostly vertical one, each on the nearest cell to the line.
pub open spec fn on_line(x1: int, y1: int, x2: int, y2: int, px: int, py: int) -> bool {
    let dx = x2 - x1;
    let dy = y2 - y1;
    &&& min_int(x1, x2) <= px <= max_int(x1, x2)
    &&& min_int(y1, y2) <= py <= max_int(y1, y2)
    &&& if abs_int(dx) >= abs_int(dy) {
        if dx == 0 {
            px == x1 && py == y1
        } else {
            nearest(px - x1, dx, dy, py - y1)
        }
    } else {
        nearest(py - y1, dy, dx, px - x1)
    }
}

/// Inside the disk of radius `r` (a negative radius counts as zero).
pub open spec fn in_disk(dx: int, dy: int, r: int) -> bool {
    let rr = if r > 0 { r } else { 0 };
    dx * dx + dy * dy <= rr * rr
}

pub open spec fn on_ring(dx: int, dy: int, r: int) -> bool {
    in_disk(dx, dy, r) && !(in_disk(dx + 1, dy, r) && in_disk(dx - 1, dy, r) && in_disk(dx, dy + 1, r)
        && in_disk(dx, dy - 1, r))
}

pub open spec fn cross(ax: int, ay: int, bx: int, by: int, px: int, py: int) -> int {
    (bx - ax) * (py - ay) - (by - ay) * (px - ax)
}

/// Inside the triangle's bounding box, and on no strict outer side of any edge.
pub open spec fn in_tri(x1: int, y1: int, x2: int, y2: int, x3: int, y3: int, px: int, py: int) -> bool {
    let d1 = cross(x1, y1, x2, y2, px, py);
    let d2 = cross(x2, y2, x3, y3, px, py);
    let d3 = cross(x3, y3, x1, y1, px, py);
    &&& min_int(x1, min_int(x2, x3)) <= px <= max_int(x1, max_int(x2, x3))
    &&& min_int(y1, min_int(y2, y3)) <= py <= max_int(y1, max_int(y2, y3))
    &&& !((d1 < 0 || d2 < 0 || d3 < 0) && (d1 > 0 || d2 > 0 || d3 > 0))
}

/// Bound on coordinates handled by the shape tests.
pub open spec fn coord_ok(a: int) -> bool {
    -0x2_0000_0000 <= a <= 0x2_0000_0000
}

pub open spec fn arg_ok(a: int) -> bool {
    -0x8_0000_0000 <= a <= 0x8_0000_0000
}

pub(crate) const MUL_BOUND: i128 = 0x100_0000_0000;

pub(crate) fn mul_bounded(a: i128, b: i128) -> (r: i128)
    requires
        -MUL_BOUND <= a <= MUL_BOUND,
        -MUL_BOUND <= b <= MUL_BOUND,
    ensures
        r == a * b,
        -0x1_0000_0000_0000_0000_0000 <= r <= 0x1_0000_0000_0000_0000_0000,
{
    proof {
        let ai = a as int;
        let bi = b as int;
        let m = MUL_BOUND as int;
        assert(-(m * m) <= ai * bi <= m * m) by (nonlinear_arith)
            requires
                -m <= ai <= m,
                -m <= bi <= m,
        ;
        assert(m * m == 0x1_0000_0000_0000_0000_0000);
    }
    a * b
}

pub(crate) fn nearest_exec(t: i128, d: i128, e: i128, q: i128) -> (r: bool)
    requires
        arg_ok(t as int),
        arg_ok(d as int),
        arg_ok(e as int),
        arg_ok(q as int),
    ensures
        r == nearest(t as int, d as int, e as int, q as int),
{
    let dd: i128 = if d > 0 { d } else { -d };
    let te = mul_bounded(t, e);
    let n: i128 = if d > 0 { te } else { -te };
    let dq = mul_bounded(dd, q);
    2 * dq <= 2 * n + dd && 2 * n + dd < 2 * dq + 2 * dd
}

/// There is one nearest integer at most.
pub(crate) proof fn lemma_nearest_unique(t: int, d: int, e: int, q1: int, q2: int)
    requires
        d != 0,
        nearest(t, d, e, q1),
        nearest(t, d, e, q2),
    ensures
        q1 == q2,
{
    let dd = if d > 0 { d } else { -d };
    let n = if d > 0 { t * e } else { -(t * e) };
    if q1 < q2 {
        assert(dd * q1 + dd <= dd * q2) by (nonlinear_arith)
            requires
                q1 < q2,
                dd > 0,
        ;
    } else if q2 < q1 {
        assert(dd * q2 + dd <= dd * q1) by (nonlinear_arith)
            requires
                q2 < q1,
                dd > 0,
        ;
    }
}

/// The nearest integer to `t * e / d`, halves rounded up.
pub(crate) fn nearest_of(t: i128, d: i128, e: i128) -> (q: i128)
    requires
        arg_ok(t as int),
        arg_ok(d as int),
        arg_ok(e as int),
        d != 0,
    ensures
        nearest(t as int, d as int, e as int, q as int),
        -0x8_0000_0000_0000_0000_0000 <= q <= 0x8_0000_0000_0000_0000_0000,
{
    let dd: i128 = if d > 0 { d } else { -d };
    let te = mul_bounded(t, e);
    let n: i128 = if d > 0 { te } else { -te };
    let big: i128 = 2 * n + dd;
    let d2: i128 = 2 * dd;
    if big >= 0 {
        let q = ((big as u128) / (d2 as u128)) as i128;
        proof {
            vstd::arithmetic::div_mod::lemma_fundamental_div_mod(big as int, d2 as int);
            vstd::arithmetic::div_mod::lemma_mod_pos_bound(big as int, d2 as int);
            vstd::arithmetic::div_mod::lemma_div_pos_is_pos(big as int, d2 as int);
            assert(d2 * q == 2 * (dd * q)) by (nonlinear_arith)
                requires
                    d2 == 2 * dd,
            ;
            assert(q <= big) by (nonlinear_arith)
                requires
                    d2 * q <= big,
                    d2 >= 2,
                    q >= 0,
            ;
        }
        q
    } else {
        let m: i128 = -big + d2 - 1;
        let qq = ((m as u128) / (d2 as u128)) as i128;
        proof {
            vstd::arithmetic::div_mod::lemma_fundamental_div_mod(m as int, d2 as int);
            vstd::arithmetic::div_mod::lemma_mod_pos_bound(m as int, d2 as int);
            vstd::arithmetic::div_mod::lemma_div_pos_is_pos(m as int, d2 as int);
            assert(d2 * qq == 2 * (dd * qq)) by (nonlinear_arith)
                requires
                    d2 == 2 * dd,
            ;
            assert(dd * (-qq) == -(dd * qq)) by (nonlinear_arith);
            assert(qq <= m) by {
                if qq > m {
                    assert(d2 * qq > m) by (nonlinear_arith)
                        requires
                            d2 >= 2,
                            qq > m,
                            m >= 0,
                    ;
                }
            }
        }
        -qq
    }
}

/// The segment seen along its longer axis `a` and across it `b`.
pub open spec fn line_at(a1: int, b1: int, a2: int, b2: int, a: int, b: int) -> bool {
    &&& min_int(a1, a2) <= a <= max_int(a1, a2)
    &&& min_int(b1, b2) <= b <= max_int(b1, b2)
    &&& nearest(a - a1, a2 - a1, b2 - b1, b - b1)
}

pub(crate) proof fn lemma_line_axes(x1: int, y1: int, x2: int, y2: int, px: int, py: int)
    requires
        !(x1 == x2 && y1 == y2),
    ensures
        abs_int(x2 - x1) < abs_int(y2 - y1) ==> (on_line(x1, y1, x2, y2, px, py) == line_at(y1, x1, y2, x2, py, px)),
        abs_int(x2 - x1) >= abs_int(y2 - y1) ==> (on_line(x1, y1, x2, y2, px, py) == line_at(x1, y1, x2, y2, px, py)),
{
}

pub(crate) fn on_line_exec(x1: i128, y1: i128, x2: i128, y2: i128, px: i128, py: i128) -> (r: bool)
    requires
        -0x8000_0000 <= x1 < 0x8000_0000,
        -0x8000_0000 <= y1 < 0x8000_0000,
        -0x8000_0000 <= x2 < 0x8000_0000,
        -0x8000_0000 <= y2 < 0x8000_0000,
        coord_ok(px as int),
        coord_ok(py as int),
    ensures
        r == on_line(x1 as int, y1 as int, x2 as int, y2 as int, px as int, py as int),
{
    let dx = x2 - x1;
    let dy = y2 - y1;
    let adx: i128 = if dx >= 0 { dx } else { -dx };
    let ady: i128 = if dy >= 0 { dy } else { -dy };
    let lx: i128 = if x1 <= x2 { x1 } else { x2 };
    let hx: i128 = if x1 >= x2 { x1 } else { x2 };
    let ly: i128 = if y1 <= y2 { y1 } else { y2 };
    let hy: i128 = if y1 >= y2 { y1 } else { y2 };
    if !(lx <= px && px <= hx && ly <= py && py <= hy) {
        false
    } else if adx >= ady {
        if dx == 0 {
            px == x1 && py == y1
        } else {
            nearest_exec(px - x1, dx, dy, py - y1)
        }
    } else {
        nearest_exec(py - y1, dy, dx, px - x1)
    }
}

pub(crate) fn in_disk_exec(dx: i128, dy: i128, r: i128) -> (b: bool)
    requires
        arg_ok(dx as int),
        arg_ok(dy as int),
        arg_ok(r as int),
    ensures
        b == in_disk(dx as int, dy as int, r as int),
{
    let rr: i128 = if r > 0 { r } else { 0 };
    mul_bounded(dx, dx) + mul_bounded(dy, dy) <= mul_bounded(rr, rr)
}

pub(crate) fn cross_exec(ax: i128, ay: i128, bx: i128, by: i128, px: i128, py: i128) -> (r: i128)
    requires
        -0x8000_0000 <= ax < 0x8000_0000,
        -0x8000_0000 <= ay < 0x8000_0000,
        -0x8000_0000 <= bx < 0x8000_0000,
        -0x8000_0000 <= by < 0x8000_0000,
        coord_ok(px as int),
        coord_ok(py as int),
    ensures
        r == cross(ax as int, ay as int, bx as int, by as int, px as int, py as int),
{
    mul_bounded(bx - ax, py - ay) - mul_bounded(by - ay, px - ax)
}

impl Shape {
    /// Whether the cell `(px, py)` belongs to the shape.
    pub fn contains(&self, px: i64, py: i64) -> (r: bool)
        requires
            coord_ok(px as int),
            coord_ok(py as int),
        ensures
            r == self.has(px as int, py as int),
    {
        let px = px as i128;
        let py = py as i128;
        match *self {
            Shape::Rect { x, y, w, h } => {
                x as i128 <= px && px < x as i128 + w as i128 && y as i128 <= py && py < y as i128
                    + h as i128
            },
            Shape::RectB { x, y, w, h } => {
                let x = x as i128;
                let y = y as i128;
                let w = w as i128;
                let h = h as i128;
                x <= px && px < x + w && y <= py && py < y + h && (px == x || px == x + w - 1 || py
                    == y || py == y + h - 1)
            },
            Shape::Line { x1, y1, x2, y2 } => on_line_exec(
                x1 as i128,
                y1 as i128,
                x2 as i128,
                y2 as i128,
                px,
                py,
            ),
            Shape::Circ { x, y, r } => in_disk_exec(px - x as i128, py - y as i128, r as i128),
            Shape::CircB { x, y, r } => {
                let dx = px - x as i128;
                let dy = py - y as i128;
                let r = r as i128;
                in_disk_exec(dx, dy, r) && !(in_disk_exec(dx + 1, dy, r) && in_disk_exec(dx - 1, dy, r)
                    && in_disk_exec(dx, dy + 1, r) && in_disk_exec(dx, dy - 1, r))
            },
            Shape::Tri { x1, y1, x2, y2, x3, y3 } => {
                let (x1, y1, x2, y2, x3, y3) = (
                    x1 as i128,
                    y1 as i128,
                    x2 as i128,
                    y2 as i128,
                    x3 as i128,
                    y3 as i128,
                );
                let lx: i128 = if x1 <= x2 && x1 <= x3 { x1 } else if x2 <= x3 { x2 } else { x3 };
                let hx: i128 = if x1 >= x2 && x1 >= x3 { x1 } else if x2 >= x3 { x2 } else { x3 };
                let ly: i128 = if y1 <= y2 && y1 <= y3 { y1 } else if y2 <= y3 { y2 } else { y3 };
                let hy: i128 = if y1 >= y2 && y1 >= y3 { y1 } else if y2 >= y3 { y2 } else { y3 };
                if !(lx <= px && px <= hx && ly <= py && py <= hy) {
                    return false;
                }
                let d1 = cross_exec(x1, y1, x2, y2, px, py);
                let d2 = cross_exec(x2, y2, x3, y3, px, py);
                let d3 = cross_exec(x3, y3, x1, y1, px, py);
                !((d1 < 0 || d2 < 0 || d3 < 0) && (d1 > 0 || d2 > 0 || d3 > 0))
            },
            Shape::TriB { x1, y1, x2, y2, x3, y3 } => {
                let (x1, y1, x2, y2, x3, y3) = (
                    x1 as i128,
                    y1 as i128,
                    x2 as i128,
                    y2 as i128,
                    x3 as i128,
                    y3 as i128,
                );
                on_line_exec(x1, y1, x2, y2, px, py) || on_line_exec(x2, y2, x3, y3, px, py)
                    || on_line_exec(x3, y3, x1, y1, px, py)
            },
        }
    }
}

pub open spec fn in_rect(x: int, y: int, w: int, h: int, px: int, py: int) -> bool {
    x <= px < x + w && y <= py < y + h
}

/// The smallest box holding the three corners, as `(left, top, right, bottom)`
/// with every edge included.
pub(crate) fn tri_box(x1: i32, y1: i32, x2: i32, y2: i32, x3: i32, y3: i32) -> (r: (i64, i64, i64, i64))
    ensures
        r.0 == min_int(x1 as int, min_int(x2 as int, x3 as int)),
        r.1 == min_int(y1 as int, min_int(y2 as int, y3 as int)),
        r.2 == max_int(x1 as int, max_int(x2 as int, x3 as int)),
        r.3 == max_int(y1 as int, max_int(y2 as int, y3 as int)),
{
    let lx2: i32 = if x2 <= x3 { x2 } else { x3 };
    let lx: i32 = if x1 <= lx2 { x1 } else { lx2 };
    let ly2: i32 = if y2 <= y3 { y2 } else { y3 };
    let ly: i32 = if y1 <= ly2 { y1 } else { ly2 };
    let hx2: i32 = if x2 >= x3 { x2 } else { x3 };
    let hx: i32 = if x1 >= hx2 { x1 } else { hx2 };
    let hy2: i32 = if y2 >= y3 { y2 } else { y3 };
    let hy: i32 = if y1 >= hy2 { y1 } else { hy2 };
    (lx as i64, ly as i64, hx as i64, hy as i64)
}

pub(crate) proof fn lemma_disk_bound(dx: int, dy: int, r: int)
    requires
        r >= 0,
        in_disk(dx, dy, r) || on_ring(dx, dy, r),
    ensures
        -r <= dx <= r,
        -r <= dy <= r,
{
    assert(dx * dx + dy * dy <= r * r);
    assert(-r <= dx <= r && -r <= dy <= r) by (nonlinear_arith)
        requires
            dx * dx + dy * dy <= r * r,
            r >= 0,
    ;
}

} // verus!
