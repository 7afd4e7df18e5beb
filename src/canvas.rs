use vstd::prelude::*;

use crate::cell::CellValue;
use crate::rectarea::{max_int, min_int, RectArea};
use crate::shape::{
    abs_int, coord_ok, in_disk, lemma_disk_bound, lemma_line_axes, lemma_nearest_unique, line_at, nearest_of,
    on_ring, tri_box, in_rect, Shape,
};

verus! {

/// What a canvas holds, as mathematics: its size, its cells in row-major
/// order, the active clip rectangle and the palette-substitution table.
pub ghost struct CanvasView<T> {
    pub width: int,
    pub height: int,
    pub cells: Seq<T>,
    pub clip: RectArea,
    pub palette: Seq<T>,
}

impl<T: CellValue> CanvasView<T> {
    pub open spec fn in_grid(self, x: int, y: int) -> bool {
        0 <= x < self.width && 0 <= y < self.height
    }

    pub open spec fn cell(self, x: int, y: int) -> T {
        self.cells[y * self.width + x]
    }

    /// What `pget` reads: the cell, or the zero value off the surface.
    pub open spec fn get(self, x: int, y: int) -> T {
        if self.in_grid(x, y) {
            self.cell(x, y)
        } else {
            T::zero_spec()
        }
    }

    /// The value actually stored when `v` is drawn.
    pub open spec fn pal(self, v: T) -> T {
        v.subst_spec(self.palette)
    }

    /// Same surface, same clip and palette.
    pub open spec fn same_frame(self, other: CanvasView<T>) -> bool {
        self.width == other.width && self.height == other.height && self.cells.len()
            == other.cells.len() && self.clip == other.clip && self.palette == other.palette
    }

    /// Where the cell `(px, py)` of a block copied to `(x, y)` from `(u, v)`
    /// takes its value: a negative extent mirrors the source along that axis.
    pub open spec fn blt_value(self, x: int, y: int, u: int, v: int, w: int, h: int, px: int, py: int) -> T {
        let aw = abs_int(w);
        let ah = abs_int(h);
        let sx = if w < 0 { u + aw - 1 - (px - x) } else { u + (px - x) };
        let sy = if h < 0 { v + ah - 1 - (py - y) } else { v + (py - y) };
        self.get(sx, sy)
    }

    /// `self` is `old` after copying the `|w|` by `|h|` block of `src` at
    /// `(u, v)` to `(x, y)`: cells in the clip rectangle whose source value is
    /// not `key` take that value through the palette; nothing else changes.
    pub open spec fn blitted(
        self,
        old: CanvasView<T>,
        src: CanvasView<T>,
        x: int,
        y: int,
        u: int,
        v: int,
        w: int,
        h: int,
        key: Option<T>,
    ) -> bool {
        &&& self.same_frame(old)
        &&& forall|px: int, py: int|
            old.in_grid(px, py) ==> #[trigger] self.cell(px, py) == (if old.clip.has(px, py)
                && in_rect(x, y, abs_int(w), abs_int(h), px, py) && key != Some(
                src.blt_value(x, y, u, v, w, h, px, py),
            ) {
                old.pal(src.blt_value(x, y, u, v, w, h, px, py))
            } else {
                old.cell(px, py)
            })
    }

    /// `path` is a walk through cells of value `u`, each 4-adjacent to the next.
    pub open spec fn is_run(self, u: T, path: Seq<(int, int)>) -> bool {
        &&& path.len() > 0
        &&& forall|i: int|
            0 <= i < path.len() ==> self.in_grid(#[trigger] path[i].0, path[i].1) && self.cell(
                path[i].0,
                path[i].1,
            ) == u
        &&& forall|i: int| 0 <= i < path.len() - 1 ==> adjacent(#[trigger] path[i], path[i + 1])
    }

    /// `(x, y)` lies in the 4-connected region of cells that share the value of
    /// `(sx, sy)`.
    pub open spec fn connected(self, sx: int, sy: int, x: int, y: int) -> bool {
        exists|path: Seq<(int, int)>|
            #[trigger] self.is_run(self.cell(sx, sy), path) && path[0] == (sx, sy) && path.last() == (
                x,
                y,
            )
    }

    /// `self` is `old` with the region connected to `(sx, sy)` set to `c`
    /// wherever it lies in the clip rectangle, and nothing else changed.
    pub open spec fn filled(self, old: CanvasView<T>, sx: int, sy: int, c: T) -> bool {
        &&& self.same_frame(old)
        &&& forall|x: int, y: int|
            old.in_grid(x, y) ==> #[trigger] self.cell(x, y) == (if old.clip.has(x, y)
                && old.connected(sx, sy, x, y) {
                c
            } else {
                old.cell(x, y)
            })
    }

    /// `self` is `old` with every cell of `shape` that lies in the clip
    /// rectangle set to `c`, and nothing else changed.
    pub open spec fn painted(self, old: CanvasView<T>, shape: Shape, c: T) -> bool {
        &&& self.same_frame(old)
        &&& forall|x: int, y: int|
            old.in_grid(x, y) ==> #[trigger] self.cell(x, y) == (if old.clip.has(x, y)
                && shape.has(x, y) {
                c
            } else {
                old.cell(x, y)
            })
    }
}

pub proof fn lemma_index(w: int, h: int, x: int, y: int)
    requires
        0 <= x < w,
        0 <= y < h,
    ensures
        0 <= y * w + x < w * h,
{
    assert(0 <= y * w + x < w * h) by (nonlinear_arith)
        requires
            0 <= x < w,
            0 <= y < h,
    ;
}

pub proof fn lemma_index_injective(w: int, x1: int, y1: int, x2: int, y2: int)
    requires
        0 <= x1 < w,
        0 <= x2 < w,
        0 <= y1,
        0 <= y2,
        y1 * w + x1 == y2 * w + x2,
    ensures
        x1 == x2,
        y1 == y2,
{
    if y1 < y2 {
        assert(y1 * w + w <= y2 * w) by (nonlinear_arith)
            requires
                y1 < y2,
                0 <= w,
        ;
    } else if y2 < y1 {
        assert(y2 * w + w <= y1 * w) by (nonlinear_arith)
            requires
                y2 < y1,
                0 <= w,
        ;
    }
}

/// A rectangular grid of cells with a clip rectangle and a palette.
pub struct Canvas<T> {
    width: u32,
    height: u32,
    data: Vec<T>,
    palette: Vec<T>,
    self_rect: RectArea,
    clip_rect: RectArea,
}

impl<T: CellValue> View for Canvas<T> {
    type V = CanvasView<T>;

    closed spec fn view(&self) -> CanvasView<T> {
        CanvasView {
            width: self.width as int,
            height: self.height as int,
            cells: self.data@,
            clip: self.clip_rect,
            palette: self.palette@,
        }
    }
}

impl<T: CellValue> Canvas<T> {
    /// The canvas's size fits its grid, and the clip rectangle lies inside it.
    pub closed spec fn wf(&self) -> bool {
        &&& self.data@.len() == self.width as int * self.height as int
        &&& self.width as int * self.height as int <= usize::MAX
        &&& self.self_rect == RectArea::new_spec(0, 0, self.width, self.height)
        &&& forall|x: int, y: int| #[trigger] self.clip_rect.has(x, y) ==> self.self_rect.has(x, y)
    }

    /// A `width` by `height` canvas of zero cells, clipped to itself.
    pub fn new(width: u32, height: u32, palette: Vec<T>) -> (r: Canvas<T>)
        requires
            width as int * height as int <= usize::MAX,
        ensures
            r.wf(),
            r@.width == width,
            r@.height == height,
            r@.clip == RectArea::new_spec(0, 0, width, height),
            r@.palette == palette@,
            forall|x: int, y: int| r@.in_grid(x, y) ==> #[trigger] r@.cell(x, y) == T::zero_spec(),
    {
        let n: usize = (width as usize) * (height as usize);
        let mut data: Vec<T> = Vec::new();
        let z = T::zero();
        while data.len() < n
            invariant
                data@.len() <= n,
                forall|i: int| 0 <= i < data@.len() ==> #[trigger] data@[i] == z,
            decreases n - data@.len(),
        {
            data.push(z);
        }
        let rect = RectArea::new(0, 0, width, height);
        let r = Canvas { width, height, data, palette, self_rect: rect, clip_rect: rect };
        assert forall|x: int, y: int| r@.in_grid(x, y) implies #[trigger] r@.cell(x, y)
            == T::zero_spec() by {
            lemma_index(width as int, height as int, x, y);
        }
        r
    }

    /// A canvas over the given cells, row-major, clipped to itself.
    pub fn from_cells(width: u32, height: u32, data: Vec<T>, palette: Vec<T>) -> (r: Canvas<T>)
        requires
            data@.len() == width as int * height as int,
            width as int * height as int <= usize::MAX,
        ensures
            r.wf(),
            r@.width == width,
            r@.height == height,
            r@.cells == data@,
            r@.clip == RectArea::new_spec(0, 0, width, height),
            r@.palette == palette@,
    {
        let rect = RectArea::new(0, 0, width, height);
        Canvas { width, height, data, palette, self_rect: rect, clip_rect: rect }
    }

    /// Sets entry `i` of the palette-substitution table.
    pub fn set_palette_entry(&mut self, i: usize, v: T)
        requires
            old(self).wf(),
            i < old(self)@.palette.len(),
        ensures
            final(self).wf(),
            final(self)@ == (CanvasView { palette: old(self)@.palette.update(i as int, v), ..old(self)@ }),
    {
        self.palette.set(i, v);
    }

    /// Replaces the palette-substitution table.
    pub fn set_palette(&mut self, palette: Vec<T>)
        requires
            old(self).wf(),
        ensures
            final(self).wf(),
            final(self)@ == (CanvasView { palette: palette@, ..old(self)@ }),
    {
        self.palette = palette;
    }

    pub fn width(&self) -> (r: u32)
        ensures
            r == self@.width,
    {
        self.width
    }

    pub fn height(&self) -> (r: u32)
        ensures
            r == self@.height,
    {
        self.height
    }

    pub fn clip_rect(&self) -> (r: RectArea)
        ensures
            r == self@.clip,
    {
        self.clip_rect
    }

    pub fn palette_value(&self, v: T) -> (r: T)
        ensures
            r == self@.pal(v),
    {
        v.subst(&self.palette)
    }

    /// Reads a cell, without palette substitution; zero off the surface.
    pub fn pget(&self, x: i32, y: i32) -> (r: T)
        requires
            self.wf(),
        ensures
            r == self@.get(x as int, y as int),
    {
        self.get_at(x as i64, y as i64)
    }

    fn get_at(&self, x: i64, y: i64) -> (r: T)
        requires
            self.wf(),
        ensures
            r == self@.get(x as int, y as int),
    {
        if 0 <= x && x < self.width as i64 && 0 <= y && y < self.height as i64 {
            proof {
                lemma_index(self.width as int, self.height as int, x as int, y as int);
            }
            self.data[(y as usize) * (self.width as usize) + (x as usize)]
        } else {
            T::zero()
        }
    }

    /// Stores `v` at a cell without palette substitution or clipping.
    fn put(&mut self, x: usize, y: usize, v: T)
        requires
            old(self).wf(),
            old(self)@.in_grid(x as int, y as int),
        ensures
            final(self).wf(),
            final(self)@.same_frame(old(self)@),
            forall|px: int, py: int|
                old(self)@.in_grid(px, py) ==> #[trigger] final(self)@.cell(px, py) == (if px
                    == x && py == y {
                    v
                } else {
                    old(self)@.cell(px, py)
                }),
    {
        proof {
            lemma_index(self.width as int, self.height as int, x as int, y as int);
        }
        let i: usize = (y as usize) * (self.width as usize) + (x as usize);
        self.data.set(i, v);
        proof {
            let w = self.width as int;
            assert forall|px: int, py: int| old(self)@.in_grid(px, py) implies #[trigger] self@.cell(
                px,
                py,
            ) == (if px == x && py == y {
                v
            } else {
                old(self)@.cell(px, py)
            }) by {
                lemma_index(w, self.height as int, px, py);
                if !(px == x && py == y) {
                    if py * w + px == y * w + x {
                        lemma_index_injective(w, px, py, x as int, y as int);
                    }
                }
            }
        }
    }

    /// Writes the palette value of `v` at a cell inside the clip rectangle;
    /// does nothing elsewhere.
    pub fn pset(&mut self, x: i32, y: i32, v: T)
        requires
            old(self).wf(),
        ensures
            final(self).wf(),
            final(self)@.painted(old(self)@, Shape::Rect { x, y, w: 1, h: 1 }, old(self)@.pal(v)),
    {
        if self.clip_rect.contains(x, y) {
            let c = self.palette_value(v);
            self.put(x as usize, y as usize, c);
        }
    }

    /// Fills the whole surface, whatever the clip, with the palette value of `v`.
    pub fn cls(&mut self, v: T)
        requires
            old(self).wf(),
        ensures
            final(self).wf(),
            final(self)@.same_frame(old(self)@),
            forall|px: int, py: int|
                old(self)@.in_grid(px, py) ==> #[trigger] final(self)@.cell(px, py) == old(
                    self,
                )@.pal(v),
    {
        let c = self.palette_value(v);
        let n = self.data.len();
        let mut i: usize = 0;
        while i < n
            invariant
                self.wf(),
                self@.same_frame(old(self)@),
                n == self.data@.len(),
                i <= n,
                forall|k: int| 0 <= k < i ==> #[trigger] self.data@[k] == c,
            decreases n - i,
        {
            self.data.set(i, c);
            i = i + 1;
        }
        proof {
            assert forall|px: int, py: int| old(self)@.in_grid(px, py) implies #[trigger] self@.cell(
                px,
                py,
            ) == c by {
                lemma_index(self.width as int, self.height as int, px, py);
            }
        }
    }

    /// Sets the clip rectangle to the given one, cut down to the surface.
    pub fn clip(&mut self, x: i32, y: i32, w: i32, h: i32)
        requires
            old(self).wf(),
        ensures
            final(self).wf(),
            final(self)@.cells == old(self)@.cells,
            final(self)@.width == old(self)@.width,
            final(self)@.height == old(self)@.height,
            final(self)@.palette == old(self)@.palette,
            final(self)@.clip == RectArea::new_spec(0, 0, old(self)@.width as u32, old(self)@.height as u32).intersect_spec(
                RectArea::new_spec(x, y, clamp_extent(w), clamp_extent(h)),
            ),
    {
        let ww: u32 = if w > 0 { w as u32 } else { 0 };
        let hh: u32 = if h > 0 { h as u32 } else { 0 };
        let r = RectArea::new(x, y, ww, hh);
        self.clip_rect = self.self_rect.intersect(&r);
    }

    /// Resets the clip rectangle to the whole surface.
    pub fn clip0(&mut self)
        requires
            old(self).wf(),
        ensures
            final(self).wf(),
            final(self)@.cells == old(self)@.cells,
            final(self)@.width == old(self)@.width,
            final(self)@.height == old(self)@.height,
            final(self)@.palette == old(self)@.palette,
            final(self)@.clip == RectArea::new_spec(0, 0, old(self)@.width as u32, old(self)@.height as u32),
    {
        self.clip_rect = self.self_rect;
    }
    /// Sets every cell of `shape` inside the clip rectangle to `c`; the shape
    /// lies within the box `[x0, x1) x [y0, y1)`.
    fn paint(&mut self, shape: &Shape, x0: i64, y0: i64, x1: i64, y1: i64, c: T)
        requires
            old(self).wf(),
            coord_ok(x0 as int),
            coord_ok(y0 as int),
            coord_ok(x1 as int),
            coord_ok(y1 as int),
            forall|px: int, py: int|
                #[trigger] shape.has(px, py) ==> x0 <= px < x1 && y0 <= py < y1,
        ensures
            final(self).wf(),
            final(self)@.painted(old(self)@, *shape, c),
    {
        let ghost old_v = self@;
        let cl = self.clip_rect;
        let cr: i64 = cl.left as i64 + cl.width as i64;
        let cb: i64 = cl.top as i64 + cl.height as i64;
        let lx: i64 = if x0 >= cl.left as i64 { x0 } else { cl.left as i64 };
        let hx: i64 = if x1 <= cr { x1 } else { cr };
        let ly: i64 = if y0 >= cl.top as i64 { y0 } else { cl.top as i64 };
        let hy: i64 = if y1 <= cb { y1 } else { cb };
        let mut y: i64 = ly;
        while y < hy
            invariant
                self.wf(),
                self@.same_frame(old_v),
                self.clip_rect == cl,
                old_v.clip == cl,
                ly <= y,
                y <= hy || y == ly,
                coord_ok(ly as int),
                hy <= y1,
                hy <= cb,
                lx >= x0,
                lx >= cl.left,
                hx <= cr,
                hx <= x1,
                coord_ok(lx as int),
                cr == cl.right(),
                lx == x0 || lx == cl.left,
                hx == x1 || hx == cr,
                ly == y0 || ly == cl.top,
                hy == y1 || hy == cb,
                coord_ok(x1 as int),
                coord_ok(y1 as int),
                cb == cl.bottom(),
                ly >= cl.top,
                forall|px: int, py: int|
                    #[trigger] shape.has(px, py) ==> x0 <= px < x1 && y0 <= py < y1,
                forall|px: int, py: int|
                    old_v.in_grid(px, py) ==> #[trigger] self@.cell(px, py) == (if cl.has(px, py)
                        && shape.has(px, py) && py < y {
                        c
                    } else {
                        old_v.cell(px, py)
                    }),
            decreases hy - y,
        {
            let mut x: i64 = lx;
            while x < hx
                invariant
                    self.wf(),
                    self@.same_frame(old_v),
                    self.clip_rect == cl,
                    old_v.clip == cl,
                    ly <= y < hy,
                    hy <= cb,
                    ly >= cl.top,
                    lx <= x,
                    x <= hx || x == lx,
                    coord_ok(lx as int),
                    coord_ok(ly as int),
                    hy <= y1,
                    hx <= x1,
                    hx <= cr,
                    lx >= cl.left,
                    lx == x0 || lx == cl.left,
                    hx == x1 || hx == cr,
                    ly == y0 || ly == cl.top,
                    hy == y1 || hy == cb,
                    coord_ok(x1 as int),
                    coord_ok(y1 as int),
                    cb == cl.bottom(),
                    cr == cl.right(),
                    forall|px: int, py: int|
                        #[trigger] shape.has(px, py) ==> x0 <= px < x1 && y0 <= py < y1,
                    forall|px: int, py: int|
                        old_v.in_grid(px, py) ==> #[trigger] self@.cell(px, py) == (if cl.has(px, py)
                            && shape.has(px, py) && (py < y || (py == y && px < x)) {
                            c
                        } else {
                            old_v.cell(px, py)
                        }),
                decreases hx - x,
            {
                if shape.contains(x, y) {
                    proof {
                        assert(cl.has(x as int, y as int));
                        assert(self.clip_rect.has(x as int, y as int));
                    }
                    self.put(x as usize, y as usize, c);
                }
                x = x + 1;
            }
            y = y + 1;
        }
    }

    /// Fills the rectangle at `(x, y)` of `w` by `h` cells; nothing where either
    /// extent is zero or negative.
    pub fn rect(&mut self, x: i32, y: i32, w: i32, h: i32, v: T)
        requires
            old(self).wf(),
        ensures
            final(self).wf(),
            final(self)@.painted(old(self)@, Shape::Rect { x, y, w, h }, old(self)@.pal(v)),
    {
        let c = self.palette_value(v);
        let shape = Shape::Rect { x, y, w, h };
        if w <= 0 || h <= 0 {
            proof {
                assert(self@.painted(self@, shape, c));
            }
            return;
        }
        self.paint(&shape, x as i64, y as i64, x as i64 + w as i64, y as i64 + h as i64, c);
    }

    /// Draws the one-cell-wide border of the rectangle.
    pub fn rectb(&mut self, x: i32, y: i32, w: i32, h: i32, v: T)
        requires
            old(self).wf(),
        ensures
            final(self).wf(),
            final(self)@.painted(old(self)@, Shape::RectB { x, y, w, h }, old(self)@.pal(v)),
    {
        let c = self.palette_value(v);
        let shape = Shape::RectB { x, y, w, h };
        if w <= 0 || h <= 0 {
            proof {
                assert(self@.painted(self@, shape, c));
            }
            return;
        }
        self.paint(&shape, x as i64, y as i64, x as i64 + w as i64, y as i64 + h as i64, c);
    }

    /// Draws the segment from `(x1, y1)` to `(x2, y2)`, both ends included:
    /// one cell per step along the longer axis, on the nearest cell across it.
    pub fn line(&mut self, x1: i32, y1: i32, x2: i32, y2: i32, v: T)
        requires
            old(self).wf(),
        ensures
            final(self).wf(),
            final(self)@.painted(old(self)@, Shape::Line { x1, y1, x2, y2 }, old(self)@.pal(v)),
    {
        let c = self.palette_value(v);
        let shape = Shape::Line { x1, y1, x2, y2 };
        let dx: i64 = x2 as i64 - x1 as i64;
        let dy: i64 = y2 as i64 - y1 as i64;
        let adx: i64 = if dx >= 0 { dx } else { -dx };
        let ady: i64 = if dy >= 0 { dy } else { -dy };
        if dx == 0 && dy == 0 {
            self.pset_raw(x1, y1, c);
            proof {
                assert forall|px: int, py: int| old(self)@.in_grid(px, py) implies #[trigger] self@.cell(px, py)
                    == (if old(self)@.clip.has(px, py) && shape.has(px, py) {
                    c
                } else {
                    old(self)@.cell(px, py)
                }) by {}
            }
        } else if adx >= ady {
            self.line_across(x1, y1, x2, y2, c, false);
        } else {
            self.line_across(x1, y1, x2, y2, c, true);
        }
    }

    /// Stores `c` at a cell inside the clip rectangle, without substitution.
    fn pset_raw(&mut self, x: i32, y: i32, c: T)
        requires
            old(self).wf(),
        ensures
            final(self).wf(),
            final(self)@.painted(old(self)@, Shape::Rect { x, y, w: 1, h: 1 }, c),
    {
        if self.clip_rect.contains(x, y) {
            self.put(x as usize, y as usize, c);
        }
    }

    /// Draws a segment that is not a single point, one cell per step along
    /// its longer axis: x when `steep` is false, y when it is true.
    fn line_across(&mut self, x1: i32, y1: i32, x2: i32, y2: i32, c: T, steep: bool)
        requires
            old(self).wf(),
            !(x1 == x2 && y1 == y2),
            steep == (abs_int(x2 - x1) < abs_int(y2 - y1)),
        ensures
            final(self).wf(),
            final(self)@.painted(old(self)@, Shape::Line { x1, y1, x2, y2 }, c),
    {
        let ghost old_v = self@;
        let shape = Shape::Line { x1, y1, x2, y2 };
        // a: the axis stepped along; b: the axis across.
        let (a1, b1, a2, b2) = if steep {
            (y1 as i64, x1 as i64, y2 as i64, x2 as i64)
        } else {
            (x1 as i64, y1 as i64, x2 as i64, y2 as i64)
        };
        let cl = self.clip_rect;
        let (clo_a, chi_a, clo_b, chi_b) = if steep {
            (cl.top as i64, cl.top as i64 + cl.height as i64, cl.left as i64, cl.left as i64 + cl.width as i64)
        } else {
            (cl.left as i64, cl.left as i64 + cl.width as i64, cl.top as i64, cl.top as i64 + cl.height as i64)
        };
        let lo_a: i64 = if a1 <= a2 { a1 } else { a2 };
        let hi_a: i64 = if a1 >= a2 { a1 } else { a2 };
        let lo_b: i64 = if b1 <= b2 { b1 } else { b2 };
        let hi_b: i64 = if b1 >= b2 { b1 } else { b2 };
        let start: i64 = if lo_a >= clo_a { lo_a } else { clo_a };
        let end: i64 = if hi_a + 1 <= chi_a { hi_a + 1 } else { chi_a };
        let ghost on_cell = |pa: int, pb: int| if steep { (pb, pa) } else { (pa, pb) };
        let mut a: i64 = start;
        while a < end
            invariant
                self.wf(),
                self@.same_frame(old_v),
                self.clip_rect == cl,
                old_v.clip == cl,
                start <= a,
                a <= end || a == start,
                start >= lo_a,
                start >= clo_a,
                start == lo_a || start == clo_a,
                end <= hi_a + 1,
                end <= chi_a,
                end == hi_a + 1 || end == chi_a,
                -0x8000_0000 <= lo_a <= hi_a < 0x8000_0000,
                -0x8000_0000 <= a1 < 0x8000_0000,
                -0x8000_0000 <= a2 < 0x8000_0000,
                -0x8000_0000 <= b1 < 0x8000_0000,
                -0x8000_0000 <= b2 < 0x8000_0000,
                a1 != a2,
                steep ==> (a1 == y1 && b1 == x1 && a2 == y2 && b2 == x2),
                !steep ==> (a1 == x1 && b1 == y1 && a2 == x2 && b2 == y2),
                steep ==> (clo_a == cl.top && chi_a == cl.bottom() && clo_b == cl.left && chi_b == cl.right()),
                !steep ==> (clo_a == cl.left && chi_a == cl.right() && clo_b == cl.top && chi_b == cl.bottom()),
                lo_a == min_int(a1 as int, a2 as int),
                hi_a == max_int(a1 as int, a2 as int),
                lo_b == min_int(b1 as int, b2 as int),
                hi_b == max_int(b1 as int, b2 as int),
                steep == (abs_int(x2 - x1) < abs_int(y2 - y1)),
                shape == (Shape::Line { x1, y1, x2, y2 }),
                forall|px: int, py: int|
                    old_v.in_grid(px, py) ==> #[trigger] self@.cell(px, py) == (if cl.has(px, py)
                        && shape.has(px, py) && (if steep { py } else { px }) < a {
                        c
                    } else {
                        old_v.cell(px, py)
                    }),
            decreases end - a,
        {
            let q = nearest_of((a - a1) as i128, (a2 - a1) as i128, (b2 - b1) as i128);
            let b: i128 = b1 as i128 + q;
            if lo_b as i128 <= b && b <= hi_b as i128 && clo_b as i128 <= b && b < chi_b as i128 {
                let bb = b as i64;
                let (px, py): (i64, i64) = if steep { (bb, a) } else { (a, bb) };
                proof {
                    assert(cl.has(px as int, py as int));
                    lemma_line_axes(x1 as int, y1 as int, x2 as int, y2 as int, px as int, py as int);
                    assert(line_at(a1 as int, b1 as int, a2 as int, b2 as int, a as int, bb as int));
                    if steep {
                        assert(line_at(y1 as int, x1 as int, y2 as int, x2 as int, py as int, px as int));
                    } else {
                        assert(line_at(x1 as int, y1 as int, x2 as int, y2 as int, px as int, py as int));
                    }
                    assert(shape.has(px as int, py as int));
                }
                let ghost before = self@;
                self.put(px as usize, py as usize, c);
                proof {
                    assert forall|qx: int, qy: int| old_v.in_grid(qx, qy) implies #[trigger] self@.cell(qx, qy)
                        == (if cl.has(qx, qy) && shape.has(qx, qy) && (if steep { qy } else { qx }) < a + 1 {
                        c
                    } else {
                        old_v.cell(qx, qy)
                    }) by {
                        assert(before.cell(qx, qy) == (if cl.has(qx, qy) && shape.has(qx, qy) && (if steep { qy } else { qx }) < a {
                            c
                        } else {
                            old_v.cell(qx, qy)
                        }));
                        lemma_line_axes(x1 as int, y1 as int, x2 as int, y2 as int, qx, qy);
                        if (if steep { qy } else { qx }) == a && shape.has(qx, qy) {
                            let other = if steep { qx } else { qy };
                            if steep {
                                assert(line_at(y1 as int, x1 as int, y2 as int, x2 as int, qy, qx));
                            } else {
                                assert(line_at(x1 as int, y1 as int, x2 as int, y2 as int, qx, qy));
                            }
                            assert(line_at(a1 as int, b1 as int, a2 as int, b2 as int, a as int, other));
                            lemma_nearest_unique((a - a1) as int, (a2 - a1) as int, (b2 - b1) as int, q as int, other - b1);
                        }
                    }
                }
            } else {
                proof {
                    assert forall|qx: int, qy: int| old_v.in_grid(qx, qy) implies #[trigger] self@.cell(qx, qy)
                        == (if cl.has(qx, qy) && shape.has(qx, qy) && (if steep { qy } else { qx }) < a + 1 {
                        c
                    } else {
                        old_v.cell(qx, qy)
                    }) by {
                        lemma_line_axes(x1 as int, y1 as int, x2 as int, y2 as int, qx, qy);
                        if (if steep { qy } else { qx }) == a && shape.has(qx, qy) && cl.has(qx, qy) {
                            let other = if steep { qx } else { qy };
                            if steep {
                                assert(line_at(y1 as int, x1 as int, y2 as int, x2 as int, qy, qx));
                            } else {
                                assert(line_at(x1 as int, y1 as int, x2 as int, y2 as int, qx, qy));
                            }
                            assert(line_at(a1 as int, b1 as int, a2 as int, b2 as int, a as int, other));
                            lemma_nearest_unique((a - a1) as int, (a2 - a1) as int, (b2 - b1) as int, q as int, other - b1);
                        }
                    }
                }
            }
            a = a + 1;
        }
        proof {
            assert forall|px: int, py: int| old_v.in_grid(px, py) implies #[trigger] self@.cell(px, py)
                == (if old_v.clip.has(px, py) && shape.has(px, py) {
                c
            } else {
                old_v.cell(px, py)
            }) by {}
        }
    }

    /// Fills the disk of radius `r` about `(x, y)`; a radius of zero or less
    /// draws the centre alone.
    pub fn circ(&mut self, x: i32, y: i32, r: i32, v: T)
        requires
            old(self).wf(),
        ensures
            final(self).wf(),
            final(self)@.painted(old(self)@, Shape::Circ { x, y, r }, old(self)@.pal(v)),
    {
        let c = self.palette_value(v);
        let shape = Shape::Circ { x, y, r };
        let rr: i64 = if r > 0 { r as i64 } else { 0 };
        proof {
            assert forall|px: int, py: int| #[trigger] shape.has(px, py) implies x - rr <= px < x
                + rr + 1 && y - rr <= py < y + rr + 1 by {
                lemma_disk_bound(px - x, py - y, rr as int);
            }
        }
        self.paint(&shape, x as i64 - rr, y as i64 - rr, x as i64 + rr + 1, y as i64 + rr + 1, c);
    }

    /// Draws the one-cell-thick ring around the disk of radius `r`.
    pub fn circb(&mut self, x: i32, y: i32, r: i32, v: T)
        requires
            old(self).wf(),
        ensures
            final(self).wf(),
            final(self)@.painted(old(self)@, Shape::CircB { x, y, r }, old(self)@.pal(v)),
    {
        let c = self.palette_value(v);
        let shape = Shape::CircB { x, y, r };
        let rr: i64 = if r > 0 { r as i64 } else { 0 };
        proof {
            assert forall|px: int, py: int| #[trigger] shape.has(px, py) implies x - rr <= px < x
                + rr + 1 && y - rr <= py < y + rr + 1 by {
                lemma_disk_bound(px - x, py - y, rr as int);
            }
        }
        self.paint(&shape, x as i64 - rr, y as i64 - rr, x as i64 + rr + 1, y as i64 + rr + 1, c);
    }

    /// Fills the triangle with the given corners.
    pub fn tri(&mut self, x1: i32, y1: i32, x2: i32, y2: i32, x3: i32, y3: i32, v: T)
        requires
            old(self).wf(),
        ensures
            final(self).wf(),
            final(self)@.painted(
                old(self)@,
                Shape::Tri { x1, y1, x2, y2, x3, y3 },
                old(self)@.pal(v),
            ),
    {
        let c = self.palette_value(v);
        let shape = Shape::Tri { x1, y1, x2, y2, x3, y3 };
        let (lx, ly, hx, hy) = tri_box(x1, y1, x2, y2, x3, y3);
        self.paint(&shape, lx, ly, hx + 1, hy + 1, c);
    }

    /// Draws the three edges of the triangle.
    pub fn trib(&mut self, x1: i32, y1: i32, x2: i32, y2: i32, x3: i32, y3: i32, v: T)
        requires
            old(self).wf(),
        ensures
            final(self).wf(),
            final(self)@.painted(
                old(self)@,
                Shape::TriB { x1, y1, x2, y2, x3, y3 },
                old(self)@.pal(v),
            ),
    {
        let ghost v0 = self@;
        self.line(x1, y1, x2, y2, v);
        let ghost v1 = self@;
        self.line(x2, y2, x3, y3, v);
        let ghost v2 = self@;
        self.line(x3, y3, x1, y1, v);
        proof {
            let shape = Shape::TriB { x1, y1, x2, y2, x3, y3 };
            assert forall|px: int, py: int| v0.in_grid(px, py) implies #[trigger] self@.cell(px, py) == (if v0.clip.has(px, py)
                && shape.has(px, py) {
                v0.pal(v)
            } else {
                v0.cell(px, py)
            }) by {
                assert(v1.cell(px, py) == v1.cell(px, py));
                assert(v2.cell(px, py) == v2.cell(px, py));
            }
        }
    }
    /// Copies the `|w|` by `|h|` block of `src` at `(u, v)` to `(x, y)`, cell by
    /// cell through the palette and the clip rectangle. A negative `w` or `h`
    /// mirrors the source along that axis. Source cells equal to `key` are
    /// skipped; source reads off `src` give the zero value.
    pub fn blt(&mut self, x: i32, y: i32, src: &Canvas<T>, u: i32, v: i32, w: i32, h: i32, key: Option<T>)
        requires
            old(self).wf(),
            src.wf(),
        ensures
            final(self).wf(),
            final(self)@.blitted(old(self)@, src@, x as int, y as int, u as int, v as int, w as int, h as int, key),
    {
        let ghost old_v = self@;
        let aw: i64 = if w >= 0 { w as i64 } else { -(w as i64) };
        let ah: i64 = if h >= 0 { h as i64 } else { -(h as i64) };
        let x0 = x as i64;
        let y0 = y as i64;
        let x1 = x0 + aw;
        let y1 = y0 + ah;
        let cl = self.clip_rect;
        let cr: i64 = cl.left as i64 + cl.width as i64;
        let cb: i64 = cl.top as i64 + cl.height as i64;
        let lx: i64 = if x0 >= cl.left as i64 { x0 } else { cl.left as i64 };
        let hx: i64 = if x1 <= cr { x1 } else { cr };
        let ly: i64 = if y0 >= cl.top as i64 { y0 } else { cl.top as i64 };
        let hy: i64 = if y1 <= cb { y1 } else { cb };
        let mut yy: i64 = ly;
        while yy < hy
            invariant
                self.wf(),
                self@.same_frame(old_v),
                self.clip_rect == cl,
                old_v.clip == cl,
                src.wf(),
                ly <= yy,
                yy <= hy || yy == ly,
                lx == x0 || lx == cl.left,
                hx == x1 || hx == cr,
                ly == y0 || ly == cl.top,
                hy == y1 || hy == cb,
                lx >= x0,
                lx >= cl.left,
                ly >= y0,
                ly >= cl.top,
                hx <= x1,
                hx <= cr,
                hy <= y1,
                hy <= cb,
                cr == cl.right(),
                cb == cl.bottom(),
                x0 == x,
                y0 == y,
                x1 == x0 + aw,
                y1 == y0 + ah,
                aw == abs_int(w as int),
                ah == abs_int(h as int),
                forall|px: int, py: int|
                    old_v.in_grid(px, py) ==> #[trigger] self@.cell(px, py) == (if cl.has(px, py) && in_rect(x as int, y as int, aw as int, ah as int, px, py) && key != Some(
                        src@.blt_value(x as int, y as int, u as int, v as int, w as int, h as int, px, py),
                    ) && py < yy {
                        old_v.pal(src@.blt_value(x as int, y as int, u as int, v as int, w as int, h as int, px, py))
                    } else {
                        old_v.cell(px, py)
                    }),
            decreases hy - yy,
        {
            let mut xx: i64 = lx;
            while xx < hx
                invariant
                    self.wf(),
                    self@.same_frame(old_v),
                    self.clip_rect == cl,
                    old_v.clip == cl,
                    src.wf(),
                    ly <= yy < hy,
                    lx <= xx,
                    xx <= hx || xx == lx,
                    lx == x0 || lx == cl.left,
                    hx == x1 || hx == cr,
                    lx >= x0,
                    lx >= cl.left,
                    ly >= cl.top,
                    hx <= x1,
                    hx <= cr,
                    hy <= cb,
                    cr == cl.right(),
                    cb == cl.bottom(),
                    x0 == x,
                    y0 == y,
                    x1 == x0 + aw,
                    y1 == y0 + ah,
                    ly >= y0,
                    hy <= y1,
                    aw == abs_int(w as int),
                    ah == abs_int(h as int),
                    forall|px: int, py: int|
                        old_v.in_grid(px, py) ==> #[trigger] self@.cell(px, py) == (if cl.has(px, py) && in_rect(x as int, y as int, aw as int, ah as int, px, py) && key != Some(
                        src@.blt_value(x as int, y as int, u as int, v as int, w as int, h as int, px, py),
                    ) && (py < yy || (py == yy && px < xx)) {
                            old_v.pal(src@.blt_value(x as int, y as int, u as int, v as int, w as int, h as int, px, py))
                        } else {
                            old_v.cell(px, py)
                        }),
                decreases hx - xx,
            {
                let xi = xx - x0;
                let yi = yy - y0;
                let sx: i64 = if w < 0 { u as i64 + aw - 1 - xi } else { u as i64 + xi };
                let sy: i64 = if h < 0 { v as i64 + ah - 1 - yi } else { v as i64 + yi };
                let s = src.get_at(sx, sy);
                let skip = match key {
                    Some(k) => k.same(&s),
                    None => false,
                };
                proof {
                    assert(cl.has(xx as int, yy as int));
                    assert(s == src@.blt_value(x as int, y as int, u as int, v as int, w as int, h as int, xx as int, yy as int));
                }
                if !skip {
                    let c = self.palette_value(s);
                    self.put(xx as usize, yy as usize, c);
                }
                xx = xx + 1;
            }
            yy = yy + 1;
        }
    }

    /// A copy of this canvas, cell for cell.
    pub fn duplicate(&self) -> (r: Canvas<T>)
        requires
            self.wf(),
        ensures
            r.wf(),
            r@ == self@,
    {
        let mut data: Vec<T> = Vec::new();
        let n = self.data.len();
        let mut i: usize = 0;
        while i < n
            invariant
                n == self.data@.len(),
                i <= n,
                data@ == self.data@.subrange(0, i as int),
            decreases n - i,
        {
            data.push(self.data[i]);
            i = i + 1;
            proof {
                assert(data@ =~= self.data@.subrange(0, i as int));
            }
        }
        let mut palette: Vec<T> = Vec::new();
        let m = self.palette.len();
        let mut j: usize = 0;
        while j < m
            invariant
                m == self.palette@.len(),
                j <= m,
                palette@ == self.palette@.subrange(0, j as int),
            decreases m - j,
        {
            palette.push(self.palette[j]);
            j = j + 1;
            proof {
                assert(palette@ =~= self.palette@.subrange(0, j as int));
            }
        }
        proof {
            assert(data@ =~= self.data@);
            assert(palette@ =~= self.palette@);
        }
        Canvas {
            width: self.width,
            height: self.height,
            data,
            palette,
            self_rect: self.self_rect,
            clip_rect: self.clip_rect,
        }
    }

    /// `blt` with this canvas as its own source: the block is read as it stood
    /// before the copy, whatever the overlap.
    pub fn blt_self(&mut self, x: i32, y: i32, u: i32, v: i32, w: i32, h: i32, key: Option<T>)
        requires
            old(self).wf(),
        ensures
            final(self).wf(),
            final(self)@.blitted(old(self)@, old(self)@, x as int, y as int, u as int, v as int, w as int, h as int, key),
    {
        let src = self.duplicate();
        self.blt(x, y, &src, u, v, w, h, key);
    }
    fn clip_has(&self, x: usize, y: usize) -> (r: bool)
        requires
            x <= u32::MAX,
            y <= u32::MAX,
        ensures
            r == self@.clip.has(x as int, y as int),
    {
        let cl = self.clip_rect;
        cl.left as i64 <= x as i64 && (x as i64) < cl.left as i64 + cl.width as i64 && cl.top as i64
            <= y as i64 && (y as i64) < cl.top as i64 + cl.height as i64
    }

    /// Flood fill: sets to the palette value of `v` every cell of the region
    /// 4-connected to `(x, y)` through cells of its value, where the clip
    /// rectangle allows. The region is followed across the whole surface,
    /// clipped cells included. Nothing happens off the surface or where the
    /// seed already holds that value.
    pub fn fill(&mut self, x: i32, y: i32, v: T)
        requires
            old(self).wf(),
        ensures
            final(self).wf(),
            if old(self)@.in_grid(x as int, y as int) && old(self)@.cell(x as int, y as int) != old(
                self,
            )@.pal(v) {
                final(self)@.filled(old(self)@, x as int, y as int, old(self)@.pal(v))
            } else {
                final(self)@ == old(self)@
            },
    {
        let ghost old_v = self@;
        let c = self.palette_value(v);
        if !(0 <= x && (x as i64) < self.width as i64 && 0 <= y && (y as i64) < self.height as i64) {
            return;
        }
        let u = self.get_at(x as i64, y as i64);
        if u.same(&c) {
            return;
        }
        let w: usize = self.width as usize;
        let h: usize = self.height as usize;
        let n: usize = w * h;
        let mut visited: Vec<bool> = Vec::new();
        while visited.len() < n
            invariant
                visited@.len() <= n,
                forall|k: int| 0 <= k < visited@.len() ==> !#[trigger] visited@[k],
            decreases n - visited@.len(),
        {
            visited.push(false);
        }
        let sx = x as usize;
        let sy = y as usize;
        proof {
            lemma_index(w as int, h as int, sx as int, sy as int);
        }
        let si = sy * w + sx;
        let ghost seed = (sx as int, sy as int);
        visited.set(si, true);
        let ghost mut vs: Set<int> = set![si as int];
        let ghost mut paths: Map<(int, int), Seq<(int, int)>> = map![seed => seq![seed]];
        if self.clip_has(sx, sy) {
            self.put(sx, sy, c);
        }
        let mut stack: Vec<(usize, usize)> = Vec::new();
        stack.push((sx, sy));
        proof {
            assert forall|px: int, py: int| old_v.in_grid(px, py) && #[trigger] seen(visited@, w as int, px, py)
                implies paths.contains_key((px, py)) && old_v.is_run(u, paths[(px, py)]) && paths[(
                px,
                py,
            )][0] == seed && paths[(px, py)].last() == (px, py) by {
                lemma_index(w as int, h as int, px, py);
                if (px, py) != seed {
                    if py * w + px == si {
                        lemma_index_injective(w as int, px, py, sx as int, sy as int);
                    }
                }
            }
            assert forall|px: int, py: int| old_v.in_grid(px, py) implies #[trigger] self@.cell(px, py)
                == (if seen(visited@, w as int, px, py) && old_v.clip.has(px, py) {
                c
            } else {
                old_v.cell(px, py)
            }) by {
                lemma_index(w as int, h as int, px, py);
                if (px, py) != seed {
                    if py * w + px == si {
                        lemma_index_injective(w as int, px, py, sx as int, sy as int);
                    }
                }
            }
            assert forall|k: int| 0 <= k < n implies (#[trigger] visited@[k] <==> vs.contains(k)) by {}
            assert(on_stack(stack@, sx as int, sy as int)) by {
                assert(stack@[0] == (sx, sy));
            }
        }
        while stack.len() > 0
            invariant
                self.wf(),
                self@.same_frame(old_v),
                self.clip_rect == old_v.clip,
                w == old_v.width,
                h == old_v.height,
                n == w * h,
                visited@.len() == n,
                old_v.in_grid(sx as int, sy as int),
                seed == (sx as int, sy as int),
                u == old_v.cell(sx as int, sy as int),
                u != c,
                vs.finite(),
                forall|k: int| vs.contains(k) ==> 0 <= k < n,
                forall|k: int| 0 <= k < n ==> (#[trigger] visited@[k] <==> vs.contains(k)),
                seen(visited@, w as int, sx as int, sy as int),
                forall|px: int, py: int|
                    old_v.in_grid(px, py) && #[trigger] seen(visited@, w as int, px, py) ==> paths.contains_key(
                        (px, py),
                    ) && old_v.is_run(u, paths[(px, py)]) && paths[(px, py)][0] == seed && paths[(
                        px,
                        py,
                    )].last() == (px, py),
                forall|px: int, py: int|
                    old_v.in_grid(px, py) ==> #[trigger] self@.cell(px, py) == (if seen(visited@, w as int, px, py)
                        && old_v.clip.has(px, py) {
                        c
                    } else {
                        old_v.cell(px, py)
                    }),
                forall|i: int|
                    0 <= i < stack@.len() ==> old_v.in_grid(#[trigger] stack@[i].0 as int, stack@[i].1 as int)
                        && seen(visited@, w as int, stack@[i].0 as int, stack@[i].1 as int),
                forall|px: int, py: int|
                    old_v.in_grid(px, py) && #[trigger] seen(visited@, w as int, px, py) && !on_stack(
                        stack@,
                        px,
                        py,
                    ) ==> closed_at(old_v, visited@, u, px, py),
            decreases n - vs.len(), stack@.len(),
        {
            let ghost vs0 = vs;
            let ghost st0 = stack@;
            let (cx, cy) = stack.pop().unwrap();
            proof {
                assert(stack@ =~= st0.drop_last());
                assert(st0[st0.len() - 1] == (cx, cy));
                assert(old_v.in_grid(st0[st0.len() - 1].0 as int, st0[st0.len() - 1].1 as int));
                vstd::set_lib::lemma_int_range(0, n as int);
                vstd::set_lib::lemma_len_subset(vs, vstd::set_lib::set_int_range(0, n as int));
            }
            let ghost cp = (cx as int, cy as int);
            proof {
                assert forall|px: int, py: int|
                    old_v.in_grid(px, py) && #[trigger] seen(visited@, w as int, px, py) && !on_stack(stack@, px, py)
                        && (px, py) != cp implies closed_at(old_v, visited@, u, px, py) by {
                    if on_stack(st0, px, py) {
                        let i = choose|i: int| 0 <= i < st0.len() && #[trigger] st0[i] == (px as usize, py as usize);
                        if i < st0.len() - 1 {
                            assert(stack@[i] == st0[i]);
                        }
                    }
                }
            }
            let mut k: usize = 0;
            while k < 4
                invariant
                    self.wf(),
                    self@.same_frame(old_v),
                    self.clip_rect == old_v.clip,
                    w == old_v.width,
                    h == old_v.height,
                    n == w * h,
                    visited@.len() == n,
                    old_v.in_grid(sx as int, sy as int),
                    seed == (sx as int, sy as int),
                    u == old_v.cell(sx as int, sy as int),
                    u != c,
                    vs.finite(),
                    vs0.finite(),
                    vs0.len() <= n,
                    vs0.subset_of(vs),
                    vs.len() >= vs0.len(),
                    vs.len() == vs0.len() ==> stack@.len() < st0.len(),
                    forall|k: int| vs.contains(k) ==> 0 <= k < n,
                    forall|k: int| 0 <= k < n ==> (#[trigger] visited@[k] <==> vs.contains(k)),
                    seen(visited@, w as int, sx as int, sy as int),
                    cp == (cx as int, cy as int),
                    old_v.in_grid(cx as int, cy as int),
                    seen(visited@, w as int, cx as int, cy as int),
                    k <= 4,
                    forall|j: int|
                        0 <= j < k && old_v.in_grid(nb(cp, j).0, nb(cp, j).1) && old_v.cell(
                            nb(cp, j).0,
                            nb(cp, j).1,
                        ) == u ==> #[trigger] seen(visited@, w as int, nb(cp, j).0, nb(cp, j).1),
                    forall|px: int, py: int|
                        old_v.in_grid(px, py) && #[trigger] seen(visited@, w as int, px, py) ==> paths.contains_key(
                            (px, py),
                        ) && old_v.is_run(u, paths[(px, py)]) && paths[(px, py)][0] == seed && paths[(
                            px,
                            py,
                        )].last() == (px, py),
                    forall|px: int, py: int|
                        old_v.in_grid(px, py) ==> #[trigger] self@.cell(px, py) == (if seen(
                            visited@,
                            w as int,
                            px,
                            py,
                        ) && old_v.clip.has(px, py) {
                            c
                        } else {
                            old_v.cell(px, py)
                        }),
                    forall|i: int|
                        0 <= i < stack@.len() ==> old_v.in_grid(#[trigger] stack@[i].0 as int, stack@[i].1 as int)
                            && seen(visited@, w as int, stack@[i].0 as int, stack@[i].1 as int),
                    forall|px: int, py: int|
                        old_v.in_grid(px, py) && #[trigger] seen(visited@, w as int, px, py) && !on_stack(
                            stack@,
                            px,
                            py,
                        ) && (px, py) != cp ==> closed_at(old_v, visited@, u, px, py),
                decreases 4 - k,
            {
                let (ok, nx, ny) = if k == 0 {
                    if cx > 0 { (true, cx - 1, cy) } else { (false, 0, 0) }
                } else if k == 1 {
                    if cx + 1 < w { (true, cx + 1, cy) } else { (false, 0, 0) }
                } else if k == 2 {
                    if cy > 0 { (true, cx, cy - 1) } else { (false, 0, 0) }
                } else {
                    if cy + 1 < h { (true, cx, cy + 1) } else { (false, 0, 0) }
                };
                proof {
                    if ok {
                        assert((nx as int, ny as int) == nb(cp, k as int));
                    } else {
                        assert(!old_v.in_grid(nb(cp, k as int).0, nb(cp, k as int).1));
                    }
                }
                if ok {
                    proof {
                        lemma_index(w as int, h as int, nx as int, ny as int);
                    }
                    let ni = ny * w + nx;
                    if !visited[ni] {
                        let val = self.get_at(nx as i64, ny as i64);
                        if val.same(&u) {
                            let ghost vis_before = visited@;
                            let ghost st_before = stack@;
                            let ghost q = (nx as int, ny as int);
                            visited.set(ni, true);
                            proof {
                                let old_path = paths[cp];
                                let new_path = old_path.push(q);
                                assert(adjacent(cp, q));
                                assert(old_v.is_run(u, new_path)) by {
                                    assert forall|i: int| 0 <= i < new_path.len() - 1 implies adjacent(
                                        #[trigger] new_path[i],
                                        new_path[i + 1],
                                    ) by {
                                        if i < old_path.len() - 1 {
                                            assert(new_path[i] == old_path[i]);
                                            assert(new_path[i + 1] == old_path[i + 1]);
                                        } else {
                                            assert(new_path[i] == cp);
                                        }
                                    }
                                    assert forall|i: int| 0 <= i < new_path.len() implies old_v.in_grid(
                                        #[trigger] new_path[i].0,
                                        new_path[i].1,
                                    ) && old_v.cell(new_path[i].0, new_path[i].1) == u by {
                                        if i < old_path.len() {
                                            assert(new_path[i] == old_path[i]);
                                        }
                                    }
                                }
                                paths = paths.insert(q, new_path);
                                assert(!vs.contains(ni as int));
                                vs = vs.insert(ni as int);
                            }
                            if self.clip_has(nx, ny) {
                                self.put(nx, ny, c);
                            }
                            stack.push((nx, ny));
                            proof {
                                assert(!vis_before[ni as int]);
                                assert(!vs0.contains(ni as int)) by {
                                    assert(!vs.remove(ni as int).contains(ni as int));
                                }
                                assert forall|px: int, py: int| old_v.in_grid(px, py) implies (#[trigger] seen(
                                    visited@,
                                    w as int,
                                    px,
                                    py,
                                ) <==> (seen(vis_before, w as int, px, py) || (px, py) == q)) by {
                                    lemma_index(w as int, h as int, px, py);
                                    if (px, py) != q && py * w + px == ni {
                                        lemma_index_injective(w as int, px, py, nx as int, ny as int);
                                    }
                                }
                                assert(on_stack(stack@, nx as int, ny as int)) by {
                                    assert(stack@[stack@.len() - 1] == (nx, ny));
                                }
                                assert forall|px: int, py: int|
                                    old_v.in_grid(px, py) && #[trigger] seen(visited@, w as int, px, py)
                                        && !on_stack(stack@, px, py) && (px, py) != cp implies closed_at(
                                    old_v,
                                    visited@,
                                    u,
                                    px,
                                    py,
                                ) by {
                                    assert((px, py) != q);
                                    if on_stack(st_before, px, py) {
                                        let i = choose|i: int| 0 <= i < st_before.len() && #[trigger] st_before[i] == (px as usize, py as usize);
                                        assert(stack@[i] == st_before[i]);
                                    }
                                    assert(closed_at(old_v, vis_before, u, px, py));
                                    assert forall|j: int|
                                        0 <= j < 4 && old_v.in_grid(nb((px, py), j).0, nb((px, py), j).1) && old_v.cell(
                                            nb((px, py), j).0,
                                            nb((px, py), j).1,
                                        ) == u implies #[trigger] seen(visited@, w as int, nb((px, py), j).0, nb((px, py), j).1) by {
                                        assert(seen(vis_before, w as int, nb((px, py), j).0, nb((px, py), j).1));
                                    }
                                }
                                assert forall|j: int|
                                    0 <= j < k + 1 && old_v.in_grid(nb(cp, j).0, nb(cp, j).1) && old_v.cell(
                                        nb(cp, j).0,
                                        nb(cp, j).1,
                                    ) == u implies #[trigger] seen(visited@, w as int, nb(cp, j).0, nb(cp, j).1) by {
                                    if j < k {
                                        assert(seen(vis_before, w as int, nb(cp, j).0, nb(cp, j).1));
                                    }
                                }
                                assert forall|i: int|
                                    0 <= i < stack@.len() implies old_v.in_grid(#[trigger] stack@[i].0 as int, stack@[i].1 as int)
                                        && seen(visited@, w as int, stack@[i].0 as int, stack@[i].1 as int) by {
                                    if i < st_before.len() {
                                        assert(stack@[i] == st_before[i]);
                                    }
                                }
                            }
                        }
                    }
                }
                k = k + 1;
            }
            proof {
                assert forall|px: int, py: int|
                    old_v.in_grid(px, py) && #[trigger] seen(visited@, w as int, px, py) && !on_stack(stack@, px, py)
                        implies closed_at(old_v, visited@, u, px, py) by {
                    if (px, py) == cp {
                        assert forall|j: int|
                            0 <= j < 4 && old_v.in_grid(nb((px, py), j).0, nb((px, py), j).1) && old_v.cell(
                                nb((px, py), j).0,
                                nb((px, py), j).1,
                            ) == u implies #[trigger] seen(visited@, w as int, nb((px, py), j).0, nb((px, py), j).1) by {
                            assert(seen(visited@, w as int, nb(cp, j).0, nb(cp, j).1));
                        }
                    }
                }
                vstd::set_lib::lemma_len_subset(vs, vstd::set_lib::set_int_range(0, n as int));
                if vs.len() == vs0.len() {
                } else {
                    vstd::set_lib::lemma_len_subset(vs0, vs);
                }
            }
        }
        proof {
            assert forall|px: int, py: int| old_v.in_grid(px, py) implies #[trigger] self@.cell(px, py) == (if old_v.clip.has(px, py)
                && old_v.connected(sx as int, sy as int, px, py) {
                c
            } else {
                old_v.cell(px, py)
            }) by {
                if seen(visited@, w as int, px, py) {
                    let path = paths[(px, py)];
                    assert(old_v.is_run(old_v.cell(sx as int, sy as int), path));
                }
                if old_v.connected(sx as int, sy as int, px, py) {
                    let path = choose|path: Seq<(int, int)>|
                        #[trigger] old_v.is_run(old_v.cell(sx as int, sy as int), path) && path[0] == (sx as int, sy as int)
                            && path.last() == (px, py);
                    assert forall|ax: int, ay: int| old_v.in_grid(ax, ay) && #[trigger] seen(visited@, w as int, ax, ay)
                        implies closed_at(old_v, visited@, u, ax, ay) by {
                        assert(!on_stack(stack@, ax, ay));
                    }
                    lemma_run_flagged(old_v, visited@, u, path, path.len() - 1);
                }
            }
        }
    }
}

/// A negative extent counts as none.
pub open spec fn clamp_extent(w: i32) -> u32 {
    if w > 0 { w as u32 } else { 0 }
}

/// The neighbour of `p` in direction `k`: left, right, up, down.
pub open spec fn nb(p: (int, int), k: int) -> (int, int) {
    if k == 0 {
        (p.0 - 1, p.1)
    } else if k == 1 {
        (p.0 + 1, p.1)
    } else if k == 2 {
        (p.0, p.1 - 1)
    } else {
        (p.0, p.1 + 1)
    }
}

pub open spec fn adjacent(a: (int, int), b: (int, int)) -> bool {
    b == nb(a, 0) || b == nb(a, 1) || b == nb(a, 2) || b == nb(a, 3)
}

/// Whether the flag of cell `(x, y)` is set in a row-major grid of flags.
pub open spec fn seen(flags: Seq<bool>, w: int, x: int, y: int) -> bool {
    flags[y * w + x]
}

pub open spec fn on_stack(stack: Seq<(usize, usize)>, x: int, y: int) -> bool {
    exists|i: int| 0 <= i < stack.len() && #[trigger] stack[i] == (x as usize, y as usize)
}

/// Every neighbour of `(x, y)` in the grid with value `u` has its flag set.
pub open spec fn closed_at<T: CellValue>(v: CanvasView<T>, flags: Seq<bool>, u: T, x: int, y: int) -> bool {
    forall|k: int|
        0 <= k < 4 && v.in_grid(nb((x, y), k).0, nb((x, y), k).1) && v.cell(nb((x, y), k).0, nb((x, y), k).1)
            == u ==> #[trigger] seen(flags, v.width, nb((x, y), k).0, nb((x, y), k).1)
}

/// A set of flagged cells that holds the start of a run and is closed under
/// same-valued neighbours holds the whole run.
proof fn lemma_run_flagged<T: CellValue>(v: CanvasView<T>, flags: Seq<bool>, u: T, path: Seq<(int, int)>, i: int)
    requires
        v.is_run(u, path),
        0 <= i < path.len(),
        seen(flags, v.width, path[0].0, path[0].1),
        forall|x: int, y: int| v.in_grid(x, y) && #[trigger] seen(flags, v.width, x, y) ==> closed_at(v, flags, u, x, y),
    ensures
        seen(flags, v.width, path[i].0, path[i].1),
    decreases i,
{
    if i > 0 {
        lemma_run_flagged(v, flags, u, path, i - 1);
        let a = path[i - 1];
        let b = path[i];
        assert(adjacent(a, b));
        assert(v.in_grid(a.0, a.1));
        assert(v.in_grid(b.0, b.1) && v.cell(b.0, b.1) == u);
        assert(closed_at(v, flags, u, a.0, a.1));
        if b == nb(a, 0) {
            assert(seen(flags, v.width, nb(a, 0).0, nb(a, 0).1));
        } else if b == nb(a, 1) {
            assert(seen(flags, v.width, nb(a, 1).0, nb(a, 1).1));
        } else if b == nb(a, 2) {
            assert(seen(flags, v.width, nb(a, 2).0, nb(a, 2).1));
        } else {
            assert(seen(flags, v.width, nb(a, 3).0, nb(a, 3).1));
        }
    }
}

/// A view whose cells agree with another's at every point of the grid holds
/// the same cells.
pub proof fn lemma_same_cells<T: CellValue>(a: CanvasView<T>, b: CanvasView<T>)
    requires
        a.same_frame(b),
        a.cells.len() == a.width * a.height,
        a.width >= 0,
        forall|x: int, y: int| a.in_grid(x, y) ==> #[trigger] a.cell(x, y) == b.cell(x, y),
    ensures
        a.cells == b.cells,
{
    assert forall|i: int| 0 <= i < a.cells.len() implies a.cells[i] == b.cells[i] by {
        let w = a.width;
        let h = a.height;
        vstd::arithmetic::div_mod::lemma_fundamental_div_mod(i, w);
        let x = i % w;
        let y = i / w;
        assert(0 <= x < w) by {
            vstd::arithmetic::div_mod::lemma_mod_pos_bound(i, w);
        }
        assert(0 <= y) by {
            vstd::arithmetic::div_mod::lemma_div_pos_is_pos(i, w);
        }
        if y >= h {
            vstd::arithmetic::mul::lemma_mul_inequality(h, y, w);
            assert(w * h <= w * y) by (nonlinear_arith)
                requires
                    h * w <= y * w,
            ;
        }
        assert(i == y * w + x) by (nonlinear_arith)
            requires
                i == w * y + x,
        ;
        assert(a.cell(x, y) == b.cell(x, y));
    }
    assert(a.cells =~= b.cells);
}

/// Right after `pset` at a point inside the clip rectangle, `pget` there reads
/// the palette value that was written.
pub proof fn lemma_pset_then_pget<T: CellValue>(
    before: CanvasView<T>,
    after: CanvasView<T>,
    x: i32,
    y: i32,
    v: T,
)
    requires
        after.painted(before, Shape::Rect { x, y, w: 1, h: 1 }, before.pal(v)),
        before.in_grid(x as int, y as int),
        before.clip.has(x as int, y as int),
    ensures
        after.get(x as int, y as int) == before.pal(v),
{
    assert(after.cell(x as int, y as int) == before.pal(v));
}

/// Drawing a shape with no cell inside the clip rectangle leaves every cell
/// as it was.
pub proof fn lemma_paint_outside_clip<T: CellValue>(
    before: CanvasView<T>,
    after: CanvasView<T>,
    shape: Shape,
    c: T,
)
    requires
        before.cells.len() == before.width * before.height,
        before.width >= 0,
        after.painted(before, shape, c),
        forall|x: int, y: int| #[trigger] shape.has(x, y) ==> !before.clip.has(x, y),
    ensures
        after.cells == before.cells,
{
    assert forall|x: int, y: int| after.in_grid(x, y) implies #[trigger] after.cell(x, y) == before.cell(x, y) by {
        assert(before.in_grid(x, y));
        if shape.has(x, y) {
        }
    }
    lemma_same_cells(after, before);
}

/// A block copied to a place with no cell inside the clip rectangle leaves
/// every cell as it was.
pub proof fn lemma_blt_outside_clip<T: CellValue>(
    before: CanvasView<T>,
    after: CanvasView<T>,
    src: CanvasView<T>,
    x: int,
    y: int,
    u: int,
    v: int,
    w: int,
    h: int,
    key: Option<T>,
)
    requires
        before.cells.len() == before.width * before.height,
        before.width >= 0,
        after.blitted(before, src, x, y, u, v, w, h, key),
        forall|px: int, py: int| #[trigger] in_rect(x, y, abs_int(w), abs_int(h), px, py) ==> !before.clip.has(px, py),
    ensures
        after.cells == before.cells,
{
    assert forall|px: int, py: int| after.in_grid(px, py) implies #[trigger] after.cell(px, py) == before.cell(px, py) by {
        assert(before.in_grid(px, py));
        if in_rect(x, y, abs_int(w), abs_int(h), px, py) {
        }
    }
    lemma_same_cells(after, before);
}

/// With a transparent key, a cell whose source value is the key keeps its
/// value; without one, every cell of the block inside the clip rectangle takes
/// the palette value of its (possibly mirrored) source cell.
pub proof fn lemma_blt_transparency<T: CellValue>(
    before: CanvasView<T>,
    after: CanvasView<T>,
    src: CanvasView<T>,
    x: int,
    y: int,
    u: int,
    v: int,
    w: int,
    h: int,
    key: Option<T>,
)
    requires
        after.blitted(before, src, x, y, u, v, w, h, key),
    ensures
        forall|px: int, py: int|
            before.in_grid(px, py) && key == Some(src.blt_value(x, y, u, v, w, h, px, py))
                ==> #[trigger] after.cell(px, py) == before.cell(px, py),
        key is None ==> forall|px: int, py: int|
            before.in_grid(px, py) && before.clip.has(px, py) && in_rect(x, y, abs_int(w), abs_int(h), px, py)
                ==> #[trigger] after.cell(px, py) == before.pal(src.blt_value(x, y, u, v, w, h, px, py)),
{
}

} // verus!
