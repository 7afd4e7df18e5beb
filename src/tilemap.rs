use std::rc::Rc;

use vstd::prelude::*;

use crate::canvas::{clamp_extent, Canvas, CanvasView};
use crate::cell::Tile;
use crate::image::Image;
use crate::rectarea::RectArea;
use crate::shape::Shape;

verus! {

/// A grid of tile references, drawn on with the same primitives as an image,
/// together with a shared handle to the image its tiles are taken from.
pub struct Tilemap {
    canvas: Canvas<Tile>,
    image: Rc<Image>,
}

impl View for Tilemap {
    type V = CanvasView<Tile>;

    closed spec fn view(&self) -> CanvasView<Tile> {
        self.canvas@
    }
}

impl Tilemap {
    pub closed spec fn wf(&self) -> bool {
        self.canvas.wf()
    }

    /// The image the tiles are taken from.
    pub closed spec fn source(&self) -> Rc<Image> {
        self.image
    }

    /// A `width` by `height` tilemap of tile (0, 0) over `image`.
    pub fn new(width: u32, height: u32, image: Rc<Image>) -> (r: Tilemap)
        requires
            width as int * height as int <= usize::MAX,
        ensures
            r.wf(),
            r@.width == width,
            r@.height == height,
            r@.clip == RectArea::new_spec(0, 0, width, height),
            r.source() == image,
            forall|x: int, y: int| r@.in_grid(x, y) ==> #[trigger] r@.cell(x, y) == (Tile { x: 0, y: 0 }),
    {
        Tilemap { canvas: Canvas::new(width, height, Vec::new()), image }
    }

    pub fn width(&self) -> (r: u32)
        ensures
            r == self@.width,
    {
        self.canvas.width()
    }

    pub fn height(&self) -> (r: u32)
        ensures
            r == self@.height,
    {
        self.canvas.height()
    }

    pub fn image(&self) -> (r: &Rc<Image>)
        ensures
            *r == self.source(),
    {
        &self.image
    }

    /// Takes tiles from another image; the tile references stay as they are.
    pub fn set_image(&mut self, image: Rc<Image>)
        requires
            old(self).wf(),
        ensures
            final(self).wf(),
            final(self)@ == old(self)@,
            final(self).source() == image,
    {
        self.image = image;
    }

    /// The tile at `(x, y)`, (0, 0) off the tilemap.
    pub fn pget(&self, x: i32, y: i32) -> (r: Tile)
        requires
            self.wf(),
        ensures
            r == self@.get(x as int, y as int),
    {
        self.canvas.pget(x, y)
    }

    /// Sets one cell, inside the clip rectangle.
    pub fn pset(&mut self, x: i32, y: i32, tile: Tile)
        requires
            old(self).wf(),
        ensures
            final(self).wf(),
            final(self)@.painted(old(self)@, Shape::Rect { x, y, w: 1, h: 1 }, old(self)@.pal(tile)),
    {
        self.canvas.pset(x, y, tile);
    }

    /// Clears the whole tilemap, whatever the clip, to the given tile.
    pub fn cls(&mut self, tile: Tile)
        requires
            old(self).wf(),
        ensures
            final(self).wf(),
            final(self)@.same_frame(old(self)@),
            forall|px: int, py: int|
                old(self)@.in_grid(px, py) ==> #[trigger] final(self)@.cell(px, py) == old(self)@.pal(tile),
    {
        self.canvas.cls(tile);
    }

    /// Clips drawing to the given rectangle, cut down to the tilemap.
    pub fn clip(&mut self, x: i32, y: i32, w: i32, h: i32)
        requires
            old(self).wf(),
        ensures
            final(self).wf(),
            final(self)@ == (CanvasView {
                clip: RectArea::new_spec(0, 0, old(self)@.width as u32, old(self)@.height as u32).intersect_spec(
                    RectArea::new_spec(x, y, clamp_extent(w), clamp_extent(h)),
                ),
                ..old(self)@
            }),
    {
        self.canvas.clip(x, y, w, h);
    }

    /// Lets drawing reach the whole tilemap again.
    pub fn clip0(&mut self)
        requires
            old(self).wf(),
        ensures
            final(self).wf(),
            final(self)@ == (CanvasView {
                clip: RectArea::new_spec(0, 0, old(self)@.width as u32, old(self)@.height as u32),
                ..old(self)@
            }),
    {
        self.canvas.clip0();
    }

    /// Draws the segment between two points, both included.
    pub fn line(&mut self, x1: i32, y1: i32, x2: i32, y2: i32, tile: Tile)
        requires
            old(self).wf(),
        ensures
            final(self).wf(),
            final(self)@.painted(old(self)@, Shape::Line { x1, y1, x2, y2 }, old(self)@.pal(tile)),
    {
        self.canvas.line(x1, y1, x2, y2, tile);
    }

    /// Fills a rectangle.
    pub fn rect(&mut self, x: i32, y: i32, w: i32, h: i32, tile: Tile)
        requires
            old(self).wf(),
        ensures
            final(self).wf(),
            final(self)@.painted(old(self)@, Shape::Rect { x, y, w, h }, old(self)@.pal(tile)),
    {
        self.canvas.rect(x, y, w, h, tile);
    }

    /// Draws the border of a rectangle.
    pub fn rectb(&mut self, x: i32, y: i32, w: i32, h: i32, tile: Tile)
        requires
            old(self).wf(),
        ensures
            final(self).wf(),
            final(self)@.painted(old(self)@, Shape::RectB { x, y, w, h }, old(self)@.pal(tile)),
    {
        self.canvas.rectb(x, y, w, h, tile);
    }

    /// Fills a disk.
    pub fn circ(&mut self, x: i32, y: i32, r: i32, tile: Tile)
        requires
            old(self).wf(),
        ensures
            final(self).wf(),
            final(self)@.painted(old(self)@, Shape::Circ { x, y, r }, old(self)@.pal(tile)),
    {
        self.canvas.circ(x, y, r, tile);
    }

    /// Draws a ring.
    pub fn circb(&mut self, x: i32, y: i32, r: i32, tile: Tile)
        requires
            old(self).wf(),
        ensures
            final(self).wf(),
            final(self)@.painted(old(self)@, Shape::CircB { x, y, r }, old(self)@.pal(tile)),
    {
        self.canvas.circb(x, y, r, tile);
    }

    /// Fills a triangle.
    pub fn tri(&mut self, x1: i32, y1: i32, x2: i32, y2: i32, x3: i32, y3: i32, tile: Tile)
        requires
            old(self).wf(),
        ensures
            final(self).wf(),
            final(self)@.painted(old(self)@, Shape::Tri { x1, y1, x2, y2, x3, y3 }, old(self)@.pal(tile)),
    {
        self.canvas.tri(x1, y1, x2, y2, x3, y3, tile);
    }

    /// Draws the edges of a triangle.
    pub fn trib(&mut self, x1: i32, y1: i32, x2: i32, y2: i32, x3: i32, y3: i32, tile: Tile)
        requires
            old(self).wf(),
        ensures
            final(self).wf(),
            final(self)@.painted(old(self)@, Shape::TriB { x1, y1, x2, y2, x3, y3 }, old(self)@.pal(tile)),
    {
        self.canvas.trib(x1, y1, x2, y2, x3, y3, tile);
    }

    /// Flood-fills the region 4-connected to `(x, y)`; see `Canvas::fill`.
    pub fn fill(&mut self, x: i32, y: i32, tile: Tile)
        requires
            old(self).wf(),
        ensures
            final(self).wf(),
            if old(self)@.in_grid(x as int, y as int) && old(self)@.cell(x as int, y as int) != old(
                self,
            )@.pal(tile) {
                final(self)@.filled(old(self)@, x as int, y as int, old(self)@.pal(tile))
            } else {
                final(self)@ == old(self)@
            },
    {
        self.canvas.fill(x, y, tile);
    }

    /// Copies a block of `src` here; see `Canvas::blt`. `tile_key` marks the
    /// transparent tile.
    pub fn blt(&mut self, x: i32, y: i32, src: &Tilemap, u: i32, v: i32, w: i32, h: i32, tile_key: Option<Tile>)
        requires
            old(self).wf(),
            src.wf(),
        ensures
            final(self).wf(),
            final(self)@.blitted(old(self)@, src@, x as int, y as int, u as int, v as int, w as int, h as int, tile_key),
    {
        self.canvas.blt(x, y, &src.canvas, u, v, w, h, tile_key);
    }

    /// Copies a block of this tilemap onto itself, reading it as it stood.
    pub fn blt_self(&mut self, x: i32, y: i32, u: i32, v: i32, w: i32, h: i32, tile_key: Option<Tile>)
        requires
            old(self).wf(),
        ensures
            final(self).wf(),
            final(self)@.blitted(old(self)@, old(self)@, x as int, y as int, u as int, v as int, w as int, h as int, tile_key),
    {
        self.canvas.blt_self(x, y, u, v, w, h, tile_key);
    }
}

} // verus!
