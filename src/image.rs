use vstd::prelude::*;
use vstd::string::StringSliceAdditionalSpecFns;

use std::collections::HashMap;

use crate::canvas::{clamp_extent, Canvas, CanvasView};
use crate::cell::Color;
use crate::rectarea::RectArea;
use crate::settings::COLOR_COUNT;
use crate::shape::{in_rect, Shape};

verus! {

/// Whether a byte is whitespace that image text may hold between digits.
pub open spec fn is_blank(b: u8) -> bool {
    b == 0x20 || b == 0x09 || b == 0x0a || b == 0x0d
}

/// The bytes of `s` with the whitespace taken out.
pub open spec fn strip_blanks(s: Seq<u8>) -> Seq<u8>
    decreases s.len(),
{
    if s.len() == 0 {
        Seq::empty()
    } else {
        let r = strip_blanks(s.drop_last());
        if is_blank(s.last()) {
            r
        } else {
            r.push(s.last())
        }
    }
}

/// The value of a hexadecimal digit of either case.
pub open spec fn hex_digit(b: u8) -> Option<u8> {
    if 0x30 <= b <= 0x39 {
        Some((b - 0x30) as u8)
    } else if 0x61 <= b <= 0x66 {
        Some((b - 0x61 + 10) as u8)
    } else if 0x41 <= b <= 0x46 {
        Some((b - 0x41 + 10) as u8)
    } else {
        None
    }
}

/// Row `i` of image text, whitespace removed.
pub open spec fn text_row(data: Seq<&str>, i: int) -> Seq<u8> {
    strip_blanks(data[i].spec_bytes())
}

/// The width of image text: that of its first row.
pub open spec fn text_width(data: Seq<&str>) -> int {
    if data.len() == 0 {
        0
    } else {
        text_row(data, 0).len() as int
    }
}

/// Every row holds at least as many digits as the first, and each of those is
/// a hexadecimal digit.
pub open spec fn valid_text(data: Seq<&str>) -> bool {
    forall|i: int, j: int|
        0 <= i < data.len() && 0 <= j < text_width(data) ==> j < text_row(data, i).len()
            && #[trigger] hex_digit(text_row(data, i)[j]) is Some
}

/// The color that image text gives the cell `(j, i)` of its patch.
pub open spec fn text_color(data: Seq<&str>, j: int, i: int) -> u8 {
    hex_digit(text_row(data, i)[j]).unwrap()
}

fn strip_row(s: &str) -> (r: Vec<u8>)
    ensures
        r@ == strip_blanks(s.spec_bytes()),
{
    let b = s.as_bytes();
    let mut r: Vec<u8> = Vec::new();
    let mut i: usize = 0;
    while i < b.len()
        invariant
            b@ == s.spec_bytes(),
            i <= b@.len(),
            r@ == strip_blanks(b@.subrange(0, i as int)),
        decreases b@.len() - i,
    {
        let c = b[i];
        proof {
            assert(b@.subrange(0, i + 1).drop_last() =~= b@.subrange(0, i as int));
        }
        if !(c == 0x20 || c == 0x09 || c == 0x0a || c == 0x0d) {
            r.push(c);
        }
        i = i + 1;
    }
    proof {
        assert(b@.subrange(0, b@.len() as int) =~= b@);
    }
    r
}

fn parse_hex_digit(b: u8) -> (r: Option<u8>)
    ensures
        r == hex_digit(b),
{
    if 0x30 <= b && b <= 0x39 {
        Some(b - 0x30)
    } else if 0x61 <= b && b <= 0x66 {
        Some(b - 0x61 + 10)
    } else if 0x41 <= b && b <= 0x46 {
        Some(b - 0x41 + 10)
    } else {
        None
    }
}

/// Whether `data` is image text that `Image::set` accepts.
pub fn is_valid_text(data: &[&str]) -> (r: bool)
    ensures
        r == valid_text(data@),
{
    if data.len() == 0 {
        return true;
    }
    let width = strip_row(data[0]).len();
    let mut i: usize = 0;
    while i < data.len()
        invariant
            width == text_width(data@),
            i <= data@.len(),
            forall|a: int, j: int|
                0 <= a < i && 0 <= j < width ==> j < text_row(data@, a).len() && #[trigger] hex_digit(
                    text_row(data@, a)[j],
                ) is Some,
        decreases data@.len() - i,
    {
        let row = strip_row(data[i]);
        if row.len() < width {
            proof {
                let j = width as int - 1;
                assert(hex_digit(text_row(data@, i as int)[j]) == hex_digit(text_row(data@, i as int)[j]));
                assert(!valid_text(data@));
            }
            return false;
        }
        let mut j: usize = 0;
        while j < width
            invariant
                width == text_width(data@),
                i < data@.len(),
                row@ == text_row(data@, i as int),
                row@.len() >= width,
                j <= width,
                forall|a: int, b: int|
                    0 <= a < i && 0 <= b < width ==> b < text_row(data@, a).len() && #[trigger] hex_digit(
                        text_row(data@, a)[b],
                    ) is Some,
                forall|b: int| 0 <= b < j ==> #[trigger] hex_digit(row@[b]) is Some,
            decreases width - j,
        {
            if parse_hex_digit(row[j]).is_none() {
                proof {
                    assert(hex_digit(text_row(data@, i as int)[j as int]) is None);
                }
                return false;
            }
            j = j + 1;
        }
        proof {
            assert forall|a: int, b: int|
                0 <= a < i + 1 && 0 <= b < width implies b < text_row(data@, a).len() && #[trigger] hex_digit(
                    text_row(data@, a)[b],
                ) is Some by {
                if a == i {
                    assert(hex_digit(row@[b]) is Some);
                }
            }
        }
        i = i + 1;
    }
    true
}

/// The red, green and blue channels of a packed `0xRRGGBB` color.
pub open spec fn channels(c: u32) -> (int, int, int) {
    ((c as int / 65536) % 256, (c as int / 256) % 256, c as int % 256)
}

/// The weighted squared distance between two colors, with the channel
/// differences weighted 30, 59 and 11 (the perceptual weights, in hundredths).
pub open spec fn color_dist(rgb: (u8, u8, u8), c: u32) -> int {
    let (r, g, b) = channels(c);
    let dr = 30 * (rgb.0 - r);
    let dg = 59 * (rgb.1 - g);
    let db = 11 * (rgb.2 - b);
    dr * dr + dg * dg + db * db
}

/// How many entries of a table of colors a color index can reach.
pub open spec fn usable(table: Seq<u32>) -> int {
    if table.len() < COLOR_COUNT { table.len() as int } else { COLOR_COUNT as int }
}

/// `k` is the index of the table entry nearest to `rgb`, the lowest such on a
/// tie; 0 for an empty table.
pub open spec fn is_nearest(rgb: (u8, u8, u8), table: Seq<u32>, k: int) -> bool {
    if usable(table) == 0 {
        k == 0
    } else {
        &&& 0 <= k < usable(table)
        &&& forall|j: int| 0 <= j < usable(table) ==> color_dist(rgb, table[k]) <= color_dist(rgb, #[trigger] table[j])
        &&& forall|j: int| 0 <= j < k ==> color_dist(rgb, table[k]) < color_dist(rgb, #[trigger] table[j])
    }
}

pub open spec fn nearest_index(rgb: (u8, u8, u8), table: Seq<u32>) -> int {
    choose|k: int| is_nearest(rgb, table, k)
}

/// There is one nearest index at most.
pub proof fn lemma_nearest_unique(rgb: (u8, u8, u8), table: Seq<u32>, k1: int, k2: int)
    requires
        is_nearest(rgb, table, k1),
        is_nearest(rgb, table, k2),
    ensures
        k1 == k2,
{
    if usable(table) > 0 {
        if k1 < k2 {
            assert(color_dist(rgb, table[k2]) < color_dist(rgb, table[k1]));
        } else if k2 < k1 {
            assert(color_dist(rgb, table[k1]) < color_dist(rgb, table[k2]));
        }
    }
}

pub proof fn lemma_nearest_index(rgb: (u8, u8, u8), table: Seq<u32>, k: int)
    requires
        is_nearest(rgb, table, k),
    ensures
        nearest_index(rgb, table) == k,
{
    lemma_nearest_unique(rgb, table, k, nearest_index(rgb, table));
}

/// The packed key of a color.
pub open spec fn pack(rgb: (u8, u8, u8)) -> u32 {
    (rgb.0 as int * 65536 + rgb.1 as int * 256 + rgb.2 as int) as u32
}

fn dist_exec(rgb: (u8, u8, u8), c: u32) -> (r: u64)
    ensures
        r == color_dist(rgb, c),
{
    let r2 = ((c / 65536) % 256) as i64;
    let g2 = ((c / 256) % 256) as i64;
    let b2 = (c % 256) as i64;
    let dr: i64 = 30 * (rgb.0 as i64 - r2);
    let dg: i64 = 59 * (rgb.1 as i64 - g2);
    let db: i64 = 11 * (rgb.2 as i64 - b2);
    proof {
        assert(0 <= dr * dr <= 7650 * 7650) by (nonlinear_arith)
            requires
                -7650 <= dr <= 7650,
        ;
        assert(0 <= dg * dg <= 15045 * 15045) by (nonlinear_arith)
            requires
                -15045 <= dg <= 15045,
        ;
        assert(0 <= db * db <= 2805 * 2805) by (nonlinear_arith)
            requires
                -2805 <= db <= 2805,
        ;
    }
    (dr * dr + dg * dg + db * db) as u64
}

/// The index of the table entry nearest to `rgb`, the lowest on a tie.
pub fn nearest_color(rgb: (u8, u8, u8), table: &[u32]) -> (r: Color)
    ensures
        is_nearest(rgb, table@, r as int),
{
    let n: usize = if table.len() < COLOR_COUNT as usize { table.len() } else { COLOR_COUNT as usize };
    if n == 0 {
        return 0;
    }
    let mut best: usize = 0;
    let mut best_dist: u64 = dist_exec(rgb, table[0]);
    let mut k: usize = 1;
    while k < n
        invariant
            n == usable(table@),
            0 < n <= COLOR_COUNT,
            1 <= k <= n,
            best < k,
            best_dist == color_dist(rgb, table@[best as int]),
            forall|j: int| 0 <= j < k ==> color_dist(rgb, table@[best as int]) <= color_dist(rgb, #[trigger] table@[j]),
            forall|j: int| 0 <= j < best ==> color_dist(rgb, table@[best as int]) < color_dist(rgb, #[trigger] table@[j]),
        decreases n - k,
    {
        let d = dist_exec(rgb, table[k]);
        if d < best_dist {
            best = k;
            best_dist = d;
        }
        k = k + 1;
    }
    best as u8
}

/// A color-indexed image: a canvas of palette indices with a table of
/// `COLOR_COUNT` substitutions applied as colors are drawn.
pub struct Image {
    canvas: Canvas<Color>,
}

impl View for Image {
    type V = CanvasView<Color>;

    closed spec fn view(&self) -> CanvasView<Color> {
        self.canvas@
    }
}

/// The table that maps every color to itself.
pub open spec fn identity_palette(p: Seq<u8>) -> bool {
    p.len() == COLOR_COUNT && forall|i: int| 0 <= i < COLOR_COUNT ==> #[trigger] p[i] == i
}

fn identity_table() -> (r: Vec<u8>)
    ensures
        identity_palette(r@),
{
    let mut p: Vec<u8> = Vec::new();
    let mut i: u32 = 0;
    while i < COLOR_COUNT
        invariant
            i <= COLOR_COUNT,
            p@.len() == i,
            forall|k: int| 0 <= k < i ==> #[trigger] p@[k] == k,
        decreases COLOR_COUNT - i,
    {
        p.push(i as u8);
        i = i + 1;
    }
    p
}

impl Image {
    pub closed spec fn wf(&self) -> bool {
        self.canvas.wf() && self.canvas@.palette.len() == COLOR_COUNT
    }

    pub fn canvas(&self) -> (r: &Canvas<Color>)
        ensures
            r@ == self@,
            self.wf() ==> r.wf(),
    {
        &self.canvas
    }

    /// A `width` by `height` image of color 0, with the identity palette.
    pub fn new(width: u32, height: u32) -> (r: Image)
        requires
            width as int * height as int <= usize::MAX,
        ensures
            r.wf(),
            r@.width == width,
            r@.height == height,
            r@.clip == RectArea::new_spec(0, 0, width, height),
            identity_palette(r@.palette),
            forall|x: int, y: int| r@.in_grid(x, y) ==> #[trigger] r@.cell(x, y) == 0,
    {
        Image { canvas: Canvas::new(width, height, identity_table()) }
    }

    pub fn width(&self) -> (r: u32)
        ensures
            r == self@.width,
    {
        self.canvas.width()
    }

    pub fn height(&self) -> (r: u32)
        ensures
            r == self@.height,
    {
        self.canvas.height()
    }

    /// Draws color `col1` as `col2` from now on.
    pub fn pal(&mut self, col1: Color, col2: Color)
        requires
            old(self).wf(),
        ensures
            final(self).wf(),
            final(self)@ == (CanvasView {
                palette: old(self)@.palette.update(col1 as int, col2),
                ..old(self)@
            }),
    {
        self.canvas.set_palette_entry(col1 as usize, col2);
    }

    /// Resets the palette to the identity.
    pub fn pal_(&mut self)
        requires
            old(self).wf(),
        ensures
            final(self).wf(),
            identity_palette(final(self)@.palette),
            final(self)@ == (CanvasView { palette: final(self)@.palette, ..old(self)@ }),
    {
        self.canvas.set_palette(identity_table());
    }

    /// Copies a patch written as text, one hexadecimal digit per cell and one
    /// string per row (whitespace ignored), to `(x, y)`, opaquely, through the
    /// palette and the clip rectangle. The patch is as wide as its first row.
    pub fn set(&mut self, x: i32, y: i32, data: &[&str])
        requires
            old(self).wf(),
            valid_text(data@),
            data@.len() <= i32::MAX,
            text_width(data@) <= i32::MAX,
            text_width(data@) * data@.len() <= usize::MAX,
        ensures
            final(self).wf(),
            final(self)@.same_frame(old(self)@),
            forall|px: int, py: int|
                old(self)@.in_grid(px, py) ==> #[trigger] final(self)@.cell(px, py) == (if old(
                    self,
                )@.clip.has(px, py) && in_rect(
                    x as int,
                    y as int,
                    text_width(data@),
                    data@.len() as int,
                    px,
                    py,
                ) {
                    old(self)@.pal(text_color(data@, px - x, py - y))
                } else {
                    old(self)@.cell(px, py)
                }),
    {
        if data.len() == 0 {
            return;
        }
        let first = strip_row(data[0]);
        let width: usize = first.len();
        let height: usize = data.len();
        if width == 0 {
            return;
        }
        let mut cells: Vec<u8> = Vec::new();
        let mut i: usize = 0;
        while i < height
            invariant
                height == data@.len(),
                width == text_width(data@),
                width > 0,
                valid_text(data@),
                width * height <= usize::MAX,
                i <= height,
                cells@.len() == i * width,
                forall|a: int, b: int|
                    0 <= a < width && 0 <= b < i ==> #[trigger] cells@[b * width + a] == text_color(
                        data@,
                        a,
                        b,
                    ),
            decreases height - i,
        {
            let row = strip_row(data[i]);
            let mut j: usize = 0;
            proof {
                assert(i * width + width <= height * width) by (nonlinear_arith)
                    requires
                        i < height,
                ;
            }
            while j < width
                invariant
                    height == data@.len(),
                    width == text_width(data@),
                    valid_text(data@),
                    i < height,
                    i * width + width <= usize::MAX,
                    row@ == text_row(data@, i as int),
                    j <= width,
                    cells@.len() == i * width + j,
                    forall|a: int, b: int|
                        0 <= a < width && 0 <= b < i ==> #[trigger] cells@[b * width + a]
                            == text_color(data@, a, b),
                    forall|a: int| 0 <= a < j ==> #[trigger] cells@[i * width + a] == text_color(data@, a, i as int),
                decreases width - j,
            {
                proof {
                    assert(hex_digit(text_row(data@, i as int)[j as int]) is Some);
                }
                let d = parse_hex_digit(row[j]);
                let v = d.unwrap();
                let ghost before = cells@;
                cells.push(v);
                proof {
                    assert forall|a: int, b: int|
                        0 <= a < width && 0 <= b < i implies #[trigger] cells@[b * width + a]
                            == text_color(data@, a, b) by {
                        assert(b * width + a < i * width) by (nonlinear_arith)
                            requires
                                0 <= a < width,
                                0 <= b < i,
                        ;
                        assert(cells@[b * width + a] == before[b * width + a]);
                    }
                }
                j = j + 1;
            }
            proof {
                assert forall|a: int, b: int|
                    0 <= a < width && 0 <= b < i + 1 implies #[trigger] cells@[b * width + a]
                        == text_color(data@, a, b) by {
                    if b == i {
                        assert(cells@[i * width + a] == text_color(data@, a, i as int));
                    }
                }
                assert((i + 1) * width == i * width + width) by (nonlinear_arith);
            }
            i = i + 1;
        }
        proof {
            assert(height * width == width * height) by (nonlinear_arith);
        }
        let tmp = Canvas::from_cells(width as u32, height as u32, cells, Vec::new());
        self.canvas.blt(x, y, &tmp, 0, 0, width as i32, height as i32, None);
        proof {
            assert forall|px: int, py: int| old(self)@.in_grid(px, py) implies #[trigger] self@.cell(
                px,
                py,
            ) == (if old(self)@.clip.has(px, py) && in_rect(
                x as int,
                y as int,
                text_width(data@),
                data@.len() as int,
                px,
                py,
            ) {
                old(self)@.pal(text_color(data@, px - x, py - y))
            } else {
                old(self)@.cell(px, py)
            }) by {
                if old(self)@.clip.has(px, py) && in_rect(
                    x as int,
                    y as int,
                    width as int,
                    height as int,
                    px,
                    py,
                ) {
                    assert(tmp@.get(px - x, py - y) == tmp@.cell(px - x, py - y));
                    assert(tmp@.blt_value(x as int, y as int, 0, 0, width as int, height as int, px, py)
                        == text_color(data@, px - x, py - y));
                }
            }
        }
    }
    /// Imports a decoded `width` by `height` grid of colors, row-major, as
    /// the indices of the nearest entries of `table`, and copies it to
    /// `(x, y)` opaquely through the palette and the clip rectangle. Each
    /// distinct color is matched once.
    pub fn load(&mut self, x: i32, y: i32, width: u32, height: u32, pixels: &[(u8, u8, u8)], table: &[u32])
        requires
            old(self).wf(),
            pixels@.len() == width as int * height as int,
            width <= i32::MAX,
            height <= i32::MAX,
        ensures
            final(self).wf(),
            final(self)@.same_frame(old(self)@),
            forall|px: int, py: int|
                old(self)@.in_grid(px, py) ==> #[trigger] final(self)@.cell(px, py) == (if old(
                    self,
                )@.clip.has(px, py) && in_rect(x as int, y as int, width as int, height as int, px, py) {
                    old(self)@.pal(
                        nearest_index(pixels@[(py - y) * width + (px - x)], table@) as u8,
                    )
                } else {
                    old(self)@.cell(px, py)
                }),
    {
        broadcast use vstd::std_specs::hash::group_hash_axioms;

        let mut memo: HashMap<u32, u8> = HashMap::new();
        let mut cells: Vec<u8> = Vec::new();
        let n = pixels.len();
        let mut i: usize = 0;
        while i < n
            invariant
                n == pixels@.len(),
                i <= n,
                cells@.len() == i,
                forall|k: int| 0 <= k < i ==> is_nearest(pixels@[k], table@, #[trigger] cells@[k] as int),
                forall|r: u8, g: u8, b: u8|
                    #[trigger] memo@.contains_key(pack((r, g, b))) ==> is_nearest(
                        (r, g, b),
                        table@,
                        memo@[pack((r, g, b))] as int,
                    ),
            decreases n - i,
        {
            let rgb = pixels[i];
            let key: u32 = rgb.0 as u32 * 65536 + rgb.1 as u32 * 256 + rgb.2 as u32;
            proof {
                assert(key == pack(rgb));
            }
            let c = match memo.get(&key) {
                Some(c) => *c,
                None => {
                    let c = nearest_color(rgb, table);
                    memo.insert(key, c);
                    c
                },
            };
            proof {
                assert(is_nearest((rgb.0, rgb.1, rgb.2), table@, c as int));
            }
            cells.push(c);
            i = i + 1;
        }
        let tmp = Canvas::from_cells(width, height, cells, Vec::new());
        self.canvas.blt(x, y, &tmp, 0, 0, width as i32, height as i32, None);
        proof {
            assert forall|px: int, py: int| old(self)@.in_grid(px, py) implies #[trigger] self@.cell(
                px,
                py,
            ) == (if old(self)@.clip.has(px, py) && in_rect(x as int, y as int, width as int, height as int, px, py) {
                old(self)@.pal(nearest_index(pixels@[(py - y) * width + (px - x)], table@) as u8)
            } else {
                old(self)@.cell(px, py)
            }) by {
                if old(self)@.clip.has(px, py) && in_rect(x as int, y as int, width as int, height as int, px, py) {
                    crate::canvas::lemma_index(width as int, height as int, px - x, py - y);
                    let k = (py - y) * width + (px - x);
                    assert(tmp@.get(px - x, py - y) == cells@[k]);
                    lemma_nearest_index(pixels@[k], table@, cells@[k] as int);
                }
            }
        }
    }
    /// The color at `(x, y)`, 0 off the image.
    pub fn pget(&self, x: i32, y: i32) -> (r: Color)
        requires
            self.wf(),
        ensures
            r == self@.get(x as int, y as int),
    {
        self.canvas.pget(x, y)
    }

    /// Draws one cell through the palette, inside the clip rectangle.
    pub fn pset(&mut self, x: i32, y: i32, col: Color)
        requires
            old(self).wf(),
        ensures
            final(self).wf(),
            final(self)@.painted(old(self)@, Shape::Rect { x, y, w: 1, h: 1 }, old(self)@.pal(col)),
    {
        self.canvas.pset(x, y, col);
    }

    /// Clears the whole image, whatever the clip, to the palette value of `col`.
    pub fn cls(&mut self, col: Color)
        requires
            old(self).wf(),
        ensures
            final(self).wf(),
            final(self)@.same_frame(old(self)@),
            forall|px: int, py: int|
                old(self)@.in_grid(px, py) ==> #[trigger] final(self)@.cell(px, py) == old(self)@.pal(col),
    {
        self.canvas.cls(col);
    }

    /// Clips drawing to the given rectangle, cut down to the image.
    pub fn clip(&mut self, x: i32, y: i32, w: i32, h: i32)
        requires
            old(self).wf(),
        ensures
            final(self).wf(),
            final(self)@ == (CanvasView {
                clip: RectArea::new_spec(0, 0, old(self)@.width as u32, old(self)@.height as u32).intersect_spec(
                    RectArea::new_spec(x, y, clamp_extent(w), clamp_extent(h)),
                ),
                ..old(self)@
            }),
    {
        self.canvas.clip(x, y, w, h);
    }

    /// Lets drawing reach the whole image again.
    pub fn clip0(&mut self)
        requires
            old(self).wf(),
        ensures
            final(self).wf(),
            final(self)@ == (CanvasView {
                clip: RectArea::new_spec(0, 0, old(self)@.width as u32, old(self)@.height as u32),
                ..old(self)@
            }),
    {
        self.canvas.clip0();
    }

    /// Draws the segment between two points, both included.
    pub fn line(&mut self, x1: i32, y1: i32, x2: i32, y2: i32, col: Color)
        requires
            old(self).wf(),
        ensures
            final(self).wf(),
            final(self)@.painted(old(self)@, Shape::Line { x1, y1, x2, y2 }, old(self)@.pal(col)),
    {
        self.canvas.line(x1, y1, x2, y2, col);
    }

    /// Fills a rectangle.
    pub fn rect(&mut self, x: i32, y: i32, w: i32, h: i32, col: Color)
        requires
            old(self).wf(),
        ensures
            final(self).wf(),
            final(self)@.painted(old(self)@, Shape::Rect { x, y, w, h }, old(self)@.pal(col)),
    {
        self.canvas.rect(x, y, w, h, col);
    }

    /// Draws the border of a rectangle.
    pub fn rectb(&mut self, x: i32, y: i32, w: i32, h: i32, col: Color)
        requires
            old(self).wf(),
        ensures
            final(self).wf(),
            final(self)@.painted(old(self)@, Shape::RectB { x, y, w, h }, old(self)@.pal(col)),
    {
        self.canvas.rectb(x, y, w, h, col);
    }

    /// Fills a disk.
    pub fn circ(&mut self, x: i32, y: i32, r: i32, col: Color)
        requires
            old(self).wf(),
        ensures
            final(self).wf(),
            final(self)@.painted(old(self)@, Shape::Circ { x, y, r }, old(self)@.pal(col)),
    {
        self.canvas.circ(x, y, r, col);
    }

    /// Draws a ring.
    pub fn circb(&mut self, x: i32, y: i32, r: i32, col: Color)
        requires
            old(self).wf(),
        ensures
            final(self).wf(),
            final(self)@.painted(old(self)@, Shape::CircB { x, y, r }, old(self)@.pal(col)),
    {
        self.canvas.circb(x, y, r, col);
    }

    /// Fills a triangle.
    pub fn tri(&mut self, x1: i32, y1: i32, x2: i32, y2: i32, x3: i32, y3: i32, col: Color)
        requires
            old(self).wf(),
        ensures
            final(self).wf(),
            final(self)@.painted(old(self)@, Shape::Tri { x1, y1, x2, y2, x3, y3 }, old(self)@.pal(col)),
    {
        self.canvas.tri(x1, y1, x2, y2, x3, y3, col);
    }

    /// Draws the edges of a triangle.
    pub fn trib(&mut self, x1: i32, y1: i32, x2: i32, y2: i32, x3: i32, y3: i32, col: Color)
        requires
            old(self).wf(),
        ensures
            final(self).wf(),
            final(self)@.painted(old(self)@, Shape::TriB { x1, y1, x2, y2, x3, y3 }, old(self)@.pal(col)),
    {
        self.canvas.trib(x1, y1, x2, y2, x3, y3, col);
    }

    /// Flood-fills the region 4-connected to `(x, y)`; see `Canvas::fill`.
    pub fn fill(&mut self, x: i32, y: i32, col: Color)
        requires
            old(self).wf(),
        ensures
            final(self).wf(),
            if old(self)@.in_grid(x as int, y as int) && old(self)@.cell(x as int, y as int) != old(
                self,
            )@.pal(col) {
                final(self)@.filled(old(self)@, x as int, y as int, old(self)@.pal(col))
            } else {
                final(self)@ == old(self)@
            },
    {
        self.canvas.fill(x, y, col);
    }

    /// Copies a block of `src` here; see `Canvas::blt`. `col_key` marks the
    /// transparent color.
    pub fn blt(&mut self, x: i32, y: i32, src: &Image, u: i32, v: i32, w: i32, h: i32, col_key: Option<Color>)
        requires
            old(self).wf(),
            src.wf(),
        ensures
            final(self).wf(),
            final(self)@.blitted(old(self)@, src@, x as int, y as int, u as int, v as int, w as int, h as int, col_key),
    {
        self.canvas.blt(x, y, &src.canvas, u, v, w, h, col_key);
    }

    /// Copies a block of this image onto itself, reading it as it stood.
    pub fn blt_self(&mut self, x: i32, y: i32, u: i32, v: i32, w: i32, h: i32, col_key: Option<Color>)
        requires
            old(self).wf(),
        ensures
            final(self).wf(),
            final(self)@.blitted(old(self)@, old(self)@, x as int, y as int, u as int, v as int, w as int, h as int, col_key),
    {
        self.canvas.blt_self(x, y, u, v, w, h, col_key);
    }
}

} // verus!
