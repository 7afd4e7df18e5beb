use std::rc::Rc;

use pyxel_engine::canvas::Canvas;
use pyxel_engine::cell::Tile;
use pyxel_engine::image::{is_valid_text, nearest_color, Image};
use pyxel_engine::rectarea::RectArea;
use pyxel_engine::tilemap::Tilemap;

fn cells(img: &Image) -> Vec<Vec<u8>> {
    let mut rows = Vec::new();
    for y in 0..img.height() as i32 {
        let mut row = Vec::new();
        for x in 0..img.width() as i32 {
            row.push(img.pget(x, y));
        }
        rows.push(row);
    }
    rows
}

#[test]
fn intersect_is_symmetric_and_idempotent() {
    let a = RectArea::new(0, 0, 10, 5);
    let b = RectArea::new(4, -2, 3, 20);
    assert_eq!(a.intersect(&b), b.intersect(&a));
    assert_eq!(a.intersect(&b), RectArea::new(4, 0, 3, 5));
    assert_eq!(a.intersect(&a), a);
    let far = RectArea::new(100, 100, 2, 2);
    assert!(a.intersect(&far).is_empty());
    assert!(a.contains(0, 0));
    assert!(!a.contains(10, 0));
    assert!(!a.contains(0, 5));
}

#[test]
fn pset_then_pget_reads_palette_value() {
    let mut img = Image::new(4, 4);
    img.pal(3, 9);
    img.pset(2, 1, 3);
    assert_eq!(img.pget(2, 1), 9);
    img.pal_();
    img.pset(2, 1, 3);
    assert_eq!(img.pget(2, 1), 3);
    assert_eq!(img.pget(-1, 0), 0);
    assert_eq!(img.pget(4, 0), 0);
}

#[test]
fn drawing_outside_clip_changes_nothing() {
    let mut img = Image::new(8, 8);
    img.cls(2);
    img.clip(0, 0, 4, 4);
    let before = cells(&img);
    img.pset(5, 5, 7);
    img.rect(4, 4, 4, 4, 7);
    img.rectb(5, 0, 3, 8, 7);
    img.line(6, 0, 6, 7, 7);
    img.circ(6, 6, 1, 7);
    img.circb(6, 6, 1, 7);
    img.tri(5, 5, 7, 5, 6, 7, 7);
    img.trib(5, 5, 7, 5, 6, 7, 7);
    assert_eq!(cells(&img), before);
    img.clip0();
    img.pset(5, 5, 7);
    assert_eq!(img.pget(5, 5), 7);
}

#[test]
fn image_set_reads_hex_rows() {
    let mut img = Image::new(3, 3);
    img.set(0, 0, &["012", "345", "678"]);
    assert_eq!(img.pget(1, 1), 4);
    assert_eq!(img.pget(2, 2), 8);
    img.set(1, 1, &["a F", "b0"]);
    assert_eq!(img.pget(1, 1), 10);
    assert_eq!(img.pget(2, 1), 15);
    assert_eq!(img.pget(1, 2), 11);
    assert_eq!(img.pget(2, 2), 0);
    assert_eq!(img.pget(0, 0), 0);
}

#[test]
fn rectb_sets_border_only() {
    let mut img = Image::new(4, 4);
    img.rectb(0, 0, 4, 4, 1);
    let mut border = 0;
    for y in 0..4 {
        for x in 0..4 {
            let edge = x == 0 || x == 3 || y == 0 || y == 3;
            assert_eq!(img.pget(x, y), if edge { 1 } else { 0 });
            if edge {
                border += 1;
            }
        }
    }
    assert_eq!(border, 12);
}

#[test]
fn rect_with_no_extent_draws_nothing() {
    let mut img = Image::new(4, 4);
    img.rect(1, 1, 0, 3, 5);
    img.rect(1, 1, 3, -1, 5);
    assert_eq!(cells(&img), vec![vec![0; 4]; 4]);
    img.rect(1, 1, 2, 2, 5);
    assert_eq!(img.pget(1, 1), 5);
    assert_eq!(img.pget(2, 2), 5);
    assert_eq!(img.pget(3, 3), 0);
}

#[test]
fn blt_negative_width_mirrors_columns() {
    let mut src = Image::new(2, 2);
    src.set(0, 0, &["12", "34"]);
    let mut dst = Image::new(2, 2);
    dst.blt(0, 0, &src, 0, 0, -2, 2, None);
    assert_eq!(cells(&dst), vec![vec![2, 1], vec![4, 3]]);
    dst.blt(0, 0, &src, 0, 0, 2, -2, None);
    assert_eq!(cells(&dst), vec![vec![3, 4], vec![1, 2]]);
}

#[test]
fn blt_skips_transparent_key() {
    let mut src = Image::new(2, 2);
    src.set(0, 0, &["10", "01"]);
    let mut dst = Image::new(2, 2);
    dst.cls(7);
    dst.blt(0, 0, &src, 0, 0, 2, 2, Some(0));
    assert_eq!(cells(&dst), vec![vec![1, 7], vec![7, 1]]);
    dst.blt(0, 0, &src, 0, 0, 2, 2, None);
    assert_eq!(cells(&dst), vec![vec![1, 0], vec![0, 1]]);
}

#[test]
fn blt_applies_destination_palette() {
    let mut src = Image::new(1, 1);
    src.pset(0, 0, 2);
    let mut dst = Image::new(1, 1);
    dst.pal(2, 5);
    dst.blt(0, 0, &src, 0, 0, 1, 1, None);
    assert_eq!(dst.pget(0, 0), 5);
}

#[test]
fn blt_self_reads_source_before_writing() {
    let mut img = Image::new(4, 1);
    img.set(0, 0, &["1234"]);
    img.blt_self(1, 0, 0, 0, 3, 1, None);
    assert_eq!(cells(&img), vec![vec![1, 1, 2, 3]]);
}

#[test]
fn load_picks_nearest_palette_entry() {
    let mut img = Image::new(1, 1);
    img.load(0, 0, 1, 1, &[(255, 0, 0)], &[0x000000, 0xFF0000]);
    assert_eq!(img.pget(0, 0), 1);
}

#[test]
fn load_memoizes_and_breaks_ties_low() {
    let mut img = Image::new(3, 1);
    let px = [(10, 10, 10), (250, 250, 250), (10, 10, 10)];
    img.load(0, 0, 3, 1, &px, &[0x000000, 0xFFFFFF, 0x000000]);
    assert_eq!(cells(&img), vec![vec![0, 1, 0]]);
    assert_eq!(nearest_color((0, 0, 0), &[]), 0);
    assert_eq!(nearest_color((128, 128, 128), &[0x808080, 0x808080]), 0);
}

#[test]
fn line_covers_both_ends() {
    let mut img = Image::new(5, 5);
    img.line(0, 0, 4, 2, 1);
    assert_eq!(img.pget(0, 0), 1);
    assert_eq!(img.pget(4, 2), 1);
    assert_eq!(img.pget(1, 1), 1);
    assert_eq!(img.pget(2, 1), 1);
    assert_eq!(img.pget(3, 2), 1);
    let mut count = 0;
    for row in cells(&img) {
        count += row.iter().filter(|c| **c == 1).count();
    }
    assert_eq!(count, 5);
    let mut one = Image::new(3, 3);
    one.line(1, 1, 1, 1, 4);
    assert_eq!(one.pget(1, 1), 4);
}

#[test]
fn circles_and_triangles() {
    let mut img = Image::new(5, 5);
    img.circ(2, 2, 1, 1);
    assert_eq!(
        cells(&img),
        vec![
            vec![0, 0, 0, 0, 0],
            vec![0, 0, 1, 0, 0],
            vec![0, 1, 1, 1, 0],
            vec![0, 0, 1, 0, 0],
            vec![0, 0, 0, 0, 0],
        ]
    );
    let mut ring = Image::new(5, 5);
    ring.circb(2, 2, 2, 1);
    assert_eq!(ring.pget(2, 2), 0);
    assert_eq!(ring.pget(2, 0), 1);
    assert_eq!(ring.pget(0, 2), 1);
    let mut dot = Image::new(3, 3);
    dot.circ(1, 1, 0, 6);
    assert_eq!(cells(&dot), vec![vec![0, 0, 0], vec![0, 6, 0], vec![0, 0, 0]]);
    let mut tri = Image::new(3, 3);
    tri.tri(0, 0, 2, 0, 0, 2, 1);
    assert_eq!(cells(&tri), vec![vec![1, 1, 1], vec![1, 1, 0], vec![1, 0, 0]]);
    let mut trib = Image::new(4, 4);
    trib.trib(0, 0, 3, 0, 0, 3, 1);
    assert_eq!(trib.pget(1, 1), 0);
    assert_eq!(trib.pget(3, 0), 1);
    assert_eq!(trib.pget(1, 2), 1);
}

#[test]
fn cls_ignores_clip() {
    let mut img = Image::new(3, 3);
    img.clip(0, 0, 1, 1);
    img.cls(4);
    assert_eq!(cells(&img), vec![vec![4; 3]; 3]);
}

#[test]
fn tilemap_draws_tiles() {
    let image = Rc::new(Image::new(16, 16));
    let mut tm = Tilemap::new(4, 3, image.clone());
    assert_eq!(tm.width(), 4);
    assert_eq!(tm.height(), 3);
    assert!(Rc::ptr_eq(tm.image(), &image));
    let t = Tile::new(1, 2);
    tm.rect(0, 0, 2, 2, t);
    assert_eq!(tm.pget(1, 1), t);
    assert_eq!(tm.pget(2, 1), Tile::new(0, 0));
    let mut other = Tilemap::new(2, 1, image.clone());
    other.pset(0, 0, Tile::new(5, 5));
    other.pset(1, 0, Tile::new(6, 6));
    tm.blt(0, 2, &other, 0, 0, 2, 1, Some(Tile::new(6, 6)));
    assert_eq!(tm.pget(0, 2), Tile::new(5, 5));
    assert_eq!(tm.pget(1, 2), Tile::new(0, 0));
    let replacement = Rc::new(Image::new(8, 8));
    tm.set_image(replacement.clone());
    assert!(Rc::ptr_eq(tm.image(), &replacement));
    assert_eq!(tm.pget(1, 1), t);
}

#[test]
fn generic_canvas_basics() {
    let mut c: Canvas<u8> = Canvas::new(2, 2, vec![]);
    c.pset(1, 0, 9);
    assert_eq!(c.pget(1, 0), 9);
    assert_eq!(c.width(), 2);
    c.clip(1, 1, 5, 5);
    assert_eq!(c.clip_rect(), RectArea::new(1, 1, 1, 1));
    c.pset(0, 0, 3);
    assert_eq!(c.pget(0, 0), 0);
}

#[test]
fn fill_replaces_connected_region_only() {
    let mut img = Image::new(5, 5);
    img.set(0, 0, &["00100", "00100", "11100", "00000", "00000"]);
    img.fill(0, 0, 7);
    assert_eq!(
        cells(&img),
        vec![
            vec![7, 7, 1, 0, 0],
            vec![7, 7, 1, 0, 0],
            vec![1, 1, 1, 0, 0],
            vec![0, 0, 0, 0, 0],
            vec![0, 0, 0, 0, 0],
        ]
    );
    img.fill(4, 4, 3);
    assert_eq!(img.pget(4, 0), 3);
    assert_eq!(img.pget(0, 4), 3);
    assert_eq!(img.pget(0, 0), 7);
    assert_eq!(img.pget(2, 2), 1);
}

#[test]
fn fill_follows_region_through_clipped_cells() {
    let mut img = Image::new(4, 1);
    img.clip(2, 0, 2, 1);
    img.fill(0, 0, 5);
    assert_eq!(cells(&img), vec![vec![0, 0, 5, 5]]);
}

#[test]
fn fill_with_same_value_or_off_surface_is_a_no_op() {
    let mut img = Image::new(2, 2);
    img.pal(4, 0);
    img.fill(0, 0, 4);
    assert_eq!(cells(&img), vec![vec![0, 0], vec![0, 0]]);
    img.pal_();
    img.fill(5, 5, 4);
    assert_eq!(cells(&img), vec![vec![0, 0], vec![0, 0]]);
}

#[test]
fn tilemap_fill_and_blt_self() {
    let image = Rc::new(Image::new(8, 8));
    let mut tm = Tilemap::new(3, 1, image);
    tm.fill(0, 0, Tile::new(1, 1));
    assert_eq!(tm.pget(2, 0), Tile::new(1, 1));
    tm.pset(0, 0, Tile::new(2, 0));
    tm.blt_self(1, 0, 0, 0, 2, 1, None);
    assert_eq!(tm.pget(0, 0), Tile::new(2, 0));
    assert_eq!(tm.pget(1, 0), Tile::new(2, 0));
    assert_eq!(tm.pget(2, 0), Tile::new(1, 1));
}

#[test]
fn text_validity() {
    assert!(is_valid_text(&["012", "3 45", "678x"]));
    assert!(!is_valid_text(&["012", "34"]));
    assert!(!is_valid_text(&["0g2"]));
    assert!(is_valid_text(&[]));
}
