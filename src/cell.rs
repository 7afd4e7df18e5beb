use vstd::prelude::*;

verus! {

/// A palette color index.
pub type Color = u8;

/// A tile reference: the tile column and row in the source image.
#[derive(Clone, Copy, Debug, PartialEq, Eq, Structural)]
pub struct Tile {
    pub x: u8,
    pub y: u8,
}

impl Tile {
    pub fn new(x: u8, y: u8) -> (r: Tile)
        ensures
            r == (Tile { x, y }),
    {
        Tile { x, y }
    }
}

/// The value held by one cell of a canvas.
pub trait CellValue: Copy + Sized {
    /// The value of a fresh cell, and what reads outside the surface give.
    spec fn zero_spec() -> Self;

    /// The value that is written when `self` is drawn through `palette`.
    spec fn subst_spec(self, palette: Seq<Self>) -> Self;

    fn zero() -> (r: Self)
        ensures
            r == Self::zero_spec(),
    ;

    fn same(&self, other: &Self) -> (r: bool)
        ensures
            r == (*self == *other),
    ;

    fn subst(&self, palette: &Vec<Self>) -> (r: Self)
        ensures
            r == self.subst_spec(palette@),
    ;
}

impl CellValue for u8 {
    open spec fn zero_spec() -> u8 {
        0
    }

    /// A color is looked up in the table; one past its end stands for itself.
    open spec fn subst_spec(self, palette: Seq<u8>) -> u8 {
        if (self as int) < palette.len() {
            palette[self as int]
        } else {
            self
        }
    }

    fn zero() -> (r: u8) {
        0
    }

    fn same(&self, other: &u8) -> (r: bool) {
        *self == *other
    }

    fn subst(&self, palette: &Vec<u8>) -> (r: u8) {
        if (*self as usize) < palette.len() {
            palette[*self as usize]
        } else {
            *self
        }
    }
}

impl CellValue for Tile {
    open spec fn zero_spec() -> Tile {
        Tile { x: 0, y: 0 }
    }

    /// Tiles are written as they are.
    open spec fn subst_spec(self, palette: Seq<Tile>) -> Tile {
        self
    }

    fn zero() -> (r: Tile) {
        Tile { x: 0, y: 0 }
    }

    fn same(&self, other: &Tile) -> (r: bool) {
        self.x == other.x && self.y == other.y
    }

    fn subst(&self, palette: &Vec<Tile>) -> (r: Tile) {
        *self
    }
}

} // verus!
