//! The battle map's grid and positions on it.
use vstd::prelude::*;

verus! {

/// A grid of `width` by `height` tiles.
pub struct BattleMap {
    width: i16,
    height: i16,
}

/// A tile position; the upper left tile is (0, 0).
#[derive(PartialEq, Eq, Structural, Clone, Copy, Debug)]
pub struct Pos {
    pub x: i16,
    pub y: i16,
}

impl BattleMap {
    pub closed spec fn spec_width(&self) -> int {
        self.width as int
    }

    pub closed spec fn spec_height(&self) -> int {
        self.height as int
    }

    /// A map of the given size in tiles.
    pub fn new(width: i16, height: i16) -> (r: BattleMap)
        requires
            width > 0,
            height > 0,
        ensures
            r.spec_width() == width,
            r.spec_height() == height,
    {
        BattleMap { width, height }
    }

    pub fn width(&self) -> (r: i16)
        ensures
            r == self.spec_width(),
    {
        self.width
    }

    pub fn height(&self) -> (r: i16)
        ensures
            r == self.spec_height(),
    {
        self.height
    }
}

} // verus!
