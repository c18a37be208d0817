//! Stone colours and the plain stone record.
use vstd::prelude::*;

use crate::lattice::Position;

verus! {

/// The colour of a stone; also used to name the player to move.
#[derive(Debug, Clone, Copy, PartialEq, Eq, Hash, Structural)]
pub enum StoneColor {
    Black,
    White,
}

impl StoneColor {
    /// The other colour.
    pub open spec fn other(self) -> StoneColor {
        match self {
            StoneColor::Black => StoneColor::White,
            StoneColor::White => StoneColor::Black,
        }
    }

    pub fn opposite(&self) -> (r: StoneColor)
        ensures
            r == self.other(),
            r != *self,
    {
        match self {
            StoneColor::Black => StoneColor::White,
            StoneColor::White => StoneColor::Black,
        }
    }
}

/// A stone of a given colour at a lattice point.
#[derive(Debug, Clone, Copy)]
pub struct Stone {
    pub color: StoneColor,
    pub position: Position,
}

impl Stone {
    pub fn new(color: StoneColor, x: u8, y: u8, z: u8) -> (r: Stone)
        ensures
            r.color == color,
            r.position == (x, y, z),
    {
        Stone { color, position: (x, y, z) }
    }
}

} // verus!
