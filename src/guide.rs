//! The guide cursor: three axis-aligned planes whose crossing names a cell.
use vstd::prelude::*;

verus! {

/// `v` held inside `lo..=hi`.
pub open spec fn clamp(v: int, lo: int, hi: int) -> int {
    if v < lo {
        lo
    } else if v > hi {
        hi
    } else {
        v
    }
}

/// Positions of the three guide planes along their axes, on a board of a
/// given side.
pub struct GuideSystem {
    /// Position along x (of the plane parallel to y and z).
    pub plane_x_pos: i32,
    /// Position along y (of the plane parallel to x and z).
    pub plane_y_pos: i32,
    /// Position along z (of the plane parallel to x and y).
    pub plane_z_pos: i32,
    board_size: i32,
}

/// Abstract state of the guides: the three plane positions and the board side.
pub struct GuideView {
    pub x: int,
    pub y: int,
    pub z: int,
    pub side: int,
}

impl View for GuideSystem {
    type V = GuideView;

    closed spec fn view(&self) -> GuideView {
        GuideView {
            x: self.plane_x_pos as int,
            y: self.plane_y_pos as int,
            z: self.plane_z_pos as int,
            side: self.board_size as int,
        }
    }
}

impl GuideSystem {
    /// Guides for a board of side `board_size`, all three planes in the middle.
    pub fn new(board_size: usize) -> (r: GuideSystem)
        requires
            board_size <= i32::MAX,
        ensures
            r@.side == board_size,
            r@.x == board_size as int / 2,
            r@.y == board_size as int / 2,
            r@.z == board_size as int / 2,
    {
        let size = board_size as i32;
        GuideSystem {
            plane_x_pos: size / 2,
            plane_y_pos: size / 2,
            plane_z_pos: size / 2,
            board_size: size,
        }
    }

    /// `pos + delta` held on the board.
    fn moved(&self, pos: i32, delta: i32) -> (r: i32)
        requires
            self@.side >= 1,
        ensures
            r == clamp(pos + delta, 0, self@.side - 1),
    {
        let v = pos as i64 + delta as i64;
        let hi = (self.board_size - 1) as i64;
        if v < 0 {
            0
        } else if v > hi {
            hi as i32
        } else {
            v as i32
        }
    }

    /// Moves the x plane by `delta`, staying on the board.
    pub fn move_x(&mut self, delta: i32)
        requires
            old(self)@.side >= 1,
        ensures
            final(self)@.side == old(self)@.side,
            final(self)@.x == clamp(old(self)@.x + delta, 0, old(self)@.side - 1),
            final(self)@.y == old(self)@.y,
            final(self)@.z == old(self)@.z,
    {
        self.plane_x_pos = self.moved(self.plane_x_pos, delta);
    }

    /// Moves the y plane by `delta`, staying on the board.
    pub fn move_y(&mut self, delta: i32)
        requires
            old(self)@.side >= 1,
        ensures
            final(self)@.side == old(self)@.side,
            final(self)@.y == clamp(old(self)@.y + delta, 0, old(self)@.side - 1),
            final(self)@.x == old(self)@.x,
            final(self)@.z == old(self)@.z,
    {
        self.plane_y_pos = self.moved(self.plane_y_pos, delta);
    }

    /// Moves the z plane by `delta`, staying on the board.
    pub fn move_z(&mut self, delta: i32)
        requires
            old(self)@.side >= 1,
        ensures
            final(self)@.side == old(self)@.side,
            final(self)@.z == clamp(old(self)@.z + delta, 0, old(self)@.side - 1),
            final(self)@.x == old(self)@.x,
            final(self)@.y == old(self)@.y,
    {
        self.plane_z_pos = self.moved(self.plane_z_pos, delta);
    }

    /// The cell where the three planes cross.
    pub fn get_intersection_position(&self) -> (r: (u8, u8, u8))
        ensures
            r == (self@.x as u8, self@.y as u8, self@.z as u8),
            0 <= self@.x < 256 ==> r.0 == self@.x,
            0 <= self@.y < 256 ==> r.1 == self@.y,
            0 <= self@.z < 256 ==> r.2 == self@.z,
    {
        (self.plane_x_pos as u8, self.plane_y_pos as u8, self.plane_z_pos as u8)
    }
}

} // verus!
