//! Addresses of the two units of work: sectors and quadtree nodes.

use vstd::prelude::*;

use crate::FACE_COUNT;
use crate::SECTORS_PER_SIDE;

verus! {

/// Address of one cell of the fixed 65x65 per-face sector grid.  A sector's
/// address is independent of the quadtree level; only the resolution of its
/// raster data varies with the level requested.
#[derive(Clone, Copy, Debug, PartialEq, Eq, Structural, Hash)]
pub struct Sector {
    pub face: u8,
    pub x: u32,
    pub y: u32,
}

impl Sector {
    /// A sector address lies on one of the six faces, within the grid.
    pub open spec fn wf(self) -> bool {
        self.face < FACE_COUNT && self.x < SECTORS_PER_SIDE && self.y < SECTORS_PER_SIDE
    }
}

/// Address of one quadtree tile: a face, a level, and a grid position within
/// the face at that level.
#[derive(Clone, Copy, Debug, PartialEq, Eq, Structural, Hash)]
pub struct TileNode {
    pub face: u8,
    pub level: u8,
    pub x: u32,
    pub y: u32,
}

impl TileNode {
    /// Level `l` splits a face into `2^l` tiles along each axis.
    pub open spec fn wf(self) -> bool {
        self.face < FACE_COUNT && self.x < vstd::arithmetic::power2::pow2(self.level as nat)
            && self.y < vstd::arithmetic::power2::pow2(self.level as nat)
    }
}

} // verus!
