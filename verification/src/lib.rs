//! Reprojection and tile-pyramid construction pipeline for a cube-sphere
//! terrain dataset.
//!
//! A planet is addressed as six cube faces.  Each face is partitioned into a
//! fixed 65x65 grid of *sectors*; a sector holds a pyramid of progressively
//! halved rasters, one file per level.  Quadtree *tiles* of fixed resolution
//! are composited out of the sector rasters.  This crate holds the verified
//! logic of that pipeline: planning which sectors and tiles are missing,
//! sample-grid addressing, pyramid downsampling, the bounded sector cache
//! with deduplicated loading, tile compositing, memory budgeting and the
//! deterministic output naming that makes interrupted runs resumable.
//! Reading the source rasters, the floating-point coordinate conversions and
//! all file I/O stay outside, handing this crate plain values.

use vstd::prelude::*;

pub mod budget;
pub mod cache;
pub mod codec;
pub mod extract;
pub mod grid;
pub mod names;
pub mod progress;
pub mod pyramid;
pub mod reproject;
pub mod sector;

verus! {

/// Linear count of sectors along one side of a cube face.
pub const SECTORS_PER_SIDE: u32 = 65;

/// Number of cube faces.
pub const FACE_COUNT: u8 = 6;

/// Output tile resolution in pixels, border included.
pub const TILE_RESOLUTION: usize = 516;

/// Border width baked into each tile, in pixels.
pub const TILE_BORDER: usize = 2;

/// Tile resolution without the border on either side.
pub const TILE_INNER_RESOLUTION: usize = 512;

/// Quadtree level whose cells are closest to one kilometre across; the
/// sector pyramids are not built coarser than this level.
pub const LEVEL_CELL_1KM: u8 = 4;

/// Errors of the pipeline.  I/O errors stay with the unverified callers that
/// perform the I/O; these cover the computation itself.
#[derive(Clone, Copy, Debug, PartialEq, Eq, Structural)]
pub enum PipelineError {
    /// The squared sector resolution does not fit the machine word.
    ResolutionOverflow,
    /// The raster encoder reported an error; within the resolutions the
    /// pipeline admits the encoder cannot fail, so verified callers never
    /// produce this.
    EncodeFailed,
    /// A sector file could not be decoded to the expected raster.
    DecodeFailed,
}

} // verus!
