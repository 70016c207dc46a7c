//! Resolution arithmetic of the sector grid.
//!
//! A sector at quadtree level `l` covers `1/64` of a face side, so its raster
//! is `8 * 2^l` cells across; grid-registered datasets add the one-pixel
//! border that adjacent sectors share.  The base resolution (the resolution
//! at the dataset's maximum level) must have a representable square, since
//! whole sector rasters are held in memory; overflow of that square is a
//! fatal error, guarded explicitly.

use vstd::arithmetic::power2::lemma2_to64;
use vstd::arithmetic::power2::lemma_pow2_adds;
use vstd::arithmetic::power2::lemma_pow2_strictly_increases;
use vstd::arithmetic::power2::lemma_pow2_unfold;
use vstd::arithmetic::power2::pow2;
use vstd::prelude::*;

use crate::LEVEL_CELL_1KM;
use crate::PipelineError;

verus! {

/// `2^e`, for exponents whose power fits the word.
pub fn pow2_u32(e: u8) -> (r: u32)
    requires
        pow2(e as nat) <= u32::MAX,
    ensures
        r == pow2(e as nat),
{
    let mut i: u8 = 0;
    let mut r: u32 = 1;
    proof {
        assert(pow2(0nat) == 1) by {
            lemma2_to64();
        }
    }
    while i < e
        invariant
            i <= e,
            r == pow2(i as nat),
            pow2(e as nat) <= u32::MAX,
        decreases e - i,
    {
        proof {
            lemma_pow2_unfold((i + 1) as nat);
            if i + 1 < e {
                lemma_pow2_strictly_increases((i + 1) as nat, e as nat);
            }
        }
        r = r * 2;
        i = i + 1;
    }
    r
}

/// Coarsest level of a sector pyramid: the one-kilometre threshold level,
/// clamped to the dataset's maximum level.
pub open spec fn pyramid_min_level_spec(max_level: u8) -> u8 {
    if max_level < LEVEL_CELL_1KM {
        max_level
    } else {
        LEVEL_CELL_1KM
    }
}

/// Coarsest level of a sector pyramid for a dataset of the given maximum
/// level.
pub fn pyramid_min_level(max_level: u8) -> (r: u8)
    ensures
        r == pyramid_min_level_spec(max_level),
{
    if max_level < LEVEL_CELL_1KM {
        max_level
    } else {
        LEVEL_CELL_1KM
    }
}

/// Width in cells of the square a sector covers at level `level`, border
/// excluded: `8 * 2^level`, one 64th of the face's `512 * 2^level` cells.
pub open spec fn sector_inner_resolution_spec(level: nat) -> int {
    8 * pow2(level) as int
}

/// Resolution of a sector raster at level `level`: grid-registered datasets
/// carry the shared one-pixel border.
pub open spec fn sector_resolution_spec(level: nat, grid_registration: bool) -> int {
    sector_inner_resolution_spec(level) + if grid_registration {
        1int
    } else {
        0int
    }
}

/// Width in cells of the square a sector covers at level `level`.
pub fn sector_inner_resolution(level: u8) -> (r: u32)
    requires
        sector_inner_resolution_spec(level as nat) <= u32::MAX,
    ensures
        r == sector_inner_resolution_spec(level as nat),
{
    proof {
        lemma_pow2_adds(3nat, level as nat);
        lemma2_to64();
    }
    let p = pow2_u32(level);
    8 * p
}

/// Resolution of a sector raster at level `level`.
pub fn sector_resolution(level: u8, grid_registration: bool) -> (r: u32)
    requires
        sector_resolution_spec(level as nat, grid_registration) <= u32::MAX,
    ensures
        r == sector_resolution_spec(level as nat, grid_registration),
{
    proof {
        if grid_registration {
            assert(sector_inner_resolution_spec(level as nat) <= u32::MAX);
        }
    }
    let inner = sector_inner_resolution(level);
    if grid_registration {
        inner + 1
    } else {
        inner
    }
}

/// Resolution of a sector raster at the dataset's maximum level.
pub open spec fn base_sector_resolution_spec(max_level: u8, grid_registration: bool) -> int {
    sector_resolution_spec(max_level as nat, grid_registration)
}

/// Whether the base sector resolution and its square are representable; the
/// pipeline refuses a dataset beyond this as a fatal overflow.
pub open spec fn base_resolution_representable(max_level: u8, grid_registration: bool) -> bool {
    let r = base_sector_resolution_spec(max_level, grid_registration);
    r <= u32::MAX && r * r <= u32::MAX
}

/// A representable base resolution comes from a level of at most 12, so it
/// is at most `0x8001` cells across: one level more and its square leaves
/// the 32-bit word.
pub proof fn lemma_representable_resolution_bound(max_level: u8, grid_registration: bool)
    requires
        base_resolution_representable(max_level, grid_registration),
    ensures
        max_level <= 12,
        base_sector_resolution_spec(max_level, grid_registration) <= 0x8001,
{
    lemma2_to64();
    if max_level > 12 {
        if max_level > 13 {
            lemma_pow2_strictly_increases(13nat, max_level as nat);
        }
        assert(pow2(max_level as nat) >= 0x2000);
        let r = base_sector_resolution_spec(max_level, grid_registration);
        assert(r >= 8 * 0x2000);
        assert(r * r > u32::MAX) by (nonlinear_arith)
            requires
                r >= 0x10000,
        ;
    }
    if (max_level as nat) < 12nat {
        lemma_pow2_strictly_increases(max_level as nat, 12nat);
    }
    assert(pow2(max_level as nat) <= 0x1000);
}

/// Resolution of a sector raster at the dataset's maximum level, or the
/// fatal overflow error exactly when that resolution's square does not fit
/// in a 32-bit word.
pub fn base_sector_resolution(max_level: u8, grid_registration: bool) -> (r: Result<
    u32,
    PipelineError,
>)
    ensures
        r matches Ok(v) ==> v == base_sector_resolution_spec(max_level, grid_registration),
        r is Ok <==> base_resolution_representable(max_level, grid_registration),
        r matches Err(e) ==> e is ResolutionOverflow,
{
    if max_level >= 29 {
        proof {
            lemma2_to64();
            if max_level > 29 {
                lemma_pow2_strictly_increases(29nat, max_level as nat);
            }
            assert(sector_inner_resolution_spec(max_level as nat) > u32::MAX);
        }
        return Err(PipelineError::ResolutionOverflow);
    }
    proof {
        lemma2_to64();
        if (max_level as nat) < 29nat {
            lemma_pow2_strictly_increases(max_level as nat, 29nat);
        }
    }
    let res = sector_resolution(max_level, grid_registration);
    match res.checked_mul(res) {
        Some(_) => Ok(res),
        None => Err(PipelineError::ResolutionOverflow),
    }
}

} // verus!
