//! The reprojection stage.
//!
//! For every sector whose pyramid is not yet on disk, the stage samples the
//! source raster at each output grid cell, builds the mipmap pyramid, and
//! encodes one file per level.  This module holds the verified computation:
//! which sectors are missing (the sole resume mechanism), where each output
//! pixel sits in the face-wide sample grid, and what bytes land in which
//! file.  Sampling itself — cube-space conversion, the affine geotransform
//! and the batched raster lookup — is the unverified caller's, which hands
//! the sampled values back as plain integers.
//!
//! Every output is a function of the stage's inputs alone, so two runs over
//! the same inputs write byte-identical files; and a rerun over a directory
//! that already holds every pyramid file plans no work at all
//! (`lemma_rescan_finds_nothing`).

use vstd::arithmetic::div_mod::lemma_fundamental_div_mod_converse;
use vstd::prelude::*;

use crate::codec::encode_sector_level;
use crate::codec::sector_level_bytes_spec;
use crate::grid::pyramid_min_level_spec;
use crate::grid::sector_resolution_spec;
use crate::names::contains_name;
use crate::names::contains_name_spec;
use crate::names::sector_filename;
use crate::names::sector_filename_spec;
use crate::pyramid::build_pyramid;
use crate::pyramid::pyramid_at;
use crate::pyramid::Reducer;
use crate::sector::Sector;
use crate::PipelineError;
use crate::FACE_COUNT;
use crate::SECTORS_PER_SIDE;

verus! {

/// Whether some pyramid level of sector `s` has no file among `existing`:
/// the sector then needs reprojection.
pub open spec fn sector_missing_spec(
    existing: Seq<Vec<u8>>,
    dataset: Seq<u8>,
    max_level: u8,
    s: Sector,
) -> bool {
    exists|level: int|
        pyramid_min_level_spec(max_level) <= level <= max_level && !contains_name_spec(
            existing,
            #[trigger] sector_filename_spec(dataset, s.face as int, level, s.x as int, s.y as int),
        )
}

/// Whether some pyramid level of the sector at `(face, x, y)` has no file
/// among `existing`.
fn sector_is_missing(
    existing: &Vec<Vec<u8>>,
    dataset: &Vec<u8>,
    max_level: u8,
    face: u8,
    x: u32,
    y: u32,
) -> (r: bool)
    requires
        face < FACE_COUNT,
        x < SECTORS_PER_SIDE,
        y < SECTORS_PER_SIDE,
        max_level < 100,
    ensures
        r <==> sector_missing_spec(existing@, dataset@, max_level, Sector { face, x, y }),
{
    let min_level = crate::grid::pyramid_min_level(max_level);
    let mut level: u8 = min_level;
    loop
        invariant
            min_level == pyramid_min_level_spec(max_level),
            min_level <= level <= max_level + 1,
            max_level < 100,
            face < FACE_COUNT,
            x < SECTORS_PER_SIDE,
            y < SECTORS_PER_SIDE,
            forall|l: int|
                min_level <= l < level ==> contains_name_spec(
                    existing@,
                    #[trigger] sector_filename_spec(dataset@, face as int, l, x as int, y as int),
                ),
        ensures
            (level <= max_level) == sector_missing_spec(
                existing@,
                dataset@,
                max_level,
                Sector { face, x, y },
            ),
        decreases max_level + 1 - level,
    {
        if level > max_level {
            proof {
                let s = Sector { face, x, y };
                if sector_missing_spec(existing@, dataset@, max_level, s) {
                    let l = choose|l: int|
                        pyramid_min_level_spec(max_level) <= l <= max_level && !contains_name_spec(
                            existing@,
                            sector_filename_spec(dataset@, s.face as int, l, s.x as int, s.y as int),
                        );
                    assert(contains_name_spec(
                        existing@,
                        sector_filename_spec(dataset@, face as int, l, x as int, y as int),
                    ));
                }
            }
            break ;
        }
        let name = sector_filename(dataset, face, level, x, y);
        if !contains_name(existing, &name) {
            proof {
                let s = Sector { face, x, y };
                assert(pyramid_min_level_spec(max_level) <= level <= max_level
                    && !contains_name_spec(
                    existing@,
                    sector_filename_spec(
                        dataset@,
                        s.face as int,
                        level as int,
                        s.x as int,
                        s.y as int,
                    ),
                ));
            }
            break ;
        }
        level = level + 1;
    }
    level <= max_level
}

/// The rank of a sector in the planning order: face-major, then row, then
/// column.
pub open spec fn sector_rank(s: Sector) -> int {
    s.face * (SECTORS_PER_SIDE * SECTORS_PER_SIDE) + s.y * SECTORS_PER_SIDE + s.x
}

/// Plans the reprojection stage: the sectors, over all six faces, with at
/// least one pyramid level file absent from `existing`.  Exactly the missing
/// sectors are returned, each once, in face-major order; a directory that
/// already holds every file yields an empty plan, which makes the stage
/// idempotent.
pub fn missing_sectors(existing: &Vec<Vec<u8>>, dataset: &Vec<u8>, max_level: u8) -> (r: Vec<
    Sector,
>)
    requires
        max_level < 100,
    ensures
        forall|i: int|
            0 <= i < r@.len() ==> (#[trigger] r@[i]).wf() && sector_missing_spec(
                existing@,
                dataset@,
                max_level,
                r@[i],
            ),
        forall|s: Sector|
            s.wf() && sector_missing_spec(existing@, dataset@, max_level, s) ==> r@.contains(s),
        forall|i: int, j: int| 0 <= i < j < r@.len() ==> sector_rank(r@[i]) < sector_rank(r@[j]),
        forall|i: int, j: int| 0 <= i < j < r@.len() ==> r@[i] != r@[j],
{
    let total: u32 = (FACE_COUNT as u32) * SECTORS_PER_SIDE * SECTORS_PER_SIDE;
    let per_face: u32 = SECTORS_PER_SIDE * SECTORS_PER_SIDE;
    let mut out: Vec<Sector> = Vec::new();
    let mut idx: u32 = 0;
    while idx < total
        invariant
            total == FACE_COUNT * (SECTORS_PER_SIDE * SECTORS_PER_SIDE),
            per_face == SECTORS_PER_SIDE * SECTORS_PER_SIDE,
            idx <= total,
            max_level < 100,
            forall|i: int|
                0 <= i < out@.len() ==> (#[trigger] out@[i]).wf() && sector_missing_spec(
                    existing@,
                    dataset@,
                    max_level,
                    out@[i],
                ),
            forall|i: int| 0 <= i < out@.len() ==> sector_rank(#[trigger] out@[i]) < idx,
            forall|i: int, j: int|
                0 <= i < j < out@.len() ==> sector_rank(out@[i]) < sector_rank(out@[j]),
            forall|s: Sector|
                s.wf() && sector_rank(s) < idx && sector_missing_spec(
                    existing@,
                    dataset@,
                    max_level,
                    s,
                ) ==> out@.contains(s),
            forall|i: int, j: int| 0 <= i < j < out@.len() ==> out@[i] != out@[j],
        decreases total - idx,
    {
        proof {
            vstd::arithmetic::div_mod::lemma_mod_bound(idx as int, per_face as int);
            vstd::arithmetic::div_mod::lemma_multiply_divide_lt(
                idx as int,
                per_face as int,
                FACE_COUNT as int,
            );
            vstd::arithmetic::div_mod::lemma_fundamental_div_mod(idx as int, per_face as int);
        }
        let face: u8 = (idx / per_face) as u8;
        let rem: u32 = idx % per_face;
        proof {
            vstd::arithmetic::div_mod::lemma_mod_bound(rem as int, SECTORS_PER_SIDE as int);
            vstd::arithmetic::div_mod::lemma_multiply_divide_lt(
                rem as int,
                SECTORS_PER_SIDE as int,
                SECTORS_PER_SIDE as int,
            );
            vstd::arithmetic::div_mod::lemma_fundamental_div_mod(
                rem as int,
                SECTORS_PER_SIDE as int,
            );
        }
        let y: u32 = rem / SECTORS_PER_SIDE;
        let x: u32 = rem % SECTORS_PER_SIDE;
        proof {
            assert(idx == per_face * (face as int) + rem);
            assert(rem == SECTORS_PER_SIDE * (y as int) + x);
            assert(per_face * (face as int) == (face as int) * (SECTORS_PER_SIDE
                * SECTORS_PER_SIDE)) by (nonlinear_arith)
                requires
                    per_face == SECTORS_PER_SIDE * SECTORS_PER_SIDE,
            ;
            assert((y as int) * (SECTORS_PER_SIDE as int) == (SECTORS_PER_SIDE as int) * (
            y as int)) by (nonlinear_arith);
            assert(sector_rank(Sector { face, x, y }) == idx);
            assert(forall|s: Sector|
                s.wf() && #[trigger] sector_rank(s) == idx ==> s == (Sector { face, x, y })) by {
                assert forall|s: Sector|
                    s.wf() && sector_rank(s) == idx implies s == (Sector { face, x, y }) by {
                    lemma_fundamental_div_mod_converse(
                        idx as int,
                        per_face as int,
                        s.face as int,
                        (s.y * SECTORS_PER_SIDE + s.x) as int,
                    );
                    lemma_fundamental_div_mod_converse(
                        rem as int,
                        SECTORS_PER_SIDE as int,
                        s.y as int,
                        s.x as int,
                    );
                }
            }
        }
        let ghost prev_out = out@;
        let ghost cur = Sector { face, x, y };
        if sector_is_missing(existing, dataset, max_level, face, x, y) {
            out.push(Sector { face, x, y });
        }
        idx = idx + 1;
        proof {
            assert forall|s: Sector|
                s.wf() && sector_rank(s) < idx && sector_missing_spec(
                    existing@,
                    dataset@,
                    max_level,
                    s,
                ) implies out@.contains(s) by {
                if sector_rank(s) == idx - 1 {
                    assert(s == cur);
                    assert(out@[out@.len() - 1] == s);
                } else {
                    assert(prev_out.contains(s));
                    let w = choose|w: int| 0 <= w < prev_out.len() && prev_out[w] == s;
                    assert(out@[w] == s);
                }
            }
        }
    }
    out
}

/// The face-wide sample-grid position of flat index `k` of a sector raster:
/// grid-registered sectors overlap by the row and column they share, so
/// successive sectors advance by `res - 1` cells; cell-registered sectors
/// tile without overlap.
pub open spec fn sample_position_spec(x: u32, y: u32, res: int, grid_registration: bool, k: int) -> (
    int,
    int,
) {
    if grid_registration {
        (x * (res - 1) + k % res, y * (res - 1) + k / res)
    } else {
        (x * res + k % res, y * res + k / res)
    }
}

/// The face-wide sample-grid positions of every pixel of the sector at
/// `(x, y)`, row-major at resolution `res`.  The unverified sampler turns
/// each position into cube-space, then geographic, then source-raster
/// coordinates, and looks all of them up in one batch.
pub fn sector_sample_positions(x: u32, y: u32, res: u32, grid_registration: bool) -> (r: Vec<
    (u32, u32),
>)
    requires
        x < SECTORS_PER_SIDE,
        y < SECTORS_PER_SIDE,
        1 <= res,
        res * res <= u32::MAX,
    ensures
        r@.len() == res * res,
        forall|k: int|
            0 <= k < r@.len() ==> ((#[trigger] r@[k]).0 as int, r@[k].1 as int)
                == sample_position_spec(x, y, res as int, grid_registration, k),
{
    proof {
        assert(res <= 0xffff) by (nonlinear_arith)
            requires
                res * res <= u32::MAX,
                res >= 1,
        ;
    }
    let count: u32 = res * res;
    let count_us: usize = count as usize;
    let mut out: Vec<(u32, u32)> = Vec::with_capacity(count_us);
    let mut k: u32 = 0;
    while k < count
        invariant
            count == res * res,
            res >= 1,
            res <= 0xffff,
            x < SECTORS_PER_SIDE,
            y < SECTORS_PER_SIDE,
            k <= count,
            out@.len() == k,
            forall|j: int|
                0 <= j < out@.len() ==> ((#[trigger] out@[j]).0 as int, out@[j].1 as int)
                    == sample_position_spec(x, y, res as int, grid_registration, j),
        decreases count - k,
    {
        proof {
            vstd::arithmetic::div_mod::lemma_mod_bound(k as int, res as int);
            vstd::arithmetic::div_mod::lemma_multiply_divide_lt(k as int, res as int, res as int);
            assert(x * res <= 64 * 0xffff) by (nonlinear_arith)
                requires
                    x <= 64,
                    res <= 0xffff,
            ;
            assert(y * res <= 64 * 0xffff) by (nonlinear_arith)
                requires
                    y <= 64,
                    res <= 0xffff,
            ;
            assert(x * (res - 1) <= x * res) by (nonlinear_arith)
                requires
                    x >= 0,
                    res >= 1,
            ;
            assert(y * (res - 1) <= y * res) by (nonlinear_arith)
                requires
                    y >= 0,
                    res >= 1,
            ;
        }
        let col = k % res;
        let row = k / res;
        let p = if grid_registration {
            (x * (res - 1) + col, y * (res - 1) + row)
        } else {
            (x * res + col, y * res + row)
        };
        out.push(p);
        k = k + 1;
    }
    out
}

/// Parameters the unverified sampler needs to place a sector's sample grid
/// on its face: the half-sector border used for seamless cross-sector
/// interpolation, and the face-wide sample span.
pub fn sector_sampling_frame(res: u32, grid_registration: bool) -> (r: (u32, u32))
    requires
        1 <= res,
        res * res <= u32::MAX,
    ensures
        r.0 == res as int / 2,
        grid_registration ==> r.1 == (res - 1) * SECTORS_PER_SIDE + 1,
        !grid_registration ==> r.1 == res * SECTORS_PER_SIDE,
{
    proof {
        assert(res <= 0xffff) by (nonlinear_arith)
            requires
                res * res <= u32::MAX,
                res >= 1,
        ;
    }
    let border = res / 2;
    let span = if grid_registration {
        (res - 1) * SECTORS_PER_SIDE + 1
    } else {
        res * SECTORS_PER_SIDE
    };
    (border, span)
}

/// One file of a sector pyramid, ready to persist: its canonical name and
/// its encoded bytes.
pub struct SectorOutput {
    pub level: u8,
    pub filename: Vec<u8>,
    pub bytes: Vec<u8>,
}

/// Turns the sampled base raster of one sector into its pyramid files:
/// level `max_level` down to the pyramid's minimum level, each level the
/// defined downsample of the one below it, each encoded (uniform levels as
/// 1x1 files) under its canonical name.  Succeeds on every representable
/// dataset, and the outputs are a function of the arguments alone, so a
/// rerun writes byte-identical files.
pub fn reproject_sector(
    dataset: &Vec<u8>,
    face: u8,
    x: u32,
    y: u32,
    samples: Vec<i16>,
    max_level: u8,
    grid_registration: bool,
    red: Reducer,
) -> (r: Result<Vec<SectorOutput>, PipelineError>)
    requires
        face < FACE_COUNT,
        x < SECTORS_PER_SIDE,
        y < SECTORS_PER_SIDE,
        crate::grid::base_resolution_representable(max_level, grid_registration),
        samples@.len() == sector_resolution_spec(max_level as nat, grid_registration)
            * sector_resolution_spec(max_level as nat, grid_registration),
    ensures
        r is Ok,
        r matches Ok(outs) ==> {
            let min_level = pyramid_min_level_spec(max_level);
            let base_res = sector_resolution_spec(max_level as nat, grid_registration);
            &&& outs@.len() == max_level - min_level + 1
            &&& forall|i: int|
                0 <= i < outs@.len() ==> (#[trigger] outs@[i]).level == max_level - i
            &&& forall|i: int|
                0 <= i < outs@.len() ==> (#[trigger] outs@[i]).filename@ == sector_filename_spec(
                    dataset@,
                    face as int,
                    max_level - i,
                    x as int,
                    y as int,
                )
            &&& forall|i: int|
                0 <= i < outs@.len() ==> {
                    let level = pyramid_at(grid_registration, red, samples@, base_res, i as nat);
                    (#[trigger] outs@[i]).bytes@ == sector_level_bytes_spec(level.0, level.1)
                }
        },
{
    proof {
        crate::grid::lemma_representable_resolution_bound(max_level, grid_registration);
    }
    let min_level = crate::grid::pyramid_min_level(max_level);
    let levels = build_pyramid(samples, min_level, max_level, grid_registration, red);
    let ghost base_res = sector_resolution_spec(max_level as nat, grid_registration);
    let mut out: Vec<SectorOutput> = Vec::new();
    let mut i: usize = 0;
    let n = levels.len();
    while i < n
        invariant
            n == levels@.len(),
            n == max_level - min_level + 1,
            min_level == pyramid_min_level_spec(max_level),
            max_level <= 12,
            sector_resolution_spec(max_level as nat, grid_registration)
                <= crate::codec::MAX_RASTER_RESOLUTION,
            face < FACE_COUNT,
            x < SECTORS_PER_SIDE,
            y < SECTORS_PER_SIDE,
            i <= n,
            out@.len() == i,
            forall|j: int|
                0 <= j < levels@.len() ==> (#[trigger] levels@[j]).level == max_level - j,
            forall|j: int|
                0 <= j < levels@.len() ==> (#[trigger] levels@[j]).resolution
                    == sector_resolution_spec((max_level - j) as nat, grid_registration),
            forall|j: int|
                0 <= j < levels@.len() ==> ((#[trigger] levels@[j]).data@,
                levels@[j].resolution as int) == pyramid_at(
                    grid_registration,
                    red,
                    samples@,
                    base_res,
                    j as nat,
                ),
            forall|j: int|
                0 <= j < levels@.len() ==> (#[trigger] levels@[j]).data@.len() == levels@[j].resolution
                    as int * levels@[j].resolution as int,
            forall|j: int|
                0 <= j < out@.len() ==> (#[trigger] out@[j]).level == max_level - j,
            forall|j: int|
                0 <= j < out@.len() ==> (#[trigger] out@[j]).filename@ == sector_filename_spec(
                    dataset@,
                    face as int,
                    max_level - j,
                    x as int,
                    y as int,
                ),
            forall|j: int|
                0 <= j < out@.len() ==> {
                    let level = pyramid_at(grid_registration, red, samples@, base_res, j as nat);
                    (#[trigger] out@[j]).bytes@ == sector_level_bytes_spec(level.0, level.1)
                },
        decreases n - i,
    {
        proof {
            vstd::arithmetic::power2::lemma_pow2_pos((max_level - i) as nat);
            if i > 0 {
                vstd::arithmetic::power2::lemma_pow2_strictly_increases(
                    (max_level - i) as nat,
                    max_level as nat,
                );
            }
            assert(levels@[i as int].resolution <= sector_resolution_spec(
                max_level as nat,
                grid_registration,
            ));
        }
        let level_no = levels[i].level;
        let res_u32: u32 = levels[i].resolution as u32;
        let bytes = match encode_sector_level(&levels[i].data, res_u32) {
            Ok(b) => b,
            Err(e) => {
                return Err(e);
            },
        };
        let filename = sector_filename(dataset, face, level_no, x, y);
        out.push(SectorOutput { level: level_no, filename, bytes });
        i = i + 1;
    }
    Ok(out)
}

/// Law of resumability: a directory that holds every pyramid file of every
/// sector — as a completed run leaves it — has no missing sector, so the
/// next run's plan is empty and the stage performs zero sector computations.
pub proof fn lemma_rescan_finds_nothing(existing: Seq<Vec<u8>>, dataset: Seq<u8>, max_level: u8)
    requires
        forall|f: int, l: int, sx: int, sy: int|
            0 <= f < FACE_COUNT && pyramid_min_level_spec(max_level) <= l <= max_level && 0 <= sx
                < SECTORS_PER_SIDE && 0 <= sy < SECTORS_PER_SIDE ==> contains_name_spec(
                existing,
                #[trigger] sector_filename_spec(dataset, f, l, sx, sy),
            ),
    ensures
        forall|s: Sector| s.wf() ==> !sector_missing_spec(existing, dataset, max_level, s),
{
    assert forall|s: Sector| s.wf() implies !sector_missing_spec(
        existing,
        dataset,
        max_level,
        s,
    ) by {
        assert forall|level: int|
            pyramid_min_level_spec(max_level) <= level <= max_level implies contains_name_spec(
            existing,
            sector_filename_spec(dataset, s.face as int, level, s.x as int, s.y as int),
        ) by {
            assert(0 <= s.face < FACE_COUNT);
            assert(0 <= s.x < SECTORS_PER_SIDE);
            assert(0 <= s.y < SECTORS_PER_SIDE);
        }
    }
}

} // verus!
