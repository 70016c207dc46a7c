//! The tile extraction stage.
//!
//! Each quadtree node's tile is composited from the sector pyramids at the
//! node's level (clamped to the pyramid's coarsest level; coarser nodes read
//! the coarsest pyramid files at a power-of-two stride).  This module holds
//! the verified computation: the pixel-space placement of a tile within the
//! face's sector grid, the exact rectangle of sectors the tile overlaps —
//! each requested once — and the per-pixel compositing, including the
//! degenerate single-value sectors.  File reads go through the sector cache;
//! file writes stay with the unverified caller.

use vstd::arithmetic::div_mod::lemma_div_is_ordered;
use vstd::arithmetic::div_mod::lemma_mod_bound;
use vstd::arithmetic::div_mod::lemma_multiply_divide_lt;
use vstd::arithmetic::mul::lemma_mul_inequality;
use vstd::arithmetic::power2::lemma2_to64;
use vstd::arithmetic::power2::lemma_pow2_adds;
use vstd::arithmetic::power2::lemma_pow2_pos;
use vstd::arithmetic::power2::lemma_pow2_strictly_increases;
use vstd::arithmetic::power2::pow2;
use vstd::prelude::*;

use crate::grid::base_resolution_representable;
use crate::grid::pyramid_min_level_spec;
use crate::grid::sector_inner_resolution_spec;
use crate::grid::sector_resolution_spec;
use crate::sector::Sector;
use crate::sector::TileNode;
use crate::FACE_COUNT;
use crate::SECTORS_PER_SIDE;
use crate::TILE_BORDER;
use crate::TILE_INNER_RESOLUTION;
use crate::TILE_RESOLUTION;

verus! {

/// Pixel-space geometry of one tile extraction: the stride into the sector
/// rasters, the pyramid level read, and the position of the tile's first
/// pixel (border included) in the face-wide pixel grid of that level.
pub struct TileLayout {
    pub step: u32,
    pub sector_level: u8,
    pub sector_inner_resolution: u32,
    pub sector_resolution: u32,
    pub root_x: u32,
    pub root_y: u32,
}

/// Stride exponent of a node: nodes coarser than the pyramid's minimum
/// level read the minimum-level files at stride `2^(min_level - level)`.
pub open spec fn step_exponent(level: u8, min_level: u8) -> nat {
    if level < min_level {
        (min_level - level) as nat
    } else {
        0
    }
}

/// The pyramid level a node's tile reads: its own level, clamped to the
/// pyramid's coarsest level.
pub open spec fn read_level_spec(level: u8, min_level: u8) -> u8 {
    if level > min_level {
        level
    } else {
        min_level
    }
}

/// Geometric consistency of a layout, and the bound that places every tile
/// pixel within the face's 65-sector span.
pub open spec fn layout_wf(l: TileLayout) -> bool {
    &&& l.step >= 1
    &&& l.sector_inner_resolution == sector_inner_resolution_spec(l.sector_level as nat)
    &&& l.sector_inner_resolution >= 8
    &&& (l.sector_resolution == l.sector_inner_resolution || l.sector_resolution
        == l.sector_inner_resolution + 1)
    &&& l.sector_resolution * l.sector_resolution <= u32::MAX
    &&& l.root_x + (TILE_RESOLUTION - 1) * l.step < SECTORS_PER_SIDE * l.sector_inner_resolution
    &&& l.root_y + (TILE_RESOLUTION - 1) * l.step < SECTORS_PER_SIDE * l.sector_inner_resolution
}

/// Computes the extraction geometry of one node.  The resulting layout
/// keeps the whole tile — border included — inside the face's sector span.
pub fn compute_tile_layout(node: TileNode, max_level: u8, grid_registration: bool) -> (l:
    TileLayout)
    requires
        node.wf(),
        node.level <= max_level,
        base_resolution_representable(max_level, grid_registration),
    ensures
        layout_wf(l),
        l.step == pow2(step_exponent(node.level, pyramid_min_level_spec(max_level))),
        l.sector_level == read_level_spec(node.level, pyramid_min_level_spec(max_level)),
        l.sector_level <= max_level,
        l.sector_resolution == sector_resolution_spec(l.sector_level as nat, grid_registration),
        l.root_x == node.x * TILE_INNER_RESOLUTION * l.step + l.sector_resolution / 2 - TILE_BORDER
            * l.step,
        l.root_y == node.y * TILE_INNER_RESOLUTION * l.step + l.sector_resolution / 2 - TILE_BORDER
            * l.step,
{
    proof {
        crate::grid::lemma_representable_resolution_bound(max_level, grid_registration);
        lemma2_to64();
    }
    let min_level = crate::grid::pyramid_min_level(max_level);
    let step_e: u8 = if node.level < min_level {
        min_level - node.level
    } else {
        0
    };
    let step = crate::grid::pow2_u32(step_e);
    let sector_level: u8 = if node.level > min_level {
        node.level
    } else {
        min_level
    };
    proof {
        lemma_pow2_pos(sector_level as nat);
        if (sector_level as nat) < 13nat {
            lemma_pow2_strictly_increases(sector_level as nat, 13nat);
        }
        assert(pow2(sector_level as nat) <= 0x2000);
        // The stride never reaches half a sector: 8 * step <= inner resolution.
        lemma_pow2_adds(step_e as nat, (sector_level - step_e) as nat);
        lemma_pow2_pos((sector_level - step_e) as nat);
        assert(pow2(step_e as nat) <= pow2(sector_level as nat)) by {
            assert(pow2(sector_level as nat) == pow2(step_e as nat) * pow2(
                (sector_level - step_e) as nat,
            ));
            lemma_mul_inequality(1, pow2((sector_level - step_e) as nat) as int, pow2(
                step_e as nat,
            ) as int);
            assert(pow2(step_e as nat) * pow2((sector_level - step_e) as nat) >= pow2(
                step_e as nat,
            ) * 1) by (nonlinear_arith)
                requires
                    pow2((sector_level - step_e) as nat) >= 1,
                    pow2(step_e as nat) >= 1,
            ;
        }
    }
    let sir = crate::grid::sector_inner_resolution(sector_level);
    let sres = if grid_registration {
        sir + 1
    } else {
        sir
    };
    proof {
        // sres^2 is bounded by the representable base resolution's square.
        let base = sector_resolution_spec(max_level as nat, grid_registration);
        if sector_level < max_level {
            lemma_pow2_strictly_increases(sector_level as nat, max_level as nat);
        }
        assert(sres <= base);
        assert(sres * sres <= base * base) by (nonlinear_arith)
            requires
                0 <= sres <= base,
        ;
        // The tile's span in face pixels stays under 65 sectors.
        lemma_pow2_adds(node.level as nat, step_e as nat);
        assert(pow2(node.level as nat) * step == pow2((node.level + step_e) as nat));
        assert(node.level + step_e == sector_level);
        assert(node.x * (TILE_INNER_RESOLUTION * step) <= (pow2(node.level as nat) - 1) * (
        TILE_INNER_RESOLUTION * step)) by {
            lemma_mul_inequality(
                node.x as int,
                pow2(node.level as nat) - 1,
                TILE_INNER_RESOLUTION * step,
            );
        }
        assert((pow2(node.level as nat) - 1) * (TILE_INNER_RESOLUTION * step)
            == TILE_INNER_RESOLUTION * (pow2(node.level as nat) * step) - TILE_INNER_RESOLUTION
            * step) by (nonlinear_arith);
        assert(TILE_INNER_RESOLUTION == 512);
        assert(512 * pow2(sector_level as nat) == 64 * (8 * pow2(sector_level as nat)));
        assert(TILE_INNER_RESOLUTION * pow2(sector_level as nat) == 64 * sir);
        assert(node.x * TILE_INNER_RESOLUTION * step == node.x * (TILE_INNER_RESOLUTION * step))
            by (nonlinear_arith);
        assert(node.x * TILE_INNER_RESOLUTION * step <= 64 * sir - TILE_INNER_RESOLUTION * step);
        assert(node.y * TILE_INNER_RESOLUTION * step == node.y * (TILE_INNER_RESOLUTION * step))
            by (nonlinear_arith);
        assert(node.y * TILE_INNER_RESOLUTION * step <= 64 * sir - TILE_INNER_RESOLUTION * step) by {
            lemma_mul_inequality(
                node.y as int,
                pow2(node.level as nat) - 1,
                TILE_INNER_RESOLUTION * step,
            );
            assert((pow2(node.level as nat) - 1) * (TILE_INNER_RESOLUTION * step)
                == TILE_INNER_RESOLUTION * (pow2(node.level as nat) * step) - TILE_INNER_RESOLUTION
                * step) by (nonlinear_arith);
        }
        assert(sres / 2 <= sir / 2 + 1);
        assert(8 * step <= sir) by {
            assert(sir == 8 * pow2(sector_level as nat));
            assert(step == pow2(step_e as nat));
        }
        // No underflow: half the sector border covers the tile border stride.
        assert(sir % 2 == 0 && sir as int / 2 == 4 * pow2(sector_level as nat)) by {
            vstd::arithmetic::div_mod::lemma_fundamental_div_mod_converse(
                sir as int,
                2,
                4 * pow2(sector_level as nat) as int,
                0,
            );
        }
        assert(sres as int / 2 >= sir as int / 2) by {
            lemma_div_is_ordered(sir as int, sres as int, 2);
        }
        assert(TILE_BORDER * step <= 2 * pow2(sector_level as nat));
        assert(sres / 2 >= TILE_BORDER * step);
    }
    let root_x = node.x * (TILE_INNER_RESOLUTION as u32) * step + sres / 2 - (TILE_BORDER as u32)
        * step;
    let root_y = node.y * (TILE_INNER_RESOLUTION as u32) * step + sres / 2 - (TILE_BORDER as u32)
        * step;
    TileLayout {
        step,
        sector_level,
        sector_inner_resolution: sir,
        sector_resolution: sres,
        root_x,
        root_y,
    }
}

/// First sector column the tile overlaps.
pub open spec fn min_sector_x(l: TileLayout) -> int {
    l.root_x as int / l.sector_inner_resolution as int
}

/// Last sector column the tile overlaps.
pub open spec fn max_sector_x(l: TileLayout) -> int {
    (l.root_x + (TILE_RESOLUTION - 1) * l.step) / l.sector_inner_resolution as int
}

/// First sector row the tile overlaps.
pub open spec fn min_sector_y(l: TileLayout) -> int {
    l.root_y as int / l.sector_inner_resolution as int
}

/// Last sector row the tile overlaps.
pub open spec fn max_sector_y(l: TileLayout) -> int {
    (l.root_y + (TILE_RESOLUTION - 1) * l.step) / l.sector_inner_resolution as int
}

/// The rank of a sector in the covering enumeration: row-major.
pub open spec fn covering_rank(s: Sector) -> int {
    s.y * SECTORS_PER_SIDE + s.x
}

/// Enumerates the bounding rectangle of sectors a tile overlaps: exactly
/// the sectors between the minimum and maximum overlapped column and row,
/// each exactly once.  These are the sectors one tile extraction requests
/// from the cache.
pub fn covering_sectors(l: &TileLayout, face: u8) -> (r: Vec<Sector>)
    requires
        layout_wf(*l),
        face < FACE_COUNT,
    ensures
        forall|i: int|
            0 <= i < r@.len() ==> {
                let s = #[trigger] r@[i];
                s.wf() && s.face == face && min_sector_x(*l) <= s.x <= max_sector_x(*l)
                    && min_sector_y(*l) <= s.y <= max_sector_y(*l)
            },
        forall|s: Sector|
            s.face == face && min_sector_x(*l) <= s.x <= max_sector_x(*l) && min_sector_y(*l)
                <= s.y <= max_sector_y(*l) ==> r@.contains(s),
        forall|i: int, j: int| 0 <= i < j < r@.len() ==> r@[i] != r@[j],
        forall|i: int, j: int|
            0 <= i < j < r@.len() ==> covering_rank(r@[i]) < covering_rank(r@[j]),
        r@.len() == (max_sector_x(*l) - min_sector_x(*l) + 1) * (max_sector_y(*l) - min_sector_y(
            *l,
        ) + 1),
{
    let sir = l.sector_inner_resolution;
    proof {
        assert(l.sector_resolution <= 0xffff) by (nonlinear_arith)
            requires
                l.sector_resolution * l.sector_resolution <= u32::MAX,
                l.sector_resolution >= 0,
        ;
    }
    let span_x = l.root_x + (TILE_RESOLUTION as u32 - 1) * l.step;
    let span_y = l.root_y + (TILE_RESOLUTION as u32 - 1) * l.step;
    let min_sx = l.root_x / sir;
    let max_sx = span_x / sir;
    let min_sy = l.root_y / sir;
    let max_sy = span_y / sir;
    proof {
        lemma_multiply_divide_lt(span_x as int, sir as int, SECTORS_PER_SIDE as int);
        lemma_multiply_divide_lt(span_y as int, sir as int, SECTORS_PER_SIDE as int);
        lemma_div_is_ordered(l.root_x as int, span_x as int, sir as int);
        lemma_div_is_ordered(l.root_y as int, span_y as int, sir as int);
        vstd::arithmetic::div_mod::lemma_div_pos_is_pos(l.root_x as int, sir as int);
        vstd::arithmetic::div_mod::lemma_div_pos_is_pos(l.root_y as int, sir as int);
    }
    let width = max_sx - min_sx + 1;
    let mut out: Vec<Sector> = Vec::new();
    let mut sy = min_sy;
    while sy <= max_sy
        invariant
            min_sx == min_sector_x(*l),
            max_sx == max_sector_x(*l),
            min_sy == min_sector_y(*l),
            max_sy == max_sector_y(*l),
            0 <= min_sx <= max_sx < SECTORS_PER_SIDE,
            0 <= min_sy <= max_sy < SECTORS_PER_SIDE,
            width == max_sx - min_sx + 1,
            min_sy <= sy <= max_sy + 1,
            out@.len() == (sy - min_sy) * width,
            forall|i: int|
                0 <= i < out@.len() ==> {
                    let s = #[trigger] out@[i];
                    s.wf() && s.face == face && min_sx <= s.x <= max_sx && min_sy <= s.y
                        && s.y < sy
                },
            forall|s: Sector|
                s.face == face && min_sx <= s.x <= max_sx && min_sy <= s.y && s.y < sy
                    ==> out@.contains(s),
            forall|i: int, j: int| 0 <= i < j < out@.len() ==> out@[i] != out@[j],
            forall|i: int, j: int|
                0 <= i < j < out@.len() ==> covering_rank(out@[i]) < covering_rank(out@[j]),
            face < FACE_COUNT,
        decreases max_sy + 1 - sy,
    {
        let mut sx = min_sx;
        while sx <= max_sx
            invariant
                min_sx == min_sector_x(*l),
                max_sx == max_sector_x(*l),
                min_sy == min_sector_y(*l),
                max_sy == max_sector_y(*l),
                0 <= min_sx <= max_sx < SECTORS_PER_SIDE,
                0 <= min_sy <= max_sy < SECTORS_PER_SIDE,
                width == max_sx - min_sx + 1,
                min_sy <= sy <= max_sy,
                min_sx <= sx <= max_sx + 1,
                out@.len() == (sy - min_sy) * width + (sx - min_sx),
                forall|i: int|
                    0 <= i < out@.len() ==> {
                        let s = #[trigger] out@[i];
                        s.wf() && s.face == face && min_sx <= s.x <= max_sx && min_sy <= s.y
                            && (s.y < sy || (s.y == sy && s.x < sx))
                    },
                forall|s: Sector|
                    s.face == face && min_sx <= s.x <= max_sx && min_sy <= s.y && (s.y < sy || (
                    s.y == sy && s.x < sx)) ==> out@.contains(s),
                forall|i: int, j: int| 0 <= i < j < out@.len() ==> out@[i] != out@[j],
                forall|i: int, j: int|
                    0 <= i < j < out@.len() ==> covering_rank(out@[i]) < covering_rank(out@[j]),
                face < FACE_COUNT,
            decreases max_sx + 1 - sx,
        {
            let ghost prev = out@;
            let s = Sector { face, x: sx, y: sy };
            proof {
                assert(forall|i: int|
                    0 <= i < prev.len() ==> covering_rank(#[trigger] prev[i]) < covering_rank(s));
            }
            out.push(s);
            sx = sx + 1;
            proof {
                assert forall|t: Sector|
                    t.face == face && min_sx <= t.x <= max_sx && min_sy <= t.y && (t.y < sy || (
                    t.y == sy && t.x < sx)) implies out@.contains(t) by {
                    if t.y == sy && t.x == sx - 1 {
                        assert(out@[out@.len() - 1] == t);
                    } else {
                        assert(prev.contains(t));
                        let w = choose|w: int| 0 <= w < prev.len() && prev[w] == t;
                        assert(out@[w] == t);
                    }
                }
            }
        }
        sy = sy + 1;
        proof {
            assert(out@.len() == (sy - min_sy) * width) by (nonlinear_arith)
                requires
                    out@.len() == (sy - 1 - min_sy) * width + width,
            ;
        }
    }
    proof {
        assert(out@.len() == (max_sy + 1 - min_sy) * width);
        assert((max_sy + 1 - min_sy) * width == width * (max_sy - min_sy + 1)) by (nonlinear_arith);
    }
    out
}

/// Face-pixel column of tile pixel column `px`, at the stride of the layout.
pub open spec fn pixel_cell_x(l: TileLayout, px: int) -> int {
    l.root_x + px * l.step
}

/// Face-pixel row of tile pixel row `py`.
pub open spec fn pixel_cell_y(l: TileLayout, py: int) -> int {
    l.root_y + py * l.step
}

/// The sector that covers tile pixel `(px, py)`.
pub open spec fn pixel_sector(l: TileLayout, face: u8, px: int, py: int) -> Sector {
    Sector {
        face,
        x: (pixel_cell_x(l, px) / l.sector_inner_resolution as int) as u32,
        y: (pixel_cell_y(l, py) / l.sector_inner_resolution as int) as u32,
    }
}

/// Whether a raster for sector `s` is among the loaded rasters.
pub open spec fn has_raster(rs: Seq<(Sector, Vec<i16>)>, s: Sector) -> bool {
    exists|i: int| 0 <= i < rs.len() && (#[trigger] rs[i]).0 == s
}

/// The loaded raster of sector `s`.
pub open spec fn raster_for(rs: Seq<(Sector, Vec<i16>)>, s: Sector) -> Seq<i16> {
    let i = choose|i: int| 0 <= i < rs.len() && (#[trigger] rs[i]).0 == s;
    rs[i].1@
}

/// The value of tile pixel `(px, py)`: the covering sector's sample at the
/// pixel's offset — or the sector's one value, when the sector was stored
/// as a degenerate 1x1 uniform raster.
pub open spec fn tile_pixel_spec(
    l: TileLayout,
    face: u8,
    rs: Seq<(Sector, Vec<i16>)>,
    px: int,
    py: int,
) -> i16 {
    let d = raster_for(rs, pixel_sector(l, face, px, py));
    if d.len() == 1 {
        d[0]
    } else {
        d[(pixel_cell_y(l, py) % l.sector_inner_resolution as int) * l.sector_resolution + pixel_cell_x(
            l,
            px,
        ) % l.sector_inner_resolution as int]
    }
}

/// The whole composited tile, row-major.
pub open spec fn composite_spec(l: TileLayout, face: u8, rs: Seq<(Sector, Vec<i16>)>) -> Seq<i16> {
    Seq::new(
        (TILE_RESOLUTION * TILE_RESOLUTION) as nat,
        |k: int|
            tile_pixel_spec(
                l,
                face,
                rs,
                k % (TILE_RESOLUTION as int),
                k / (TILE_RESOLUTION as int),
            ),
    )
}

/// Finds the raster loaded for sector `s`.
fn find_raster(rasters: &Vec<(Sector, Vec<i16>)>, s: Sector) -> (idx: usize)
    requires
        has_raster(rasters@, s),
        forall|i: int, j: int| 0 <= i < j < rasters@.len() ==> rasters@[i].0 != rasters@[j].0,
    ensures
        idx < rasters@.len(),
        rasters@[idx as int].0 == s,
        rasters@[idx as int].1@ == raster_for(rasters@, s),
{
    let n = rasters.len();
    let mut i: usize = 0;
    while i < n
        invariant
            n == rasters@.len(),
            i <= n,
            has_raster(rasters@, s),
            forall|p: int, q: int| 0 <= p < q < rasters@.len() ==> rasters@[p].0 != rasters@[q].0,
            forall|j: int| 0 <= j < i ==> (#[trigger] rasters@[j]).0 != s,
        decreases n - i,
    {
        if rasters[i].0 == s {
            proof {
                let j = choose|j: int| 0 <= j < rasters@.len() && (#[trigger] rasters@[j]).0 == s;
                if j != i {
                    if j < i {
                        assert(rasters@[j].0 != s);
                    } else {
                        assert(rasters@[i as int].0 != rasters@[j].0);
                    }
                }
            }
            return i;
        }
        i = i + 1;
    }
    proof {
        let j = choose|j: int| 0 <= j < rasters@.len() && (#[trigger] rasters@[j]).0 == s;
        assert(rasters@[j].0 != s);
    }
    unreached()
}

/// Composites one tile out of the loaded sector rasters: every pixel is
/// copied from the sector covering it, or filled from the sector's single
/// value where the sector was stored as a 1x1 uniform file.
pub fn composite_tile(l: &TileLayout, face: u8, rasters: &Vec<(Sector, Vec<i16>)>) -> (r: Vec<
    i16,
>)
    requires
        layout_wf(*l),
        face < FACE_COUNT,
        forall|i: int|
            0 <= i < rasters@.len() ==> ((#[trigger] rasters@[i]).1@.len() == 1 || rasters@[i].1@.len()
                == l.sector_resolution * l.sector_resolution),
        forall|i: int, j: int| 0 <= i < j < rasters@.len() ==> rasters@[i].0 != rasters@[j].0,
        forall|s: Sector|
            s.face == face && min_sector_x(*l) <= s.x <= max_sector_x(*l) && min_sector_y(*l)
                <= s.y <= max_sector_y(*l) ==> has_raster(rasters@, s),
    ensures
        r@.len() == TILE_RESOLUTION * TILE_RESOLUTION,
        r@ == composite_spec(*l, face, rasters@),
{
    proof {
        assert(l.sector_resolution <= 0xffff) by (nonlinear_arith)
            requires
                l.sector_resolution * l.sector_resolution <= u32::MAX,
                l.sector_resolution >= 0,
        ;
    }
    let total: usize = TILE_RESOLUTION * TILE_RESOLUTION;
    let mut out: Vec<i16> = Vec::with_capacity(total);
    let mut k: usize = 0;
    while k < total
        invariant
            total == TILE_RESOLUTION * TILE_RESOLUTION,
            layout_wf(*l),
            l.sector_resolution <= 0xffff,
            face < FACE_COUNT,
            forall|i: int|
                0 <= i < rasters@.len() ==> ((#[trigger] rasters@[i]).1@.len() == 1
                    || rasters@[i].1@.len() == l.sector_resolution * l.sector_resolution),
            forall|i: int, j: int| 0 <= i < j < rasters@.len() ==> rasters@[i].0 != rasters@[j].0,
            forall|s: Sector|
                s.face == face && min_sector_x(*l) <= s.x <= max_sector_x(*l) && min_sector_y(*l)
                    <= s.y <= max_sector_y(*l) ==> has_raster(rasters@, s),
            k <= total,
            out@.len() == k,
            forall|j: int|
                0 <= j < k ==> out@[j] == #[trigger] composite_spec(*l, face, rasters@)[j],
        decreases total - k,
    {
        let px = k % TILE_RESOLUTION;
        let py = k / TILE_RESOLUTION;
        let sir = l.sector_inner_resolution;
        proof {
            lemma_mod_bound(k as int, TILE_RESOLUTION as int);
            lemma_multiply_divide_lt(k as int, TILE_RESOLUTION as int, TILE_RESOLUTION as int);
            assert(px * l.step <= (TILE_RESOLUTION - 1) * l.step) by {
                lemma_mul_inequality(px as int, TILE_RESOLUTION as int - 1, l.step as int);
            }
            assert(py * l.step <= (TILE_RESOLUTION - 1) * l.step) by {
                lemma_mul_inequality(py as int, TILE_RESOLUTION as int - 1, l.step as int);
            }
        }
        let cell_x = l.root_x + (px as u32) * l.step;
        let cell_y = l.root_y + (py as u32) * l.step;
        let sx = cell_x / sir;
        let sy = cell_y / sir;
        proof {
            lemma_multiply_divide_lt(
                (l.root_x + (TILE_RESOLUTION - 1) * l.step) as int,
                sir as int,
                SECTORS_PER_SIDE as int,
            );
            lemma_multiply_divide_lt(
                (l.root_y + (TILE_RESOLUTION - 1) * l.step) as int,
                sir as int,
                SECTORS_PER_SIDE as int,
            );
            lemma_div_is_ordered(cell_x as int, (l.root_x + (TILE_RESOLUTION - 1) * l.step) as int, sir as int);
            lemma_div_is_ordered(cell_y as int, (l.root_y + (TILE_RESOLUTION - 1) * l.step) as int, sir as int);
            lemma_div_is_ordered(l.root_x as int, cell_x as int, sir as int);
            lemma_div_is_ordered(l.root_y as int, cell_y as int, sir as int);
            vstd::arithmetic::div_mod::lemma_div_pos_is_pos(cell_x as int, sir as int);
            vstd::arithmetic::div_mod::lemma_div_pos_is_pos(cell_y as int, sir as int);
        }
        let s = Sector { face, x: sx, y: sy };
        proof {
            assert(s == pixel_sector(*l, face, px as int, py as int));
            assert(has_raster(rasters@, s));
        }
        let idx = find_raster(rasters, s);
        let d = &rasters[idx].1;
        let v: i16;
        if d.len() == 1 {
            v = d[0];
        } else {
            let ox = cell_x % sir;
            let oy = cell_y % sir;
            proof {
                lemma_mod_bound(cell_x as int, sir as int);
                lemma_mod_bound(cell_y as int, sir as int);
                assert(oy * l.sector_resolution <= (l.sector_resolution - 1)
                    * l.sector_resolution) by {
                    lemma_mul_inequality(
                        oy as int,
                        l.sector_resolution as int - 1,
                        l.sector_resolution as int,
                    );
                }
                assert((l.sector_resolution - 1) * l.sector_resolution + (l.sector_resolution - 1)
                    < l.sector_resolution * l.sector_resolution) by (nonlinear_arith)
                    requires
                        l.sector_resolution >= 1,
                ;
            }
            v = d[(oy as usize) * (l.sector_resolution as usize) + (ox as usize)];
        }
        out.push(v);
        proof {
            assert(out@[k as int] == composite_spec(*l, face, rasters@)[k as int]);
        }
        k = k + 1;
    }
    assert(out@ =~= composite_spec(*l, face, rasters@));
    out
}

/// Whether a node's tile file is absent from the output directory.
pub open spec fn tile_missing_spec(existing: Seq<Vec<u8>>, dataset: Seq<u8>, n: TileNode) -> bool {
    !crate::names::contains_name_spec(
        existing,
        crate::names::tile_filename_spec(
            dataset,
            n.level as nat,
            n.face as nat,
            n.x as nat,
            n.y as nat,
        ),
    )
}

/// The rank of a node among the nodes of its level: face-major, then row,
/// then column.
pub open spec fn node_rank(n: TileNode) -> int {
    n.face * (pow2(n.level as nat) * pow2(n.level as nat)) + n.y * pow2(n.level as nat) + n.x
}

/// Plans the tile extraction stage: every node of every level up to
/// `max_level`, on all six faces, whose tile file is absent from `existing`
/// — each exactly once, deepest levels first, which is the order the tiles
/// are then produced in.
pub fn missing_tiles(existing: &Vec<Vec<u8>>, dataset: &Vec<u8>, max_level: u8) -> (r: Vec<
    TileNode,
>)
    requires
        max_level <= 14,
    ensures
        forall|i: int|
            0 <= i < r@.len() ==> (#[trigger] r@[i]).wf() && r@[i].level <= max_level
                && tile_missing_spec(existing@, dataset@, r@[i]),
        forall|n: TileNode|
            n.wf() && n.level <= max_level && tile_missing_spec(existing@, dataset@, n)
                ==> r@.contains(n),
        forall|i: int, j: int| 0 <= i < j < r@.len() ==> r@[i] != r@[j],
        forall|i: int, j: int| 0 <= i < j < r@.len() ==> r@[i].level >= r@[j].level,
{
    let mut out: Vec<TileNode> = Vec::new();
    let mut k: u8 = 0;
    while k <= max_level
        invariant
            max_level <= 14,
            k <= max_level + 1,
            forall|i: int|
                0 <= i < out@.len() ==> (#[trigger] out@[i]).wf() && out@[i].level <= max_level
                    && tile_missing_spec(existing@, dataset@, out@[i]),
            forall|n: TileNode|
                n.wf() && n.level <= max_level && n.level > max_level - k && tile_missing_spec(
                    existing@,
                    dataset@,
                    n,
                ) ==> out@.contains(n),
            forall|i: int, j: int| 0 <= i < j < out@.len() ==> out@[i] != out@[j],
            forall|i: int, j: int| 0 <= i < j < out@.len() ==> out@[i].level >= out@[j].level,
            forall|i: int| 0 <= i < out@.len() ==> (#[trigger] out@[i]).level > max_level - k,
        decreases max_level + 1 - k,
    {
        let level: u8 = max_level - k;
        proof {
            lemma2_to64();
            if (level as nat) < 14nat {
                lemma_pow2_strictly_increases(level as nat, 14nat);
            }
            assert(pow2(level as nat) <= 0x4000);
        }
        let side: u32 = crate::grid::pow2_u32(level);
        proof {
            assert(side * side <= 0x4000 * 0x4000) by (nonlinear_arith)
                requires
                    0 <= side <= 0x4000,
            ;
        }
        let per_face: u32 = side * side;
        let total: u32 = (FACE_COUNT as u32) * per_face;
        let mut idx: u32 = 0;
        while idx < total
            invariant
                max_level <= 14,
                k <= max_level,
                level == max_level - k,
                side == pow2(level as nat),
                side <= 0x4000,
                per_face == side * side,
                total == FACE_COUNT * per_face,
                idx <= total,
                forall|i: int|
                    0 <= i < out@.len() ==> (#[trigger] out@[i]).wf() && out@[i].level <= max_level
                        && tile_missing_spec(existing@, dataset@, out@[i]),
                forall|n: TileNode|
                    n.wf() && n.level <= max_level && n.level > level && tile_missing_spec(
                        existing@,
                        dataset@,
                        n,
                    ) ==> out@.contains(n),
                forall|n: TileNode|
                    n.wf() && n.level == level && node_rank(n) < idx && tile_missing_spec(
                        existing@,
                        dataset@,
                        n,
                    ) ==> out@.contains(n),
                forall|i: int, j: int| 0 <= i < j < out@.len() ==> out@[i] != out@[j],
                forall|i: int, j: int| 0 <= i < j < out@.len() ==> out@[i].level >= out@[j].level,
                forall|i: int|
                    0 <= i < out@.len() ==> (#[trigger] out@[i]).level > level || (out@[i].level
                        == level && node_rank(out@[i]) < idx),
            decreases total - idx,
        {
            proof {
                lemma_mod_bound(idx as int, per_face as int);
                lemma_multiply_divide_lt(idx as int, per_face as int, FACE_COUNT as int);
                vstd::arithmetic::div_mod::lemma_fundamental_div_mod(idx as int, per_face as int);
            }
            let face: u8 = (idx / per_face) as u8;
            let rem: u32 = idx % per_face;
            proof {
                lemma_mod_bound(rem as int, side as int);
                lemma_multiply_divide_lt(rem as int, side as int, side as int);
                vstd::arithmetic::div_mod::lemma_fundamental_div_mod(rem as int, side as int);
            }
            let y: u32 = rem / side;
            let x: u32 = rem % side;
            let ghost cur = TileNode { face, level, x, y };
            proof {
                assert(per_face * (face as int) == (face as int) * (pow2(level as nat) * pow2(
                    level as nat,
                ))) by (nonlinear_arith)
                    requires
                        per_face == pow2(level as nat) * pow2(level as nat),
                ;
                assert(idx == per_face * (face as int) + rem);
                assert(rem == side * (y as int) + x);
                assert((y as int) * (side as int) == (side as int) * (y as int))
                    by (nonlinear_arith);
                assert(node_rank(cur) == idx);
                assert(cur.wf());
                assert forall|n: TileNode|
                    n.wf() && n.level == level && #[trigger] node_rank(n) == idx implies n
                    == cur by {
                    assert(n.y * side + n.x < per_face) by (nonlinear_arith)
                        requires
                            n.y < side,
                            n.x < side,
                            per_face == side * side,
                    ;
                    assert(n.face * (pow2(level as nat) * pow2(level as nat)) == (
                    n.face as int) * per_face) by (nonlinear_arith)
                        requires
                            per_face == pow2(level as nat) * pow2(level as nat),
                    ;
                    vstd::arithmetic::div_mod::lemma_fundamental_div_mod_converse(
                        idx as int,
                        per_face as int,
                        n.face as int,
                        n.y * side + n.x,
                    );
                    vstd::arithmetic::div_mod::lemma_fundamental_div_mod_converse(
                        rem as int,
                        side as int,
                        n.y as int,
                        n.x as int,
                    );
                }
            }
            let name = crate::names::tile_filename(dataset, level, face, x, y);
            let ghost prev = out@;
            if !crate::names::contains_name(existing, &name) {
                out.push(TileNode { face, level, x, y });
            }
            idx = idx + 1;
            proof {
                assert forall|n: TileNode|
                    n.wf() && n.level == level && node_rank(n) < idx && tile_missing_spec(
                        existing@,
                        dataset@,
                        n,
                    ) implies out@.contains(n) by {
                    if node_rank(n) == idx - 1 {
                        assert(n == cur);
                        assert(out@[out@.len() - 1] == n);
                    } else {
                        assert(prev.contains(n));
                        let w = choose|w: int| 0 <= w < prev.len() && prev[w] == n;
                        assert(out@[w] == n);
                    }
                }
                assert forall|n: TileNode|
                    n.wf() && n.level <= max_level && n.level > level && tile_missing_spec(
                        existing@,
                        dataset@,
                        n,
                    ) implies out@.contains(n) by {
                    assert(prev.contains(n));
                    let w = choose|w: int| 0 <= w < prev.len() && prev[w] == n;
                    assert(out@[w] == n);
                }
            }
        }
        proof {
            assert forall|n: TileNode| n.wf() && n.level == level implies node_rank(n) < total by {
                assert(n.y * pow2(level as nat) + n.x < per_face) by (nonlinear_arith)
                    requires
                        n.y < pow2(level as nat),
                        n.x < pow2(level as nat),
                        per_face == pow2(level as nat) * pow2(level as nat),
                ;
                assert(n.face * (pow2(level as nat) * pow2(level as nat)) <= 5 * per_face)
                    by (nonlinear_arith)
                    requires
                        n.face <= 5,
                        per_face == pow2(level as nat) * pow2(level as nat),
                ;
            }
        }
        k = k + 1;
    }
    out
}

/// Number of quadtree nodes up to and including `max_level`: six faces,
/// each with `4^l` nodes at level `l`.
pub open spec fn tile_count_spec(max_level: u8) -> int
    decreases max_level,
{
    if max_level == 0 {
        6
    } else {
        tile_count_spec((max_level - 1) as u8) + 6 * (pow2(max_level as nat) * pow2(
            max_level as nat,
        ))
    }
}

/// The node count up to a level is bounded by eight times the top level's
/// per-face node count.
proof fn lemma_tile_count_bound(l: u8)
    ensures
        tile_count_spec(l) <= 8 * (pow2(l as nat) * pow2(l as nat)),
    decreases l,
{
    if l == 0 {
        lemma2_to64();
        assert(tile_count_spec(0) == 6);
    } else {
        lemma_tile_count_bound((l - 1) as u8);
        vstd::arithmetic::power2::lemma_pow2_unfold(l as nat);
        assert(8 * (pow2((l - 1) as nat) * pow2((l - 1) as nat)) + 6 * (pow2(l as nat) * pow2(
            l as nat,
        )) <= 8 * (pow2(l as nat) * pow2(l as nat))) by (nonlinear_arith)
            requires
                pow2(l as nat) == 2 * pow2((l - 1) as nat),
                pow2((l - 1) as nat) >= 0,
        ;
    }
}

/// Number of tiles a full extraction of the dataset produces, for progress
/// reporting.
pub fn total_tile_count(max_level: u8) -> (r: u64)
    requires
        max_level <= 14,
    ensures
        r == tile_count_spec(max_level),
{
    let mut count: u64 = 6;
    let mut l: u8 = 0;
    while l < max_level
        invariant
            max_level <= 14,
            l <= max_level,
            count == tile_count_spec(l),
        decreases max_level - l,
    {
        proof {
            lemma_tile_count_bound(l);
            lemma2_to64();
            if (l as nat) < 14nat {
                lemma_pow2_strictly_increases(l as nat, 14nat);
            }
            assert(pow2(l as nat) <= 0x4000);
            assert(pow2(l as nat) * pow2(l as nat) <= 0x4000 * 0x4000) by (nonlinear_arith)
                requires
                    0 <= pow2(l as nat) <= 0x4000,
            ;
        }
        proof {
            lemma2_to64();
            if ((l + 1) as nat) < 14nat {
                lemma_pow2_strictly_increases((l + 1) as nat, 14nat);
            }
            assert(pow2((l + 1) as nat) <= 0x4000);
            assert(pow2((l + 1) as nat) * pow2((l + 1) as nat) <= 0x4000 * 0x4000)
                by (nonlinear_arith)
                requires
                    0 <= pow2((l + 1) as nat) <= 0x4000,
            ;
        }
        let side: u32 = crate::grid::pow2_u32(l + 1);
        let nodes: u64 = (side as u64) * (side as u64);
        count = count + 6 * nodes;
        l = l + 1;
    }
    count
}

} // verus!
