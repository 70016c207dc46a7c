//! Mipmap pyramid construction for sector rasters.
//!
//! The full-resolution raster of a sector is sampled once, at the dataset's
//! maximum level; every coarser level is derived from the level below it.
//! Grid-registered data is decimated (every other row and column), which
//! keeps sample points aligned on the borders that adjacent sectors share;
//! cell-registered data is reduced 4-to-1 over 2x2 blocks by the dataset's
//! configured reducer.

use vstd::arithmetic::div_mod::lemma_fundamental_div_mod;
use vstd::arithmetic::div_mod::lemma_mod_bound;
use vstd::arithmetic::mul::lemma_mul_inequality;
use vstd::arithmetic::power2::lemma_pow2_unfold;
use vstd::arithmetic::power2::pow2;
use vstd::prelude::*;

use crate::grid::sector_resolution_spec;

verus! {

/// The closed set of 4-to-1 reduction strategies a dataset can be configured
/// with, applied to each 2x2 block when downsampling cell-registered data.
#[derive(Clone, Copy, Debug, PartialEq, Eq, Structural)]
pub enum Reducer {
    /// Arithmetic mean of the four samples, rounded towards minus infinity.
    Mean,
    /// Smallest of the four samples.
    Least,
    /// Largest of the four samples.
    Greatest,
    /// The constant zero, for datasets whose coarse levels are rebuilt by
    /// other means.
    Zero,
}

/// What the reducer yields on one 2x2 block, given in source order: top-left,
/// bottom-left, top-right, bottom-right.
pub open spec fn reduce_spec(r: Reducer, a: i16, b: i16, c: i16, d: i16) -> i16 {
    match r {
        Reducer::Mean => ((a + b + c + d) / 4) as i16,
        Reducer::Least => min4(a, b, c, d),
        Reducer::Greatest => max4(a, b, c, d),
        Reducer::Zero => 0i16,
    }
}

/// Smallest of four samples.
pub open spec fn min4(a: i16, b: i16, c: i16, d: i16) -> i16 {
    min2(min2(a, b), min2(c, d))
}

/// Largest of four samples.
pub open spec fn max4(a: i16, b: i16, c: i16, d: i16) -> i16 {
    max2(max2(a, b), max2(c, d))
}

pub open spec fn min2(a: i16, b: i16) -> i16 {
    if a < b {
        a
    } else {
        b
    }
}

pub open spec fn max2(a: i16, b: i16) -> i16 {
    if a > b {
        a
    } else {
        b
    }
}

impl Reducer {
    /// Reduces one 2x2 block to a single sample.
    pub fn apply(self, a: i16, b: i16, c: i16, d: i16) -> (r: i16)
        ensures
            r == reduce_spec(self, a, b, c, d),
    {
        match self {
            Reducer::Mean => {
                let sum: i32 = a as i32 + b as i32 + c as i32 + d as i32;
                let q = sum.checked_div_euclid(4).unwrap();
                q as i16
            },
            Reducer::Least => {
                let ab = if a < b {
                    a
                } else {
                    b
                };
                let cd = if c < d {
                    c
                } else {
                    d
                };
                if ab < cd {
                    ab
                } else {
                    cd
                }
            },
            Reducer::Greatest => {
                let ab = if a > b {
                    a
                } else {
                    b
                };
                let cd = if c > d {
                    c
                } else {
                    d
                };
                if ab > cd {
                    ab
                } else {
                    cd
                }
            },
            Reducer::Zero => 0,
        }
    }
}

/// Resolution left by one grid-registered decimation step: sample points sit
/// on cell corners, so the shared border pixel survives the halving.
pub open spec fn half_resolution_grid(res: int) -> int {
    (res - 1) / 2 + 1
}

/// One grid-registered decimation step: every other row and column of a
/// square raster, keeping row 0 and column 0.
pub open spec fn grid_decimate_spec(data: Seq<i16>, res: int) -> Seq<i16>
    recommends
        res >= 1,
        res % 2 == 1,
        data.len() == res * res,
{
    let half = half_resolution_grid(res);
    Seq::new((half * half) as nat, |k: int| data[(k / half) * 2 * res + (k % half) * 2])
}

/// One cell-registered reduction step: each 2x2 block of a square raster
/// collapsed by the reducer.
pub open spec fn cell_reduce_spec(r: Reducer, data: Seq<i16>, res: int) -> Seq<i16>
    recommends
        res >= 2,
        data.len() == res * res,
{
    let half = res / 2;
    Seq::new(
        (half * half) as nat,
        |k: int|
            {
                let x = k % half;
                let y = k / half;
                reduce_spec(
                    r,
                    data[2 * y * res + 2 * x],
                    data[(2 * y + 1) * res + 2 * x],
                    data[2 * y * res + 2 * x + 1],
                    data[(2 * y + 1) * res + 2 * x + 1],
                )
            },
    )
}

/// Index bounds for the samples one output pixel of a downsampling step
/// reads.
proof fn lemma_block_index_bounds(k: int, half: int, res: int)
    requires
        0 <= k < half * half,
        half >= 1,
        2 * half <= res + 1,
    ensures
        0 <= k / half < half,
        0 <= k % half < half,
        (k / half) * 2 * res + (k % half) * 2 < res * res,
        2 * half <= res ==> 2 * (k / half) * res + 2 * (k % half) + 1 < res * res,
        2 * half <= res ==> (2 * (k / half) + 1) * res + 2 * (k % half) + 1 < res * res,
{
    lemma_mod_bound(k, half);
    vstd::arithmetic::div_mod::lemma_multiply_divide_lt(k, half, half);
    vstd::arithmetic::div_mod::lemma_div_pos_is_pos(k, half);
    let y = k / half;
    let x = k % half;
    assert(y <= half - 1);
    assert(x <= half - 1);
    assert(y * 2 * res <= (half - 1) * 2 * res) by {
        lemma_mul_inequality(y * 2, (half - 1) * 2, res);
    }
    assert((half - 1) * 2 <= res - 1);
    assert((half - 1) * 2 * res <= (res - 1) * res) by {
        lemma_mul_inequality((half - 1) * 2, res - 1, res);
    }
    assert(y * 2 * res + x * 2 <= (res - 1) * res + (res - 1));
    assert((res - 1) * res + (res - 1) < res * res) by (nonlinear_arith)
        requires
            res >= 1,
    ;
    if 2 * half <= res {
        assert(2 * y + 1 <= 2 * half - 1 <= res - 1);
        assert((2 * y + 1) * res <= (res - 1) * res) by {
            lemma_mul_inequality(2 * y + 1, res - 1, res);
        }
        assert(2 * x + 1 <= 2 * half - 1 <= res - 1);
        assert((2 * y + 1) * res == 2 * y * res + res) by (nonlinear_arith);
        assert((2 * y + 1) * res + 2 * x + 1 < res * res);
        assert(2 * y * res + 2 * x + 1 < res * res);
    }
}

/// Decimates a grid-registered square raster to half resolution.
pub fn downsample_grid(data: &Vec<i16>, res: usize) -> (r: Vec<i16>)
    requires
        res >= 1,
        res % 2 == 1,
        data@.len() == res * res,
    ensures
        r@ == grid_decimate_spec(data@, res as int),
        r@.len() == half_resolution_grid(res as int) * half_resolution_grid(res as int),
{
    let half: usize = (res - 1) / 2 + 1;
    let _len_bound = data.len();
    proof {
        assert(half * half <= res * res) by (nonlinear_arith)
            requires
                0 <= half <= res,
        ;
        assert(2 * half == res + 1) by {
            lemma_fundamental_div_mod(res as int - 1, 2);
        }
    }
    let count = half * half;
    let mut out: Vec<i16> = Vec::with_capacity(count);
    let mut k: usize = 0;
    while k < count
        invariant
            half == half_resolution_grid(res as int),
            count == half * half,
            2 * half == res + 1,
            half >= 1,
            data@.len() == res * res,
            res * res <= usize::MAX,
            out@.len() == k,
            k <= count,
            forall|j: int|
                0 <= j < k ==> out@[j] == #[trigger] grid_decimate_spec(data@, res as int)[j],
        decreases count - k,
    {
        proof {
            lemma_block_index_bounds(k as int, half as int, res as int);
        }
        let v = data[(k / half) * 2 * res + (k % half) * 2];
        out.push(v);
        k = k + 1;
    }
    assert(out@ =~= grid_decimate_spec(data@, res as int));
    out
}

/// Reduces a cell-registered square raster to half resolution with the given
/// reducer.
pub fn downsample_cell(red: Reducer, data: &Vec<i16>, res: usize) -> (r: Vec<i16>)
    requires
        res >= 2,
        data@.len() == res * res,
    ensures
        r@ == cell_reduce_spec(red, data@, res as int),
        r@.len() == (res as int / 2) * (res as int / 2),
{
    let half: usize = res / 2;
    let _len_bound = data.len();
    proof {
        assert(half * half <= res * res) by (nonlinear_arith)
            requires
                0 <= half <= res,
        ;
        assert(2 * half <= res) by {
            lemma_fundamental_div_mod(res as int, 2);
        }
    }
    let count = half * half;
    let mut out: Vec<i16> = Vec::with_capacity(count);
    let mut k: usize = 0;
    while k < count
        invariant
            half == res as int / 2,
            count == half * half,
            2 * half <= res,
            half >= 1,
            data@.len() == res * res,
            res * res <= usize::MAX,
            out@.len() == k,
            k <= count,
            forall|j: int|
                0 <= j < k ==> out@[j] == #[trigger] cell_reduce_spec(red, data@, res as int)[j],
        decreases count - k,
    {
        proof {
            lemma_block_index_bounds(k as int, half as int, res as int);
        }
        let y = k / half;
        let x = k % half;
        let a = data[2 * y * res + 2 * x];
        let b = data[(2 * y + 1) * res + 2 * x];
        let c = data[2 * y * res + 2 * x + 1];
        let d = data[(2 * y + 1) * res + 2 * x + 1];
        let v = red.apply(a, b, c, d);
        out.push(v);
        k = k + 1;
    }
    assert(out@ =~= cell_reduce_spec(red, data@, res as int));
    out
}

/// One pyramid level of a sector: the raster of the sector at `level`.
pub struct PyramidLevel {
    pub level: u8,
    pub resolution: usize,
    pub data: Vec<i16>,
}

/// Data and resolution left by one downsampling step under the dataset's
/// registration mode.
pub open spec fn pyramid_step(reg: bool, red: Reducer, data: Seq<i16>, res: int) -> (Seq<i16>, int) {
    if reg {
        (grid_decimate_spec(data, res), half_resolution_grid(res))
    } else {
        (cell_reduce_spec(red, data, res), res / 2)
    }
}

/// Data and resolution `i` downsampling steps below the base raster.
pub open spec fn pyramid_at(
    reg: bool,
    red: Reducer,
    base: Seq<i16>,
    base_res: int,
    i: nat,
) -> (Seq<i16>, int)
    decreases i,
{
    if i == 0 {
        (base, base_res)
    } else {
        let prev = pyramid_at(reg, red, base, base_res, (i - 1) as nat);
        pyramid_step(reg, red, prev.0, prev.1)
    }
}

/// One step down from the resolution of level `l` is the resolution of level
/// `l - 1`.
proof fn lemma_resolution_step(reg: bool, l: nat)
    requires
        l >= 1,
    ensures
        reg ==> half_resolution_grid(sector_resolution_spec(l, true)) == sector_resolution_spec(
            (l - 1) as nat,
            true,
        ),
        !reg ==> sector_resolution_spec(l, false) / 2 == sector_resolution_spec(
            (l - 1) as nat,
            false,
        ),
{
    lemma_pow2_unfold(l);
}

/// Law of pyramid consistency: wherever one pyramid level is the downsample
/// of the level below it — as `build_pyramid` ensures of every adjacent
/// pair — each of its pixels equals the defined function of the
/// corresponding samples below: the top-left sample of the 2x2 block for
/// grid-registered data, the reducer applied to the whole block for
/// cell-registered data.
pub proof fn lemma_pyramid_consistency(
    grid_registration: bool,
    red: Reducer,
    fine: Seq<i16>,
    fine_res: int,
    coarse: Seq<i16>,
    x: int,
    y: int,
)
    requires
        coarse == pyramid_step(grid_registration, red, fine, fine_res).0,
        fine_res >= 2,
        fine.len() == fine_res * fine_res,
        0 <= x < pyramid_step(grid_registration, red, fine, fine_res).1,
        0 <= y < pyramid_step(grid_registration, red, fine, fine_res).1,
    ensures
        ({
            let half = pyramid_step(grid_registration, red, fine, fine_res).1;
            grid_registration ==> coarse[y * half + x] == fine[(2 * y) * fine_res + 2 * x]
        }),
        ({
            let half = pyramid_step(grid_registration, red, fine, fine_res).1;
            !grid_registration ==> coarse[y * half + x] == reduce_spec(
                red,
                fine[2 * y * fine_res + 2 * x],
                fine[(2 * y + 1) * fine_res + 2 * x],
                fine[2 * y * fine_res + 2 * x + 1],
                fine[(2 * y + 1) * fine_res + 2 * x + 1],
            )
        }),
{
    let half = pyramid_step(grid_registration, red, fine, fine_res).1;
    let k = y * half + x;
    assert(0 <= k < half * half) by (nonlinear_arith)
        requires
            k == y * half + x,
            0 <= x < half,
            0 <= y < half,
    ;
    vstd::arithmetic::div_mod::lemma_fundamental_div_mod_converse(k, half, y, x);
    assert(k / half == y && k % half == x);
}

/// Builds the sector pyramid from its base raster: level `max_level` is the
/// raster as sampled, and each coarser level, down to `min_level`, is the
/// downsample of the level below it — decimation for grid-registered data,
/// the reducer's 4-to-1 reduction for cell-registered data.
pub fn build_pyramid(
    base: Vec<i16>,
    min_level: u8,
    max_level: u8,
    grid_registration: bool,
    red: Reducer,
) -> (r: Vec<PyramidLevel>)
    requires
        min_level <= max_level,
        base@.len() == sector_resolution_spec(max_level as nat, grid_registration)
            * sector_resolution_spec(max_level as nat, grid_registration),
        sector_resolution_spec(max_level as nat, grid_registration) <= u32::MAX,
    ensures
        r@.len() == max_level - min_level + 1,
        forall|i: int|
            0 <= i < r@.len() ==> (#[trigger] r@[i]).level == max_level - i,
        forall|i: int|
            0 <= i < r@.len() ==> (#[trigger] r@[i]).resolution == sector_resolution_spec(
                (max_level - i) as nat,
                grid_registration,
            ),
        forall|i: int|
            0 <= i < r@.len() ==> ((#[trigger] r@[i]).data@, r@[i].resolution as int)
                == pyramid_at(grid_registration, red, base@, sector_resolution_spec(
                max_level as nat,
                grid_registration,
            ), i as nat),
        forall|i: int|
            1 <= i < r@.len() ==> ((#[trigger] r@[i]).data@, r@[i].resolution as int)
                == pyramid_step(grid_registration, red, r@[i - 1].data@, r@[i - 1].resolution as int),
        forall|i: int|
            0 <= i < r@.len() ==> (#[trigger] r@[i]).data@.len() == r@[i].resolution as int
                * r@[i].resolution as int,
{
    let ghost base_res_spec = sector_resolution_spec(max_level as nat, grid_registration);
    let ghost base_view = base@;
    proof {
        vstd::arithmetic::power2::lemma_pow2_pos(max_level as nat);
    }
    let _base_len = base.len();
    let base_res = crate::grid::sector_resolution(max_level, grid_registration);
    let base_res_usize: usize = base_res as usize;
    proof {
        assert(base_res_usize * base_res_usize == base@.len());
    }
    let mut out: Vec<PyramidLevel> = Vec::new();
    out.push(
        PyramidLevel { level: max_level, resolution: base_res_usize, data: base },
    );
    let steps: u8 = max_level - min_level;
    let mut i: u8 = 0;
    while i < steps
        invariant
            steps == max_level - min_level,
            i <= steps,
            out@.len() == i + 1,
            forall|j: int|
                0 <= j < out@.len() ==> (#[trigger] out@[j]).level == max_level - j,
            forall|j: int|
                0 <= j < out@.len() ==> (#[trigger] out@[j]).resolution == sector_resolution_spec(
                    (max_level - j) as nat,
                    grid_registration,
                ),
            forall|j: int|
                0 <= j < out@.len() ==> ((#[trigger] out@[j]).data@, out@[j].resolution as int)
                    == pyramid_at(grid_registration, red, base_view, base_res_spec, j as nat),
            forall|j: int|
                0 <= j < out@.len() ==> (#[trigger] out@[j]).data@.len() == out@[j].resolution as int
                    * out@[j].resolution as int,
        decreases steps - i,
    {
        let idx = out.len() - 1;
        proof {
            let l = (max_level - i) as nat;
            assert(l >= 1);
            lemma_resolution_step(grid_registration, l);
            vstd::arithmetic::power2::lemma_pow2_pos((l - 1) as nat);
            vstd::arithmetic::power2::lemma_pow2_unfold(l);
        }
        let prev_res = out[idx].resolution;
        let next_data = if grid_registration {
            downsample_grid(&out[idx].data, prev_res)
        } else {
            downsample_cell(red, &out[idx].data, prev_res)
        };
        let next_res = if grid_registration {
            (prev_res - 1) / 2 + 1
        } else {
            prev_res / 2
        };
        let next_level = max_level - i - 1;
        out.push(PyramidLevel { level: next_level, resolution: next_res, data: next_data });
        i = i + 1;
    }
    out
}

} // verus!
