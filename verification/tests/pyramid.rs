use terra::pyramid::{build_pyramid, downsample_cell, downsample_grid, Reducer};

#[test]
fn grid_decimation_keeps_every_other_sample() {
    let data: Vec<i16> = vec![1, 2, 3, 4, 5, 6, 7, 8, 9];
    let half = downsample_grid(&data, 3);
    assert_eq!(half, vec![1, 3, 7, 9]);
}

#[test]
fn grid_decimation_five_to_three() {
    let data: Vec<i16> = (0..25).collect();
    let half = downsample_grid(&data, 5);
    assert_eq!(half, vec![0, 2, 4, 10, 12, 14, 20, 22, 24]);
}

#[test]
fn cell_reduction_applies_reducer_per_block() {
    // One 2x2 block per quadrant of a 4x4 raster.
    let data: Vec<i16> = vec![1, 2, 3, 4, 5, 6, 7, 8, 9, 10, 11, 12, 13, 14, 15, 16];
    let least = downsample_cell(Reducer::Least, &data, 4);
    assert_eq!(least, vec![1, 3, 9, 11]);
    let greatest = downsample_cell(Reducer::Greatest, &data, 4);
    assert_eq!(greatest, vec![6, 8, 14, 16]);
    let mean = downsample_cell(Reducer::Mean, &data, 4);
    // Block (1, 2, 5, 6) has mean 3; block order follows the raster.
    assert_eq!(mean, vec![3, 5, 11, 13]);
    let zero = downsample_cell(Reducer::Zero, &data, 4);
    assert_eq!(zero, vec![0, 0, 0, 0]);
}

#[test]
fn mean_reducer_rounds_towards_minus_infinity() {
    assert_eq!(Reducer::Mean.apply(-1, -1, -1, -2), -2);
    assert_eq!(Reducer::Mean.apply(1, 1, 1, 2), 1);
    assert_eq!(Reducer::Mean.apply(-32768, -32768, -32768, -32768), -32768);
    assert_eq!(Reducer::Mean.apply(32767, 32767, 32767, 32767), 32767);
}

#[test]
fn pyramid_levels_are_decimations_of_the_level_below() {
    // Grid-registered, max level 5: base resolution 257, and one coarser
    // level at resolution 129 (the one-kilometre threshold level is 4).
    let base: Vec<i16> = (0..257 * 257).map(|i| (i % 251) as i16).collect();
    let levels = build_pyramid(base.clone(), 4, 5, true, Reducer::Zero);
    assert_eq!(levels.len(), 2);
    assert_eq!(levels[0].level, 5);
    assert_eq!(levels[0].resolution, 257);
    assert_eq!(levels[0].data, base);
    assert_eq!(levels[1].level, 4);
    assert_eq!(levels[1].resolution, 129);
    for y in 0..129 {
        for x in 0..129 {
            assert_eq!(levels[1].data[y * 129 + x], base[(2 * y) * 257 + 2 * x]);
        }
    }
}

#[test]
fn pyramid_levels_reduce_cell_registered_blocks() {
    // Cell-registered, max level 5: base resolution 256, one coarser level
    // at 128, reduced by the mean of each 2x2 block.
    let base: Vec<i16> = (0..256 * 256).map(|i| (i % 17) as i16).collect();
    let levels = build_pyramid(base.clone(), 4, 5, false, Reducer::Mean);
    assert_eq!(levels.len(), 2);
    assert_eq!(levels[0].resolution, 256);
    assert_eq!(levels[1].resolution, 128);
    for y in 0..128 {
        for x in 0..128 {
            let a = base[(2 * y) * 256 + 2 * x] as i32;
            let b = base[(2 * y + 1) * 256 + 2 * x] as i32;
            let c = base[(2 * y) * 256 + 2 * x + 1] as i32;
            let d = base[(2 * y + 1) * 256 + 2 * x + 1] as i32;
            let want = (a + b + c + d).div_euclid(4) as i16;
            assert_eq!(levels[1].data[y * 128 + x], want);
        }
    }
}

#[test]
fn uniform_base_stays_uniform_down_the_pyramid() {
    let base: Vec<i16> = vec![-7; 257 * 257];
    let levels = build_pyramid(base, 4, 5, true, Reducer::Zero);
    for level in &levels {
        assert!(level.data.iter().all(|&v| v == -7));
    }
}
