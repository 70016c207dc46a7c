use terra::codec::decode_sector_level;
use terra::grid::{base_sector_resolution, pyramid_min_level, sector_resolution};
use terra::names::sector_filename;
use terra::pyramid::Reducer;
use terra::reproject::{
    missing_sectors, reproject_sector, sector_sample_positions, sector_sampling_frame,
};
use terra::sector::Sector;
use terra::PipelineError;

#[test]
fn base_resolution_matches_the_sector_grid() {
    // 512 tile-inner pixels shifted by the level, over 64 sector strides.
    assert_eq!(base_sector_resolution(3, true), Ok(65));
    assert_eq!(base_sector_resolution(3, false), Ok(64));
    assert_eq!(base_sector_resolution(0, true), Ok(9));
    assert_eq!(base_sector_resolution(12, false), Ok(32768));
}

#[test]
fn oversized_resolution_is_a_fatal_overflow() {
    assert_eq!(base_sector_resolution(13, false), Err(PipelineError::ResolutionOverflow));
    assert_eq!(base_sector_resolution(29, true), Err(PipelineError::ResolutionOverflow));
}

#[test]
fn minimum_level_is_the_one_kilometre_threshold() {
    assert_eq!(pyramid_min_level(0), 0);
    assert_eq!(pyramid_min_level(3), 3);
    assert_eq!(pyramid_min_level(4), 4);
    assert_eq!(pyramid_min_level(12), 4);
}

#[test]
fn sample_positions_cover_the_sector_row_major() {
    // Grid-registered: adjacent sectors share a border, so sector (1, 2)
    // starts at (res - 1) times its coordinates.
    let positions = sector_sample_positions(1, 2, 3, true);
    assert_eq!(positions.len(), 9);
    assert_eq!(positions[0], (2, 4));
    assert_eq!(positions[1], (3, 4));
    assert_eq!(positions[3], (2, 5));
    assert_eq!(positions[8], (4, 6));
    // Cell-registered: sectors tile without overlap.
    let positions = sector_sample_positions(1, 2, 3, false);
    assert_eq!(positions[0], (3, 6));
    assert_eq!(positions[8], (5, 8));
}

#[test]
fn sampling_frame_gives_border_and_span() {
    let (border, span) = sector_sampling_frame(9, true);
    assert_eq!(border, 4);
    assert_eq!(span, 8 * 65 + 1);
    let (border, span) = sector_sampling_frame(8, false);
    assert_eq!(border, 4);
    assert_eq!(span, 8 * 65);
}

#[test]
fn scan_skips_sectors_whose_files_all_exist() {
    let dataset = b"dem".to_vec();
    // Level 0 pyramids have a single level; sector (0, 3, 4) is complete.
    let existing = vec![sector_filename(&dataset, 0, 0, 3, 4)];
    let missing = missing_sectors(&existing, &dataset, 0);
    assert_eq!(missing.len(), 6 * 65 * 65 - 1);
    assert!(!missing.contains(&Sector { face: 0, x: 3, y: 4 }));
    assert!(missing.contains(&Sector { face: 0, x: 3, y: 5 }));
    assert!(missing.contains(&Sector { face: 5, x: 64, y: 64 }));
}

#[test]
fn sector_with_any_level_file_absent_stays_missing() {
    let dataset = b"dem".to_vec();
    // Levels 4 and 5 exist for max level 5, so a sector with only level 5
    // on disk is still missing.
    let existing = vec![sector_filename(&dataset, 1, 5, 7, 7)];
    let missing = missing_sectors(&existing, &dataset, 5);
    assert!(missing.contains(&Sector { face: 1, x: 7, y: 7 }));
    // With both levels present it is skipped.
    let existing = vec![
        sector_filename(&dataset, 1, 5, 7, 7),
        sector_filename(&dataset, 1, 4, 7, 7),
    ];
    let missing = missing_sectors(&existing, &dataset, 5);
    assert!(!missing.contains(&Sector { face: 1, x: 7, y: 7 }));
}

#[test]
fn reprojection_outputs_are_deterministic() {
    let dataset = b"dem".to_vec();
    let samples: Vec<i16> = (0..9 * 9).map(|i| (i * 13 % 101) as i16 - 50).collect();
    let first = reproject_sector(&dataset, 0, 3, 4, samples.clone(), 0, true, Reducer::Zero)
        .unwrap();
    let second = reproject_sector(&dataset, 0, 3, 4, samples, 0, true, Reducer::Zero).unwrap();
    assert_eq!(first.len(), 1);
    assert_eq!(second.len(), 1);
    assert_eq!(first[0].filename, second[0].filename);
    assert_eq!(first[0].bytes, second[0].bytes);
}

#[test]
fn reprojected_sector_files_carry_the_pyramid() {
    let dataset = b"dem".to_vec();
    // Grid-registered, max level 5: base resolution 257, levels 5 and 4.
    let res = base_sector_resolution(5, true).unwrap() as usize;
    assert_eq!(res, 257);
    let samples: Vec<i16> = (0..res * res).map(|i| (i % 251) as i16).collect();
    let outputs =
        reproject_sector(&dataset, 2, 10, 20, samples.clone(), 5, true, Reducer::Zero).unwrap();
    assert_eq!(outputs.len(), 2);
    assert_eq!(outputs[0].level, 5);
    assert_eq!(outputs[0].filename, sector_filename(&dataset, 2, 5, 10, 20));
    assert_eq!(outputs[1].level, 4);
    assert_eq!(outputs[1].filename, sector_filename(&dataset, 2, 4, 10, 20));
    // The persisted level 5 raster decodes back to the sampled data.
    let full = decode_sector_level(&outputs[0].bytes, 257).unwrap();
    assert_eq!(full, samples);
    // The persisted level 4 raster is the decimation of level 5.
    let half_res = sector_resolution(4, true) as usize;
    let half = decode_sector_level(&outputs[1].bytes, half_res as u32).unwrap();
    assert_eq!(half.len(), half_res * half_res);
    for y in 0..half_res {
        for x in 0..half_res {
            assert_eq!(half[y * half_res + x], samples[(2 * y) * 257 + 2 * x]);
        }
    }
}

#[test]
fn uniform_samples_reproject_to_single_sample_files() {
    let dataset = b"dem".to_vec();
    let samples: Vec<i16> = vec![-1; 9 * 9];
    let outputs = reproject_sector(&dataset, 0, 0, 0, samples, 0, true, Reducer::Zero).unwrap();
    assert_eq!(outputs.len(), 1);
    let decoded = decode_sector_level(&outputs[0].bytes, 9).unwrap();
    assert_eq!(decoded, vec![-1]);
}
