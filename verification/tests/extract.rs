use terra::cache::{CacheOutcome, SectorCache};
use terra::codec::{decode_sector_level, encode_sector_level, encode_tile};
use terra::extract::{
    composite_tile, compute_tile_layout, covering_sectors, missing_tiles, total_tile_count,
};
use terra::names::tile_filename;
use terra::sector::{Sector, TileNode};

#[test]
fn layout_of_a_node_at_the_minimum_level() {
    // Dataset with max level 3 is grid-registered, so the pyramid stops at
    // level 3 and the node reads it at stride 1.
    let node = TileNode { face: 0, level: 3, x: 2, y: 5 };
    let l = compute_tile_layout(node, 3, true);
    assert_eq!(l.step, 1);
    assert_eq!(l.sector_level, 3);
    assert_eq!(l.sector_inner_resolution, 64);
    assert_eq!(l.sector_resolution, 65);
    assert_eq!(l.root_x, 2 * 512 + 32 - 2);
    assert_eq!(l.root_y, 5 * 512 + 32 - 2);
}

#[test]
fn layout_of_a_coarse_node_reads_at_a_stride() {
    // A root node of a max-level-5 dataset reads the level 4 pyramid at
    // stride 16.
    let node = TileNode { face: 1, level: 0, x: 0, y: 0 };
    let l = compute_tile_layout(node, 5, false);
    assert_eq!(l.step, 16);
    assert_eq!(l.sector_level, 4);
    assert_eq!(l.sector_inner_resolution, 128);
    assert_eq!(l.sector_resolution, 128);
    assert_eq!(l.root_x, 64 - 32);
    assert_eq!(l.root_y, 64 - 32);
}

#[test]
fn covering_rectangle_is_exact_and_duplicate_free() {
    let node = TileNode { face: 0, level: 3, x: 2, y: 5 };
    let l = compute_tile_layout(node, 3, true);
    let sectors = covering_sectors(&l, 0);
    // root (1054, 2590), span 515: columns 16..=24, rows 40..=48.
    assert_eq!(sectors.len(), 81);
    for sx in 16..=24u32 {
        for sy in 40..=48u32 {
            assert!(sectors.contains(&Sector { face: 0, x: sx, y: sy }));
        }
    }
    assert!(!sectors.contains(&Sector { face: 0, x: 15, y: 40 }));
    assert!(!sectors.contains(&Sector { face: 0, x: 25, y: 48 }));
    assert!(!sectors.contains(&Sector { face: 0, x: 16, y: 39 }));
    assert!(!sectors.contains(&Sector { face: 0, x: 16, y: 49 }));
    for i in 0..sectors.len() {
        for j in i + 1..sectors.len() {
            assert_ne!(sectors[i], sectors[j]);
        }
    }
}

#[test]
fn tile_extraction_requests_each_covering_sector_once() {
    // Extract the tile of node (face 0, level 3, x 2, y 5) from a
    // max-level-3 grid-registered dataset, driving the sector cache:
    // exactly the 81 covering sectors are requested, each decoded once,
    // and the produced tile bytes are nonempty.
    let node = TileNode { face: 0, level: 3, x: 2, y: 5 };
    let l = compute_tile_layout(node, 3, true);
    let sectors = covering_sectors(&l, node.face);
    let mut cache = SectorCache::new(32);
    let mut decodes = 0;
    let mut rasters: Vec<(Sector, Vec<i16>)> = Vec::new();
    let sector_file: Vec<i16> = vec![7; 65 * 65];
    let bytes = encode_sector_level(&sector_file, 65).unwrap();
    for &s in sectors.iter() {
        match cache.get(s, l.sector_level) {
            CacheOutcome::StartLoad => {
                decodes += 1;
                let data = decode_sector_level(&bytes, l.sector_resolution).unwrap();
                cache.complete_load(s, l.sector_level, data);
            }
            _ => {}
        }
        rasters.push((s, cache.get_data(s, l.sector_level).clone()));
    }
    // A second pass over the same sectors starts no further decode.
    for &s in sectors.iter() {
        assert_eq!(cache.get(s, l.sector_level), CacheOutcome::Resident);
    }
    assert_eq!(decodes, sectors.len());
    let tile = composite_tile(&l, node.face, &rasters);
    assert_eq!(tile.len(), 516 * 516);
    let bytes = encode_tile(&tile, 516).unwrap();
    assert!(!bytes.is_empty());
}

#[test]
fn uniform_sector_fills_the_whole_tile() {
    // A uniform sector is persisted as a 1x1 file, and a tile extracted
    // from it is filled with that single value.
    let node = TileNode { face: 2, level: 3, x: 3, y: 3 };
    let l = compute_tile_layout(node, 3, true);
    let uniform: Vec<i16> = vec![5; 65 * 65];
    let bytes = encode_sector_level(&uniform, 65).unwrap();
    let decoded = decode_sector_level(&bytes, l.sector_resolution).unwrap();
    assert_eq!(decoded.len(), 1);
    let rasters: Vec<(Sector, Vec<i16>)> = covering_sectors(&l, node.face)
        .iter()
        .map(|&s| (s, decoded.clone()))
        .collect();
    let tile = composite_tile(&l, node.face, &rasters);
    assert!(tile.iter().all(|&v| v == 5));
}

#[test]
fn all_zero_sectors_produce_an_empty_tile_file() {
    let node = TileNode { face: 0, level: 3, x: 0, y: 0 };
    let l = compute_tile_layout(node, 3, true);
    let rasters: Vec<(Sector, Vec<i16>)> = covering_sectors(&l, node.face)
        .iter()
        .map(|&s| (s, vec![0i16]))
        .collect();
    let tile = composite_tile(&l, node.face, &rasters);
    assert!(tile.iter().all(|&v| v == 0));
    let bytes = encode_tile(&tile, 516).unwrap();
    assert!(bytes.is_empty());
}

#[test]
fn composite_reads_each_pixel_from_its_covering_sector() {
    // Give every covering sector a distinct uniform value and check a few
    // pixels land in the right sector.
    let node = TileNode { face: 0, level: 3, x: 2, y: 5 };
    let l = compute_tile_layout(node, 3, true);
    let rasters: Vec<(Sector, Vec<i16>)> = covering_sectors(&l, node.face)
        .iter()
        .map(|&s| (s, vec![(s.x * 100 + s.y) as i16]))
        .collect();
    let tile = composite_tile(&l, node.face, &rasters);
    // Pixel (0, 0) sits at face cell (1054, 2590): sector (16, 40).
    assert_eq!(tile[0], 16 * 100 + 40);
    // Pixel (515, 515) sits at face cell (1569, 3105): sector (24, 48).
    assert_eq!(tile[515 * 516 + 515], 24 * 100 + 48);
}

#[test]
fn missing_tiles_are_planned_deepest_level_first() {
    let dataset = b"dem".to_vec();
    let missing = missing_tiles(&Vec::new(), &dataset, 1);
    // Six faces: one root each, four children each.
    assert_eq!(missing.len(), 30);
    for n in missing.iter().take(24) {
        assert_eq!(n.level, 1);
    }
    for n in missing.iter().skip(24) {
        assert_eq!(n.level, 0);
    }
    for i in 0..missing.len() {
        for j in i + 1..missing.len() {
            assert_ne!(missing[i], missing[j]);
        }
    }
}

#[test]
fn existing_tile_files_are_skipped() {
    let dataset = b"dem".to_vec();
    let existing = vec![tile_filename(&dataset, 1, 0, 1, 0), tile_filename(&dataset, 0, 3, 0, 0)];
    let missing = missing_tiles(&existing, &dataset, 1);
    assert_eq!(missing.len(), 28);
    assert!(!missing.contains(&TileNode { face: 0, level: 1, x: 1, y: 0 }));
    assert!(!missing.contains(&TileNode { face: 3, level: 0, x: 0, y: 0 }));
    assert!(missing.contains(&TileNode { face: 0, level: 1, x: 0, y: 0 }));
}

#[test]
fn tile_totals_count_the_quadtree() {
    assert_eq!(total_tile_count(0), 6);
    assert_eq!(total_tile_count(1), 30);
    assert_eq!(total_tile_count(3), 6 * (1 + 4 + 16 + 64));
}
