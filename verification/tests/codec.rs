use terra::codec::{decode_sector_level, encode_sector_level, encode_tile};
use terra::PipelineError;

#[test]
fn sector_level_round_trips_through_tiff() {
    let data: Vec<i16> = (0..81).map(|i| (i * 31 % 257) as i16 - 100).collect();
    let bytes = encode_sector_level(&data, 9).unwrap();
    assert!(!bytes.is_empty());
    let decoded = decode_sector_level(&bytes, 9).unwrap();
    assert_eq!(decoded, data);
}

#[test]
fn uniform_sector_level_becomes_single_sample_file() {
    let data: Vec<i16> = vec![42; 65 * 65];
    let bytes = encode_sector_level(&data, 65).unwrap();
    let decoded = decode_sector_level(&bytes, 65).unwrap();
    assert_eq!(decoded, vec![42]);
}

#[test]
fn uniform_encoding_is_smaller_than_full_encoding() {
    let uniform: Vec<i16> = vec![-3; 65 * 65];
    let varied: Vec<i16> = (0..65 * 65).map(|i| (i % 97) as i16).collect();
    let small = encode_sector_level(&uniform, 65).unwrap();
    let large = encode_sector_level(&varied, 65).unwrap();
    assert!(small.len() < large.len());
}

#[test]
fn encoding_runs_are_byte_identical() {
    let data: Vec<i16> = (0..81).map(|i| (i * 7 % 64) as i16).collect();
    let first = encode_sector_level(&data, 9).unwrap();
    let second = encode_sector_level(&data, 9).unwrap();
    assert_eq!(first, second);
}

#[test]
fn all_zero_tile_is_written_empty() {
    let data: Vec<i16> = vec![0; 516 * 516];
    let bytes = encode_tile(&data, 516).unwrap();
    assert!(bytes.is_empty());
}

#[test]
fn nonzero_tile_round_trips_through_tiff() {
    let mut data: Vec<i16> = vec![0; 516 * 516];
    data[12345] = 77;
    data[0] = -1;
    let bytes = encode_tile(&data, 516).unwrap();
    assert!(!bytes.is_empty());
    let decoded = decode_sector_level(&bytes, 516).unwrap();
    assert_eq!(decoded, data);
}

#[test]
fn garbage_bytes_fail_to_decode() {
    let bytes = vec![1u8, 2, 3, 4, 5, 6, 7, 8];
    assert_eq!(decode_sector_level(&bytes, 9), Err(PipelineError::DecodeFailed));
}

#[test]
fn decoded_raster_of_unexpected_shape_is_rejected() {
    let data: Vec<i16> = (0..81).map(|i| i as i16).collect();
    let bytes = encode_sector_level(&data, 9).unwrap();
    // A 9x9 raster is neither the 1x1 degenerate shape nor a full 10x10.
    assert_eq!(decode_sector_level(&bytes, 10), Err(PipelineError::DecodeFailed));
}
