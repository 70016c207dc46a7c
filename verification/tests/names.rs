use terra::names::{bytes_eq, contains_name, sector_filename, tile_filename};

#[test]
fn sector_filename_exact() {
    let dataset = b"dem".to_vec();
    let name = sector_filename(&dataset, 0, 3, 2, 5);
    assert_eq!(name, b"dem_S-0-03x02x05.tiff".to_vec());
}

#[test]
fn sector_filename_two_digit_fields() {
    let dataset = b"copernicus-hgt".to_vec();
    let name = sector_filename(&dataset, 5, 12, 64, 9);
    assert_eq!(name, b"copernicus-hgt_S-5-12x64x09.tiff".to_vec());
}

#[test]
fn tile_filename_exact() {
    let dataset = b"dem".to_vec();
    let name = tile_filename(&dataset, 3, 0, 2, 5);
    assert_eq!(name, b"dem_3_0_2x5.tiff".to_vec());
}

#[test]
fn tile_filename_wide_coordinates() {
    let dataset = b"dem".to_vec();
    let name = tile_filename(&dataset, 12, 4, 4095, 107);
    assert_eq!(name, b"dem_12_4_4095x107.tiff".to_vec());
}

#[test]
fn bytes_eq_behaviour() {
    assert!(bytes_eq(&b"abc".to_vec(), &b"abc".to_vec()));
    assert!(!bytes_eq(&b"abc".to_vec(), &b"abd".to_vec()));
    assert!(!bytes_eq(&b"abc".to_vec(), &b"ab".to_vec()));
    assert!(bytes_eq(&Vec::new(), &Vec::new()));
}

#[test]
fn contains_name_behaviour() {
    let names = vec![b"one.tiff".to_vec(), b"two.tiff".to_vec()];
    assert!(contains_name(&names, &b"one.tiff".to_vec()));
    assert!(contains_name(&names, &b"two.tiff".to_vec()));
    assert!(!contains_name(&names, &b"three.tiff".to_vec()));
    assert!(!contains_name(&Vec::new(), &b"one.tiff".to_vec()));
}
