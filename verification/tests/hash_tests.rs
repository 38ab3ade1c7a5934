use dupwalker::hasher::{ahash, ahash_of_grid, dhash, dhash_of_grid, AHasher, DHasher, Hasher};
use dupwalker::status_mgr::{ImageData, StatusMgr};
use image::{DynamicImage, GrayImage, Luma, Rgb, RgbImage};

#[test]
fn ahash_of_rising_levels_sets_upper_half() {
    // Levels 0..63: the sum is 2016, the mean 31, so levels 32..63 are above it.
    let levels: Vec<u16> = (0..64).collect();
    assert_eq!(ahash_of_grid(&levels), 0x0000_0000_FFFF_FFFF);
}

#[test]
fn ahash_of_flat_levels_is_zero() {
    let levels = vec![1000u16; 64];
    assert_eq!(ahash_of_grid(&levels), 0);
}

#[test]
fn ahash_first_level_is_most_significant_bit() {
    let mut levels = vec![0u16; 64];
    levels[0] = 640;
    // The mean is 10; only the first level is above it.
    assert_eq!(ahash_of_grid(&levels), 1 << 63);
}

#[test]
fn ahash_mean_is_rounded_down() {
    let mut levels = vec![1u16; 64];
    levels[63] = 2;
    // The sum is 65, the mean rounds down to 1, so the last level is above it.
    assert_eq!(ahash_of_grid(&levels), 1);
}

#[test]
fn ahash_of_maximal_levels_does_not_overflow() {
    let mut levels = vec![u16::MAX; 64];
    levels[5] = 0;
    let expected = u64::MAX & !(1u64 << (63 - 5));
    assert_eq!(ahash_of_grid(&levels), expected);
}

#[test]
fn dhash_of_falling_rows_is_all_ones() {
    let mut levels = Vec::new();
    for _row in 0..8 {
        for col in 0..9u16 {
            levels.push(9 - col);
        }
    }
    assert_eq!(dhash_of_grid(&levels), u64::MAX);
}

#[test]
fn dhash_of_rising_rows_is_zero() {
    let mut levels = Vec::new();
    for _row in 0..8 {
        for col in 0..9u16 {
            levels.push(col);
        }
    }
    assert_eq!(dhash_of_grid(&levels), 0);
}

#[test]
fn dhash_first_row_is_top_byte() {
    let mut levels = vec![5u16; 72];
    for col in 0..9 {
        levels[col] = 100 - col as u16;
    }
    assert_eq!(dhash_of_grid(&levels), 0xFF00_0000_0000_0000);
}

#[test]
fn dhash_compares_only_within_a_row() {
    let mut levels = vec![0u16; 72];
    // The last level of row 0 is above the first level of row 1: no bit.
    levels[8] = 7;
    // Level 3 of row 2 is above its right neighbour: bit 8 * 2 + 3.
    levels[9 * 2 + 3] = 1;
    assert_eq!(dhash_of_grid(&levels), 1u64 << (63 - 19));
}

fn half_bright(width: u32, height: u32) -> DynamicImage {
    let img = GrayImage::from_fn(width, height, |x, _y| if x < width / 2 { Luma([255u8]) } else { Luma([0u8]) });
    DynamicImage::ImageLuma8(img)
}

#[test]
fn ahash_of_uniform_image_is_zero() {
    let img = DynamicImage::ImageLuma8(GrayImage::from_pixel(32, 32, Luma([77u8])));
    assert_eq!(ahash(&img), 0);
    assert_eq!(dhash(&img), 0);
}

#[test]
fn ahash_of_half_bright_image_sets_left_columns() {
    let img = half_bright(64, 64);
    assert_eq!(ahash(&img), 0xF0F0_F0F0_F0F0_F0F0);
}

#[test]
fn dhash_of_half_bright_image_marks_the_edge() {
    let img = half_bright(72, 64);
    let hash = dhash(&img);
    // Each row falls from bright to dark once, somewhere in the middle.
    for row in 0..8 {
        let byte = (hash >> (56 - 8 * row)) & 0xFF;
        assert_ne!(byte, 0);
    }
    assert_eq!(hash & 0x8080_8080_8080_8080, 0);
}

#[test]
fn hash_setter_then_getter_reads_back() {
    let mut mgr = StatusMgr::default();
    let path = "/photos/a.jpg".to_string();
    assert_eq!(AHasher.hash_getter(&mgr, &path), None);
    AHasher.hash_setter(&mut mgr, path.clone(), 42);
    assert_eq!(AHasher.hash_getter(&mgr, &path), Some(42));
    assert_eq!(DHasher.hash_getter(&mgr, &path), None);
    DHasher.hash_setter(&mut mgr, path.clone(), 7);
    assert_eq!(DHasher.hash_getter(&mgr, &path), Some(7));
    assert_eq!(AHasher.hash_getter(&mgr, &path), Some(42));
}

#[test]
fn hasher_hash_matches_free_functions() {
    let img = half_bright(64, 64);
    assert_eq!(AHasher.hash(&img), ahash(&img));
    assert_eq!(DHasher.hash(&img), dhash(&img));
}

#[test]
fn needs_hash_follows_the_stored_hash() {
    let none = ImageData { a_hash: None, d_hash: None };
    let only_a = ImageData { a_hash: Some(1), d_hash: None };
    let both = ImageData { a_hash: Some(1), d_hash: Some(2) };
    assert!(AHasher.needs_hash(&none));
    assert!(DHasher.needs_hash(&none));
    assert!(!AHasher.needs_hash(&only_a));
    assert!(DHasher.needs_hash(&only_a));
    assert!(!AHasher.needs_hash(&both));
    assert!(!DHasher.needs_hash(&both));
}

#[test]
fn decoded_color_image_is_hashed_in_gray() {
    let img = RgbImage::from_fn(64, 64, |x, _y| if x < 32 { Rgb([255u8, 255, 255]) } else { Rgb([0u8, 0, 0]) });
    let img = DynamicImage::ImageRgb8(img);
    let gray = dupwalker::hasher::grayscale(&img);
    assert!(matches!(gray, DynamicImage::ImageLuma8(_)));
    assert_eq!(dupwalker::hasher::ahash_of_decoded(&img), 0xF0F0_F0F0_F0F0_F0F0);
    assert_eq!(dupwalker::hasher::ahash_of_decoded(&img), ahash(&gray));
    assert_eq!(dupwalker::hasher::dhash_of_decoded(&img), dhash(&gray));
}
