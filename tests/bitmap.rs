use game_sync::bitmap::{parse_bitmap, split_words, BitmapError};
use game_sync::codec::parse_decimal;
use game_sync::geometry::Color;

#[test]
fn words_skip_comments_and_whitespace() {
    let w = split_words(b"P3 # a comment 7\n2\t1\n255 1 2 3#x\n4 5 6");
    let expect: Vec<Vec<u8>> = ["P3", "2", "1", "255", "1", "2", "3", "4", "5", "6"]
        .iter()
        .map(|s| s.as_bytes().to_vec())
        .collect();
    assert_eq!(w, expect);
}

#[test]
fn reads_a_small_bitmap() {
    let img = parse_bitmap(b"P3\n# two pixels\n2 1\n255\n255 0 0  0 255 0\n").unwrap();
    assert_eq!((img.width, img.height), (2, 1));
    assert_eq!(img.pixels, vec![Color::new(255, 0, 0), Color::new(0, 255, 0)]);
}

#[test]
fn leftover_words_after_last_triplet_are_ignored() {
    let img = parse_bitmap(b"P3 1 1 255 1 2 3 4 5").unwrap();
    assert_eq!(img.pixels, vec![Color::new(1, 2, 3)]);
}

#[test]
fn each_error_kind() {
    assert_eq!(parse_bitmap(b"P6 1 1 255 0 0 0").err(), Some(BitmapError::BadTag));
    assert_eq!(parse_bitmap(b"").err(), Some(BitmapError::BadTag));
    assert_eq!(parse_bitmap(b"P3 1").err(), Some(BitmapError::BadSize));
    assert_eq!(parse_bitmap(b"P3 x 1 255").err(), Some(BitmapError::BadSize));
    assert_eq!(parse_bitmap(b"P3 1 1 100 0 0 0").err(), Some(BitmapError::BadMaxValue));
    assert_eq!(parse_bitmap(b"P3 1 1").err(), Some(BitmapError::BadMaxValue));
    assert_eq!(parse_bitmap(b"P3 1 1 255 0 256 0").err(), Some(BitmapError::BadChannel));
    assert_eq!(parse_bitmap(b"P3 2 1 255 0 0 0").err(), Some(BitmapError::PixelCountMismatch));
}

#[test]
fn decimal_words() {
    assert_eq!(parse_decimal(&b"255".to_vec(), 255), Some(255));
    assert_eq!(parse_decimal(&b"256".to_vec(), 255), None);
    assert_eq!(parse_decimal(&b"".to_vec(), 255), None);
    assert_eq!(parse_decimal(&b"18446744073709551615".to_vec(), u64::MAX), Some(u64::MAX));
    assert_eq!(parse_decimal(&b"18446744073709551616".to_vec(), u64::MAX), None);
}
