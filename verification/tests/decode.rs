use quadtile::{quadkey_to_tile, QuadkeyError, Tile};

#[test]
fn test_quadkey_to_tile() {
    let key = String::from("0230102");
    let tile = quadkey_to_tile(key).unwrap();
    assert_eq!(tile.x, 20);
    assert_eq!(tile.y, 49);
    assert_eq!(tile.z, 7);
}

#[test]
fn empty_key_is_the_whole_map() {
    assert_eq!(
        quadkey_to_tile(String::new()),
        Ok(Tile { x: 0, y: 0, z: 0 })
    );
}

#[test]
fn each_digit_sets_its_bits() {
    assert_eq!(quadkey_to_tile(String::from("0")), Ok(Tile { x: 0, y: 0, z: 1 }));
    assert_eq!(quadkey_to_tile(String::from("1")), Ok(Tile { x: 1, y: 0, z: 1 }));
    assert_eq!(quadkey_to_tile(String::from("2")), Ok(Tile { x: 0, y: 1, z: 1 }));
    assert_eq!(quadkey_to_tile(String::from("3")), Ok(Tile { x: 1, y: 1, z: 1 }));
}

#[test]
fn first_digit_is_most_significant() {
    assert_eq!(quadkey_to_tile(String::from("100")), Ok(Tile { x: 4, y: 0, z: 3 }));
    assert_eq!(quadkey_to_tile(String::from("002")), Ok(Tile { x: 0, y: 1, z: 3 }));
    assert_eq!(quadkey_to_tile(String::from("213")), Ok(Tile { x: 3, y: 5, z: 3 }));
}

#[test]
fn leading_zeros_count_towards_the_zoom() {
    assert_eq!(quadkey_to_tile(String::from("0003")), Ok(Tile { x: 1, y: 1, z: 4 }));
    assert_eq!(quadkey_to_tile(String::from("3")), Ok(Tile { x: 1, y: 1, z: 1 }));
}

#[test]
fn deepest_key_fills_all_64_bits() {
    assert_eq!(
        quadkey_to_tile("3".repeat(64)),
        Ok(Tile { x: u64::MAX, y: u64::MAX, z: 64 })
    );
    assert_eq!(
        quadkey_to_tile(format!("1{}2", "0".repeat(62))),
        Ok(Tile { x: 1 << 63, y: 1, z: 64 })
    );
}

#[test]
fn digit_out_of_range_is_refused() {
    assert_eq!(
        quadkey_to_tile(String::from("0124")),
        Err(QuadkeyError::InvalidDigit { position: 3, found: '4' })
    );
    assert_eq!(
        quadkey_to_tile(String::from("9")),
        Err(QuadkeyError::InvalidDigit { position: 0, found: '9' })
    );
}

#[test]
fn first_stray_character_is_reported() {
    assert_eq!(
        quadkey_to_tile(String::from("01a2b")),
        Err(QuadkeyError::InvalidDigit { position: 2, found: 'a' })
    );
    assert_eq!(
        quadkey_to_tile(String::from("-1")),
        Err(QuadkeyError::InvalidDigit { position: 0, found: '-' })
    );
    assert_eq!(
        quadkey_to_tile(String::from("12 ")),
        Err(QuadkeyError::InvalidDigit { position: 2, found: ' ' })
    );
}

#[test]
fn position_counts_characters_not_bytes() {
    assert_eq!(
        quadkey_to_tile(String::from("0\u{e9}1x")),
        Err(QuadkeyError::InvalidDigit { position: 1, found: '\u{e9}' })
    );
    assert_eq!(
        quadkey_to_tile(String::from("\u{663}0")),
        Err(QuadkeyError::InvalidDigit { position: 0, found: '\u{663}' })
    );
}

#[test]
fn key_of_65_digits_is_too_long() {
    assert_eq!(
        quadkey_to_tile("0".repeat(65)),
        Err(QuadkeyError::TooLong { len: 65 })
    );
    assert!(quadkey_to_tile("0".repeat(64)).is_ok());
}

#[test]
fn length_is_judged_before_the_characters() {
    assert_eq!(
        quadkey_to_tile(format!("x{}", "0".repeat(99))),
        Err(QuadkeyError::TooLong { len: 100 })
    );
}

#[test]
fn length_counts_characters_not_bytes() {
    let key = format!("{}\u{e9}", "0".repeat(63));
    assert_eq!(key.len(), 65);
    assert_eq!(
        quadkey_to_tile(key),
        Err(QuadkeyError::InvalidDigit { position: 63, found: '\u{e9}' })
    );
}
