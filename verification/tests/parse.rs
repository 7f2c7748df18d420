use recoord::base32::GeohashB32;
use recoord::compass::CompassDirection;
use recoord::geohash::{parse_geohash, Geohash};
use recoord::{CoordinateError, TICKS_PER_DEGREE};

fn ticks_to_degrees(ticks: i64) -> f64 {
    ticks as f64 / TICKS_PER_DEGREE as f64
}

#[test]
fn test_parse_geohash_south_west_corner() {
    let coord = parse_geohash("ezs42").unwrap();
    let region = Geohash::from_str("ezs42").unwrap();
    assert_eq!(coord.lat, region.bounding_bottom_right.lat);
    assert_eq!(coord.lng, region.bounding_top_left.lng);
    assert_eq!(ticks_to_degrees(coord.lat), 42.5830078125);
    assert_eq!(ticks_to_degrees(coord.lng), -5.625);
}

#[test]
fn test_parse_geohash_uppercase() {
    assert_eq!(parse_geohash("EZS42").unwrap(), parse_geohash("ezs42").unwrap());
}

#[test]
fn test_parse_geohash_invalid() {
    match parse_geohash("ez!42") {
        Err(CoordinateError::InvalidValue) => {}
        other => panic!("expected InvalidValue, got {other:?}"),
    }
}

#[test]
fn test_parse_geohash_empty() {
    let coord = parse_geohash("").unwrap();
    assert_eq!(ticks_to_degrees(coord.lat), -90.0);
    assert_eq!(ticks_to_degrees(coord.lng), -180.0);
}

#[test]
fn test_get_even_bits_value() {
    // Symbol 0b11010: the even-weighted bits (8 and 2) are both true.
    let sym = GeohashB32(0b11010);
    assert_eq!(sym.get_even_bits_value(), vec![true, true]);
    // Symbol 0b00101: they are false, false.
    assert_eq!(GeohashB32(0b00101).get_even_bits_value(), vec![false, false]);
}

#[test]
fn test_get_odd_bits_value() {
    // Symbol 0b11010: the odd-weighted bits (16, 4 and 1) are true, false,
    // false.
    let sym = GeohashB32(0b11010);
    assert_eq!(sym.get_odd_bits_value(), vec![true, false, false]);
    assert_eq!(GeohashB32(0b00101).get_odd_bits_value(), vec![false, true, true]);
}

#[test]
fn test_get_lat_lng_bit_values() {
    let sym = GeohashB32(0b10110);
    let (lat, lng) = sym.get_lat_lng_bit_values(false);
    assert_eq!(lat, vec![false, true]);
    assert_eq!(lng, vec![true, true, false]);
    let (lat, lng) = sym.get_lat_lng_bit_values(true);
    assert_eq!(lat, vec![true, true, false]);
    assert_eq!(lng, vec![false, true]);
}

#[test]
fn test_compass_direction_from_names() {
    assert_eq!(CompassDirection::from("N"), CompassDirection::North);
    assert_eq!(CompassDirection::from("north"), CompassDirection::North);
    assert_eq!(CompassDirection::from("E"), CompassDirection::East);
    assert_eq!(CompassDirection::from("East"), CompassDirection::East);
    assert_eq!(CompassDirection::from("s"), CompassDirection::South);
    assert_eq!(CompassDirection::from("SOUTH"), CompassDirection::South);
    assert_eq!(CompassDirection::from("w"), CompassDirection::West);
    assert_eq!(CompassDirection::from("West"), CompassDirection::West);
}
