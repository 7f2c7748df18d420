use recoord::base32::GeohashB32;
use recoord::geohash::Geohash;
use recoord::{Coordinate, CoordinateError, LAT_LIMIT, LNG_LIMIT, TICKS_PER_DEGREE};

const ALPHABET: &str = "0123456789bcdefghjkmnpqrstuvwxyz";

fn ticks_to_degrees(ticks: i64) -> f64 {
    ticks as f64 / TICKS_PER_DEGREE as f64
}

#[test]
fn test_char_to_geohashb32() {
    for (i, expected) in ALPHABET.chars().enumerate() {
        assert_eq!(GeohashB32::try_from(expected).unwrap(), GeohashB32(i as u8));
    }
}

#[test]
fn test_char_to_geohashb32_errors() {
    assert!(GeohashB32::try_from('a').is_err());
    assert!(GeohashB32::try_from('ö').is_err());
    assert!(GeohashB32::try_from('💥').is_err());
}

#[test]
fn test_geohashb32_to_char() {
    for (i, expected) in ALPHABET.chars().enumerate() {
        assert_eq!(GeohashB32(i as u8).to_char().unwrap(), expected);
    }
}

#[test]
fn test_geohash_decode_encode() {
    for expected in ALPHABET.chars() {
        let geohash = Geohash::from_str(&expected.to_string());
        assert!(geohash.is_ok());
        let geohash = geohash.unwrap();
        let result = geohash.hash_with_max_length(1);
        assert_eq!(result, expected.to_string());
    }
}

#[test]
fn test_geohash_decode_encode_stresstest() {
    let hashes = build_test_hash_with_length(2, None);
    println!("hi {}", hashes.len());
    for hash in hashes {
        println!("Testing hash {hash}");
        let geohash = Geohash::from_str(&hash);
        assert!(geohash.is_ok());
        let geohash = geohash.unwrap();
        let result = geohash.hash_with_max_length(hash.chars().count());
        assert_eq!(result, hash);
    }
}

fn build_test_hash_with_length(length: usize, per_depth: Option<usize>) -> Vec<String> {
    match length {
        0 => vec![],
        1 => ALPHABET.chars().map(|c| c.to_string()).collect(),
        _ => {
            let sub_hashes = build_test_hash_with_length(length - 1, per_depth);
            let mut res = vec![];
            for possible in ALPHABET.chars().take(per_depth.unwrap_or(32)) {
                res.push(possible.to_string());
                for sub_hash in sub_hashes.iter() {
                    let mut res_str = possible.to_string();
                    res_str.push_str(sub_hash);
                    res.push(res_str);
                }
            }
            res
        }
    }
}

#[test]
fn test_round_trip_longer_hashes() {
    for hash in ["ezs42", "u4pruydqqvj", "9q8yyk8ytpxr", "000000000000", "zzzzzzzzzzzz"] {
        let geohash = Geohash::from_str(hash).unwrap();
        assert_eq!(geohash.hash_with_max_length(hash.len()), hash);
    }
}

#[test]
fn test_decode_eleven_characters() {
    let geohash = Geohash::from_str("u4pruydqqvj").unwrap();
    let center = geohash.center();
    assert!((ticks_to_degrees(center.lat) - 57.64911063015461).abs() < 1e-9);
    assert!((ticks_to_degrees(center.lng) - 10.407439693808556).abs() < 1e-9);
}

#[test]
fn test_round_trip_case_insensitive() {
    let geohash = Geohash::from_str("EZS42").unwrap();
    assert_eq!(geohash.hash_with_max_length(5), "ezs42");
}

#[test]
fn test_decode_invalid_characters() {
    for bad in ["ez a2", "hello", "ilo", "x-y", "é"] {
        match Geohash::from_str(bad) {
            Err(CoordinateError::InvalidValue) => {}
            other => panic!("expected InvalidValue, got {other:?}"),
        }
    }
}

#[test]
fn test_decode_concrete_scenario() {
    // The canonical example: "ezs42" names a region near (42.6, -5.6).
    let geohash = Geohash::from_str("ezs42").unwrap();
    let center = geohash.center();
    let lat = ticks_to_degrees(center.lat);
    let lng = ticks_to_degrees(center.lng);
    assert!((lat - 42.6).abs() < 0.05, "latitude {lat}");
    assert!((lng - -5.6).abs() < 0.05, "longitude {lng}");
    // Encoding the center back at 25 bits (5 characters) reproduces it.
    let encoded = geohash.hash_with_precision(25).unwrap();
    assert_eq!(encoded, "ezs42");
    // The exact bounds of the decoded cell, in degrees.
    assert_eq!(ticks_to_degrees(geohash.bounding_bottom_right.lat), 42.5830078125);
    assert_eq!(ticks_to_degrees(geohash.bounding_top_left.lat), 42.626953125);
    assert_eq!(ticks_to_degrees(geohash.bounding_top_left.lng), -5.625);
    assert_eq!(ticks_to_degrees(geohash.bounding_bottom_right.lng), -5.5810546875);
}

#[test]
fn test_decode_empty_is_full_globe() {
    let geohash = Geohash::from_str("").unwrap();
    assert_eq!(geohash.bounding_top_left.lat, LAT_LIMIT);
    assert_eq!(geohash.bounding_top_left.lng, -LNG_LIMIT);
    assert_eq!(geohash.bounding_bottom_right.lat, -LAT_LIMIT);
    assert_eq!(geohash.bounding_bottom_right.lng, LNG_LIMIT);
    assert_eq!(geohash, Geohash::default());
}

#[test]
fn test_hash_with_precision_rejects_zero_bits() {
    let globe = Geohash::default();
    match globe.hash_with_precision(0) {
        Err(CoordinateError::Malformed) => {}
        other => panic!("expected Malformed, got {other:?}"),
    }
}

#[test]
fn test_hash_with_precision_rejects_partial_characters() {
    let geohash = Geohash::from_str("ezs42").unwrap();
    for bits in [1, 2, 3, 4, 6, 7, 13, 21, 99] {
        match geohash.hash_with_precision(bits) {
            Err(CoordinateError::Malformed) => {}
            other => panic!("expected Malformed for {bits} bits, got {other:?}"),
        }
    }
    for bits in [5, 10, 15, 25, 60, 105] {
        let s = geohash.hash_with_precision(bits).unwrap();
        assert_eq!(s.len(), bits / 5);
    }
}

#[test]
fn test_hash_with_precision_matches_max_length() {
    let geohash = Geohash::from_str("u4pruy").unwrap();
    assert_eq!(geohash.hash_with_precision(30).unwrap(), geohash.hash_with_max_length(6));
}

#[test]
fn test_outer_hash_contains_region() {
    let region = Geohash {
        bounding_top_left: Coordinate::new(
            (42.627 * TICKS_PER_DEGREE as f64) as i64,
            (-5.625 * TICKS_PER_DEGREE as f64) as i64,
        )
        .unwrap(),
        bounding_bottom_right: Coordinate::new(
            (42.583 * TICKS_PER_DEGREE as f64) as i64,
            (-5.581 * TICKS_PER_DEGREE as f64) as i64,
        )
        .unwrap(),
    };
    let outer = region.get_outer_hash();
    let decoded = Geohash::from_str(&outer).unwrap();
    assert!(decoded.bounding_bottom_right.lat <= region.bounding_bottom_right.lat);
    assert!(region.bounding_top_left.lat <= decoded.bounding_top_left.lat);
    assert!(decoded.bounding_top_left.lng <= region.bounding_top_left.lng);
    assert!(region.bounding_bottom_right.lng <= decoded.bounding_bottom_right.lng);
}

#[test]
fn test_outer_hash_of_exact_cell() {
    // A region that is exactly a grid cell has that cell's hash as its
    // outer hash.
    let cell = Geohash::from_str("ezs42").unwrap();
    assert_eq!(cell.get_outer_hash(), "ezs42");
}

#[test]
fn test_outer_hash_of_wide_region_is_empty() {
    // A region straddling the prime meridian with a center on it is cut by
    // every one-character hash, so only the full globe contains it.
    let region = Geohash {
        bounding_top_left: Coordinate::new(40 * TICKS_PER_DEGREE, -30 * TICKS_PER_DEGREE)
            .unwrap(),
        bounding_bottom_right: Coordinate::new(-40 * TICKS_PER_DEGREE, 30 * TICKS_PER_DEGREE)
            .unwrap(),
    };
    let outer = region.get_outer_hash();
    assert_eq!(outer, "");
    let decoded = Geohash::from_str(&outer).unwrap();
    assert_eq!(decoded, Geohash::default());
}

#[test]
fn test_inner_hash_within_region() {
    let region = Geohash {
        bounding_top_left: Coordinate::new(43 * TICKS_PER_DEGREE, -6 * TICKS_PER_DEGREE)
            .unwrap(),
        bounding_bottom_right: Coordinate::new(42 * TICKS_PER_DEGREE, -5 * TICKS_PER_DEGREE)
            .unwrap(),
    };
    let inner = region.get_inner_hash();
    assert!(!inner.is_empty());
    let decoded = Geohash::from_str(&inner).unwrap();
    assert!(region.bounding_bottom_right.lat <= decoded.bounding_bottom_right.lat);
    assert!(decoded.bounding_top_left.lat <= region.bounding_top_left.lat);
    assert!(region.bounding_top_left.lng <= decoded.bounding_top_left.lng);
    assert!(decoded.bounding_bottom_right.lng <= region.bounding_bottom_right.lng);
}

#[test]
fn test_inner_hash_is_shorter_than_outer_region_cells() {
    // For a one-degree box the inner hash needs only a few characters.
    let region = Geohash {
        bounding_top_left: Coordinate::new(TICKS_PER_DEGREE, 0).unwrap(),
        bounding_bottom_right: Coordinate::new(0, TICKS_PER_DEGREE).unwrap(),
    };
    let inner = region.get_inner_hash();
    assert!(inner.len() <= 4, "inner hash {inner} unexpectedly long");
}

#[test]
fn test_center_height_width() {
    let region = Geohash {
        bounding_top_left: Coordinate::new(30 * TICKS_PER_DEGREE, -20 * TICKS_PER_DEGREE)
            .unwrap(),
        bounding_bottom_right: Coordinate::new(10 * TICKS_PER_DEGREE, 40 * TICKS_PER_DEGREE)
            .unwrap(),
    };
    let center = region.center();
    assert_eq!(center.lat, 20 * TICKS_PER_DEGREE);
    assert_eq!(center.lng, 10 * TICKS_PER_DEGREE);
    assert_eq!(region.height(), -20 * TICKS_PER_DEGREE);
    assert_eq!(region.width(), 60 * TICKS_PER_DEGREE);
}

#[test]
fn test_from_coordinate_degenerate_region() {
    let coord = Coordinate::new(10 * TICKS_PER_DEGREE, 20 * TICKS_PER_DEGREE).unwrap();
    let region = Geohash::from_coordinate(coord);
    assert_eq!(region.bounding_top_left, coord);
    assert_eq!(region.bounding_bottom_right, coord);
    assert_eq!(region.height(), 0);
    assert_eq!(region.width(), 0);
    // A point can still be hashed: the hash names the cell containing it.
    let hash = region.hash_with_max_length(5);
    let decoded = Geohash::from_str(&hash).unwrap();
    assert!(decoded.bounding_bottom_right.lat <= coord.lat);
    assert!(coord.lat <= decoded.bounding_top_left.lat);
}

#[test]
fn test_coordinate_new_validates_range() {
    assert!(Coordinate::new(0, 0).is_ok());
    assert!(Coordinate::new(LAT_LIMIT, LNG_LIMIT).is_ok());
    assert!(Coordinate::new(-LAT_LIMIT, -LNG_LIMIT).is_ok());
    match Coordinate::new(LAT_LIMIT + 1, 0) {
        Err(CoordinateError::InvalidValue) => {}
        other => panic!("expected InvalidValue, got {other:?}"),
    }
    match Coordinate::new(0, -LNG_LIMIT - 1) {
        Err(CoordinateError::InvalidValue) => {}
        other => panic!("expected InvalidValue, got {other:?}"),
    }
}
