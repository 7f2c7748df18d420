//! Conversion between geographic coordinates and textual encodings, centred
//! on a fully specified geohash codec.
//!
//! Coordinates are held in an exact fixed-point form: degrees scaled by
//! 2^50 ("ticks").  Every quantity the codec manipulates — cell boundaries
//! produced by repeated binary subdivision of the latitude and longitude
//! ranges — is a dyadic rational, so the tick representation is lossless and
//! the codec's arithmetic can be stated and proved exactly.

use vstd::prelude::*;

pub mod base32;
pub mod bits;
pub mod compass;
pub mod geohash;

verus! {

/// Number of ticks per degree: 2^50.
pub const TICKS_PER_DEGREE: i64 = 1125899906842624;

/// Northern limit of latitude, in ticks (90 degrees).
pub const LAT_LIMIT: i64 = 90 * TICKS_PER_DEGREE;

/// Eastern limit of longitude, in ticks (180 degrees).
pub const LNG_LIMIT: i64 = 180 * TICKS_PER_DEGREE;

/// A point on the globe, stored as latitude and longitude in ticks
/// (degrees times 2^50).
#[derive(Debug, Clone, Copy, PartialEq, Eq, Structural)]
pub struct Coordinate {
    /// Latitude in ticks; ranges over [-90, 90] degrees.
    pub lat: i64,
    /// Longitude in ticks; ranges over [-180, 180] degrees.
    pub lng: i64,
}

impl Coordinate {
    /// Both components lie within the legal geographic ranges.
    pub open spec fn valid(self) -> bool {
        &&& -LAT_LIMIT <= self.lat <= LAT_LIMIT
        &&& -LNG_LIMIT <= self.lng <= LNG_LIMIT
    }

    /// Create a coordinate from latitude and longitude ticks, rejecting
    /// values outside [-90, 90] x [-180, 180] degrees.
    pub fn new(lat: i64, lng: i64) -> (r: Result<Coordinate, CoordinateError>)
        ensures
            match r {
                Ok(c) => c == (Coordinate { lat, lng }) && c.valid(),
                Err(e) => e == CoordinateError::InvalidValue
                    && !(Coordinate { lat, lng }).valid(),
            },
    {
        if -LAT_LIMIT <= lat && lat <= LAT_LIMIT && -LNG_LIMIT <= lng && lng <= LNG_LIMIT {
            Ok(Coordinate { lat, lng })
        } else {
            Err(CoordinateError::InvalidValue)
        }
    }
}

/// Error raised when handling coordinates.
#[derive(Debug, Clone, Copy, PartialEq, Eq, Structural)]
pub enum CoordinateError {
    /// No parser accepted the input.
    MissingParser,
    /// A value cannot be converted into a coordinate: a character outside
    /// the geohash alphabet, a symbol above 31, or an out-of-range component.
    InvalidValue,
    /// A precision request that cannot be expressed as whole geohash
    /// characters with balanced axis bit counts.
    Malformed,
    /// A place name could not be resolved to a location.
    Unresolveable,
}

} // verus!
