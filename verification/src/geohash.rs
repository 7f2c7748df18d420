//! The geohash codec: a bounding region on the latitude/longitude grid and
//! its base-32 string encodings.
//!
//! A geohash string of `L` characters carries `5 * L` bits.  Interleaved
//! longitude first, they select one cell of a grid that divides the
//! longitude range into `2^ceil(5L/2)` columns and the latitude range into
//! `2^floor(5L/2)` rows.  Decoding walks the bits and repeatedly halves the
//! full globe; encoding quantizes a region's center point onto the grid and
//! emits the cell's bits.  In ticks (degrees times 2^50) the latitude range
//! is `45 * 2^52` and the longitude range `45 * 2^53`, so every cell edge is
//! a whole number of ticks for hashes of up to 21 characters, and the codec
//! is exact.

use vstd::prelude::*;
use vstd::arithmetic::div_mod::{
    lemma_div_is_ordered, lemma_div_multiples_vanish, lemma_fundamental_div_mod,
    lemma_fundamental_div_mod_converse_div, lemma_mod_self_0, lemma_small_mod,
};
use vstd::arithmetic::mul::lemma_mul_inequality;
use vstd::arithmetic::power2::{
    lemma2_to64, lemma2_to64_rest, lemma_pow2_adds, lemma_pow2_pos, lemma_pow2_unfold, pow2,
};
use crate::bits::{
    bits_val, even_elems, idx_bits, interleave, lemma_bits_idx, lemma_bits_val_bound,
    lemma_even_odd_interleave, lemma_even_odd_push, lemma_idx_bits_len, lemma_idx_bits_val,
    lemma_interleave_even_odd, odd_elems,
};
use crate::base32::{alphabet_char, char_bits, char_symbol, symbol_char, GeohashB32};
use crate::{Coordinate, CoordinateError, LAT_LIMIT, LNG_LIMIT};

verus! {

/// Longest supported hash, in characters.  A 21-character hash already
/// refines each axis to about 2^-52 of its range; beyond that the grid
/// cells would no longer be whole numbers of ticks.
pub const MAX_HASH_LENGTH: usize = 21;

/// Height of one latitude grid row, in ticks, when the latitude range is
/// divided `n` times in half: `180 degrees / 2^n`.
pub open spec fn lat_step(n: nat) -> int
    recommends
        n <= 52,
{
    (45 * pow2((52 - n) as nat)) as int
}

/// Width of one longitude grid column, in ticks, when the longitude range
/// is divided `m` times in half: `360 degrees / 2^m`.
pub open spec fn lng_step(m: nat) -> int
    recommends
        m <= 53,
{
    (45 * pow2((53 - m) as nat)) as int
}

/// Row index of the grid cell containing latitude `lat` at `n` bits of
/// precision, counted from the southern edge.  The north pole itself, the
/// only latitude on the last row's far edge, wraps to row zero.
pub open spec fn lat_cell(lat: int, n: nat) -> int
    recommends
        n <= 52,
{
    ((lat + LAT_LIMIT) / lat_step(n)) % (pow2(n) as int)
}

/// Column index of the grid cell containing longitude `lng` at `m` bits of
/// precision, counted from the western edge; 180 degrees east wraps to
/// column zero.
pub open spec fn lng_cell(lng: int, m: nat) -> int
    recommends
        m <= 53,
{
    ((lng + LNG_LIMIT) / lng_step(m)) % (pow2(m) as int)
}

/// The geohash bounding region: an axis-aligned rectangle on the globe,
/// held by its top-left (north-western) and bottom-right (south-eastern)
/// corners.
#[derive(Debug, Clone, PartialEq, Eq, Structural)]
pub struct Geohash {
    /// Top left bounds of the rectangle.
    pub bounding_top_left: Coordinate,
    /// Bottom right bounds of the rectangle.
    pub bounding_bottom_right: Coordinate,
}

impl Geohash {
    /// Northern edge, in ticks.
    pub open spec fn north(self) -> int {
        self.bounding_top_left.lat as int
    }

    /// Southern edge, in ticks.
    pub open spec fn south(self) -> int {
        self.bounding_bottom_right.lat as int
    }

    /// Western edge, in ticks.
    pub open spec fn west(self) -> int {
        self.bounding_top_left.lng as int
    }

    /// Eastern edge, in ticks.
    pub open spec fn east(self) -> int {
        self.bounding_bottom_right.lng as int
    }

    /// Both corners are legal coordinates and they are ordered: the top
    /// left corner is neither south nor east of the bottom right one.
    pub open spec fn wf(self) -> bool {
        &&& self.bounding_top_left.valid()
        &&& self.bounding_bottom_right.valid()
        &&& self.south() <= self.north()
        &&& self.west() <= self.east()
    }

    /// Latitude of the region's center: the midpoint of the two edges,
    /// rounded south to a whole tick.
    pub open spec fn center_lat(self) -> int {
        self.south() + (self.north() - self.south()) / 2
    }

    /// Longitude of the region's center: the midpoint of the two edges,
    /// rounded west to a whole tick.
    pub open spec fn center_lng(self) -> int {
        self.west() + (self.east() - self.west()) / 2
    }

    /// The full globe: from 90 north, 180 west down to 90 south, 180 east.
    pub open spec fn full_globe() -> Geohash {
        Geohash {
            bounding_top_left: Coordinate { lat: LAT_LIMIT, lng: (-LNG_LIMIT) as i64 },
            bounding_bottom_right: Coordinate { lat: (-LAT_LIMIT) as i64, lng: LNG_LIMIT },
        }
    }

    /// Provides the center of the region.
    pub fn center(&self) -> (c: Coordinate)
        requires
            self.wf(),
        ensures
            c.lat == self.center_lat(),
            c.lng == self.center_lng(),
            c.valid(),
    {
        let lat_span: i64 = self.bounding_top_left.lat - self.bounding_bottom_right.lat;
        let lng_span: i64 = self.bounding_bottom_right.lng - self.bounding_top_left.lng;
        Coordinate {
            lat: self.bounding_bottom_right.lat + ((lat_span as u64 / 2) as i64),
            lng: self.bounding_top_left.lng + ((lng_span as u64 / 2) as i64),
        }
    }

    /// Height of the bounding rectangle: the signed vertical span, southern
    /// minus northern edge, which is never positive.
    pub fn height(&self) -> (h: i64)
        requires
            self.wf(),
        ensures
            h == self.south() - self.north(),
            h <= 0,
    {
        self.bounding_bottom_right.lat - self.bounding_top_left.lat
    }

    /// Width of the bounding rectangle: eastern minus western edge, which
    /// is never negative.
    pub fn width(&self) -> (w: i64)
        requires
            self.wf(),
        ensures
            w == self.east() - self.west(),
            w >= 0,
    {
        self.bounding_bottom_right.lng - self.bounding_top_left.lng
    }

    /// The degenerate region of a single point: both corners coincide.
    pub fn from_coordinate(coord: Coordinate) -> (g: Geohash)
        ensures
            g.bounding_top_left == coord,
            g.bounding_bottom_right == coord,
            coord.valid() ==> g.wf(),
    {
        Geohash { bounding_top_left: coord, bounding_bottom_right: coord }
    }
}

impl Default for Geohash {
    /// The default region is the maximal one: the full globe.
    fn default() -> (g: Self)
        ensures
            g == Geohash::full_globe(),
            g.wf(),
    {
        Geohash {
            bounding_top_left: Coordinate { lat: LAT_LIMIT, lng: -LNG_LIMIT },
            bounding_bottom_right: Coordinate { lat: -LAT_LIMIT, lng: LNG_LIMIT },
        }
    }
}

/// The latitude range is `lat_step(n)` rows of `2^n`, and likewise for
/// longitude; each step is positive.
proof fn lemma_step_ranges(n: nat, m: nat)
    requires
        n <= 52,
        m <= 53,
    ensures
        lat_step(n) * pow2(n) == 2 * LAT_LIMIT,
        lng_step(m) * pow2(m) == 2 * LNG_LIMIT,
        lat_step(n) >= 1,
        lng_step(m) >= 1,
{
    lemma2_to64();
    lemma2_to64_rest();
    lemma_pow2_adds((52 - n) as nat, n);
    lemma_pow2_adds((53 - m) as nat, m);
    lemma_pow2_pos((52 - n) as nat);
    lemma_pow2_pos((53 - m) as nat);
    assert(45 * (pow2((52 - n) as nat) * pow2(n)) == 45 * pow2(52));
    assert(45 * (pow2((53 - m) as nat) * pow2(m)) == 45 * pow2(53));
    assert((45 * pow2((52 - n) as nat)) * pow2(n) == 45 * (pow2((52 - n) as nat) * pow2(n)))
        by (nonlinear_arith);
    assert((45 * pow2((53 - m) as nat)) * pow2(m) == 45 * (pow2((53 - m) as nat) * pow2(m)))
        by (nonlinear_arith);
}

/// One latitude grid row, in ticks, at `n` bits of precision.
fn lat_step_exec(n: usize) -> (s: u64)
    requires
        n <= 52,
    ensures
        s == lat_step(n as nat),
{
    proof {
        lemma2_to64();
        lemma2_to64_rest();
    }
    let mut s: u64 = 202661983231672320;
    let mut i: usize = 0;
    while i < n
        invariant
            i <= n <= 52,
            s == lat_step(i as nat),
        decreases n - i,
    {
        proof {
            lemma_pow2_unfold((52 - i) as nat);
            lemma_pow2_pos((51 - i) as nat);
        }
        s = s / 2;
        i = i + 1;
    }
    s
}

/// One longitude grid column, in ticks, at `m` bits of precision.
fn lng_step_exec(m: usize) -> (s: u64)
    requires
        m <= 53,
    ensures
        s == lng_step(m as nat),
{
    proof {
        lemma2_to64();
        lemma2_to64_rest();
    }
    let mut s: u64 = 405323966463344640;
    let mut i: usize = 0;
    while i < m
        invariant
            i <= m <= 53,
            s == lng_step(i as nat),
        decreases m - i,
    {
        proof {
            lemma_pow2_unfold((53 - i) as nat);
            lemma_pow2_pos((52 - i) as nat);
        }
        s = s / 2;
        i = i + 1;
    }
    s
}

/// 2 to the power `n`.
fn pow2_exec(n: usize) -> (p: u64)
    requires
        n <= 53,
    ensures
        p == pow2(n as nat),
{
    proof {
        lemma2_to64();
        lemma2_to64_rest();
    }
    let mut p: u64 = 1;
    let mut i: usize = 0;
    while i < n
        invariant
            i <= n <= 53,
            p == pow2(i as nat),
        decreases n - i,
    {
        proof {
            lemma_pow2_unfold((i + 1) as nat);
            vstd::arithmetic::power2::lemma_pow2_strictly_increases(i as nat, 54);
            lemma2_to64_rest();
        }
        p = p * 2;
        i = i + 1;
    }
    p
}

/// Grid row of the cell containing latitude `lat` at `n` bits.
fn lat_cell_exec(lat: i64, n: usize) -> (idx: u64)
    requires
        n <= 52,
        -LAT_LIMIT <= lat <= LAT_LIMIT,
    ensures
        idx == lat_cell(lat as int, n as nat),
        idx < pow2(n as nat),
{
    let step = lat_step_exec(n);
    let cells = pow2_exec(n);
    proof {
        lemma_step_ranges(n as nat, 0);
        lemma_pow2_pos(n as nat);
    }
    let offset: u64 = (lat + LAT_LIMIT) as u64;
    let q = offset / step;
    proof {
        lemma_div_is_ordered(offset as int, lat_step(n as nat) * pow2(n as nat), step as int);
        lemma_div_multiples_vanish(cells as int, step as int);
        assert(lat_step(n as nat) * pow2(n as nat) == step * cells);
        assert(q <= cells);
        if q < cells {
            lemma_small_mod(q as nat, cells as nat);
        } else {
            lemma_mod_self_0(cells as int);
        }
    }
    if q >= cells {
        0
    } else {
        q
    }
}

/// Grid column of the cell containing longitude `lng` at `m` bits.
fn lng_cell_exec(lng: i64, m: usize) -> (idx: u64)
    requires
        m <= 53,
        -LNG_LIMIT <= lng <= LNG_LIMIT,
    ensures
        idx == lng_cell(lng as int, m as nat),
        idx < pow2(m as nat),
{
    let step = lng_step_exec(m);
    let cells = pow2_exec(m);
    proof {
        lemma_step_ranges(0, m as nat);
        lemma_pow2_pos(m as nat);
    }
    let offset: u64 = (lng + LNG_LIMIT) as u64;
    let q = offset / step;
    proof {
        lemma_div_is_ordered(offset as int, lng_step(m as nat) * pow2(m as nat), step as int);
        lemma_div_multiples_vanish(cells as int, step as int);
        assert(lng_step(m as nat) * pow2(m as nat) == step * cells);
        assert(q <= cells);
        if q < cells {
            lemma_small_mod(q as nat, cells as nat);
        } else {
            lemma_mod_self_0(cells as int);
        }
    }
    if q >= cells {
        0
    } else {
        q
    }
}

/// The bits of `v`, most-significant first.
fn idx_bits_exec(v: u64, n: usize) -> (r: Vec<bool>)
    requires
        n <= 53,
    ensures
        r@ == idx_bits(v as int, n as nat),
        r@.len() == n,
    decreases n,
{
    if n == 0 {
        Vec::new()
    } else {
        let mut r = idx_bits_exec(v / 2, n - 1);
        r.push(v % 2 == 1);
        r
    }
}

/// Alternate the elements of `a` and `b`, starting with `a`.
fn interleave_exec(a: &Vec<bool>, b: &Vec<bool>) -> (r: Vec<bool>)
    requires
        b@.len() <= a@.len() <= b@.len() + 1,
        a@.len() <= 53,
    ensures
        r@ == interleave(a@, b@),
{
    let total = a.len() + b.len();
    let mut r: Vec<bool> = Vec::new();
    let mut i: usize = 0;
    while i < total
        invariant
            total == a@.len() + b@.len(),
            b@.len() <= a@.len() <= b@.len() + 1,
            i <= total <= 107,
            r@ =~= interleave(a@, b@).take(i as int),
        decreases total - i,
    {
        if i % 2 == 0 {
            r.push(a[i / 2]);
        } else {
            r.push(b[i / 2]);
        }
        proof {
            assert(r@ =~= interleave(a@, b@).take(i + 1));
        }
        i = i + 1;
    }
    proof {
        assert(r@ =~= interleave(a@, b@));
    }
    r
}

/// Relies on `String::push` of std: it appends the given character to the
/// end of the string.
pub assume_specification[ String::push ](s: &mut String, c: char)
    ensures
        final(s)@ == old(s)@.push(c),
;

/// 1 for a set bit, 0 for a clear one.
pub open spec fn bit_int(b: bool) -> int {
    if b {
        1int
    } else {
        0int
    }
}

/// The value of five bits, written out.
proof fn lemma_bits_val5(b: Seq<bool>)
    requires
        b.len() == 5,
    ensures
        bits_val(b) == 16 * bit_int(b[0]) + 8 * bit_int(b[1]) + 4 * bit_int(b[2]) + 2 * bit_int(
            b[3],
        ) + bit_int(b[4]),
{
    let b4 = b.drop_last();
    let b3 = b4.drop_last();
    let b2 = b3.drop_last();
    let b1 = b2.drop_last();
    assert(bits_val(b) == 2 * bits_val(b4) + bit_int(b[4]));
    assert(bits_val(b4) == 2 * bits_val(b3) + bit_int(b[3]));
    assert(bits_val(b3) == 2 * bits_val(b2) + bit_int(b[2]));
    assert(bits_val(b2) == 2 * bits_val(b1) + bit_int(b[1]));
    assert(bits_val(b1) == 2 * bits_val(b1.drop_last()) + bit_int(b[0]));
    assert(bits_val(b1.drop_last()) == 0);
}

/// The characters that pack a bit sequence, five bits per character,
/// most-significant bit first within each group.
pub open spec fn pack_chars(bits: Seq<bool>) -> Seq<char> {
    Seq::new(
        bits.len() / 5,
        |k: int| symbol_char(bits_val(bits.subrange(5 * k, 5 * k + 5))),
    )
}

/// Pack a bit sequence, whose length is a multiple of five, into a string
/// of geohash characters.
fn pack_exec(bits: &Vec<bool>) -> (s: String)
    requires
        bits@.len() % 5 == 0,
        bits@.len() <= 105,
    ensures
        s@ == pack_chars(bits@),
        s@.len() == bits@.len() / 5,
{
    let count = bits.len() / 5;
    let mut s = String::new();
    let mut k: usize = 0;
    while k < count
        invariant
            bits@.len() % 5 == 0,
            bits@.len() <= 105,
            count == bits@.len() / 5,
            k <= count,
            s@ =~= pack_chars(bits@).take(k as int),
        decreases count - k,
    {
        let base = 5 * k;
        let sym: u8 = 16 * (if bits[base] {
            1u8
        } else {
            0u8
        }) + 8 * (if bits[base + 1] {
            1u8
        } else {
            0u8
        }) + 4 * (if bits[base + 2] {
            1u8
        } else {
            0u8
        }) + 2 * (if bits[base + 3] {
            1u8
        } else {
            0u8
        }) + (if bits[base + 4] {
            1u8
        } else {
            0u8
        });
        proof {
            lemma_bits_val5(bits@.subrange(5 * k as int, 5 * k as int + 5));
        }
        let c = match GeohashB32(sym).to_char() {
            Ok(c) => c,
            Err(_) => {
                proof {
                    assert(false);
                }
                '0'
            },
        };
        s.push(c);
        proof {
            assert(s@ =~= pack_chars(bits@).take(k + 1));
        }
        k = k + 1;
    }
    proof {
        assert(s@ =~= pack_chars(bits@));
    }
    s
}

/// Number of latitude bits in a hash of `total` bits: the smaller share.
pub open spec fn lat_bits_of(total: nat) -> nat {
    total / 2
}

/// Number of longitude bits in a hash of `total` bits: longitude is the
/// first axis in the interleaving, so it takes the odd bit when the total
/// is odd.
pub open spec fn lng_bits_of(total: nat) -> nat {
    (total - total / 2) as nat
}

/// The interleaved bit sequence that encodes the grid cell containing the
/// center of `g`, longitude bits first.
pub open spec fn encode_bits(g: Geohash, total: nat) -> Seq<bool> {
    interleave(
        idx_bits(lng_cell(g.center_lng(), lng_bits_of(total)), lng_bits_of(total)),
        idx_bits(lat_cell(g.center_lat(), lat_bits_of(total)), lat_bits_of(total)),
    )
}

/// The geohash string of `g` at `total` bits of precision.
pub open spec fn encode_chars(g: Geohash, total: nat) -> Seq<char> {
    pack_chars(encode_bits(g, total))
}

impl Geohash {
    /// Encode a hash with a given precision in bits, representing the grid
    /// cell that contains the region's center.
    ///
    /// The precision must be a positive number of whole characters — a
    /// positive multiple of five — so that the bits split between the axes
    /// evenly or with longitude, the leading axis, one bit ahead; any other
    /// request is rejected as malformed.
    pub fn hash_with_precision(&self, total_bits: usize) -> (r: Result<String, CoordinateError>)
        requires
            self.wf(),
            total_bits <= 105,
        ensures
            match r {
                Ok(s) => total_bits > 0 && total_bits % 5 == 0 && s@ == encode_chars(
                    *self,
                    total_bits as nat,
                ) && s@.len() == total_bits / 5,
                Err(e) => e == CoordinateError::Malformed && (total_bits == 0 || total_bits % 5
                    != 0),
            },
    {
        if total_bits == 0 || total_bits % 5 != 0 {
            return Err(CoordinateError::Malformed);
        }
        let lat_bits = total_bits / 2;
        let lng_bits = total_bits - lat_bits;
        let c = self.center();
        let lat_idx = lat_cell_exec(c.lat, lat_bits);
        let lng_idx = lng_cell_exec(c.lng, lng_bits);
        let lat_seq = idx_bits_exec(lat_idx, lat_bits);
        let lng_seq = idx_bits_exec(lng_idx, lng_bits);
        let bits = interleave_exec(&lng_seq, &lat_seq);
        let s = pack_exec(&bits);
        proof {
            assert(s@ == encode_chars(*self, total_bits as nat));
        }
        Ok(s)
    }

    /// Create a hash with the given number of characters.
    pub fn hash_with_max_length(&self, length: usize) -> (s: String)
        requires
            self.wf(),
            1 <= length <= MAX_HASH_LENGTH,
        ensures
            s@ == encode_chars(*self, (5 * length) as nat),
            s@.len() == length,
    {
        match self.hash_with_precision(length * 5) {
            Ok(s) => s,
            Err(_) => {
                proof {
                    assert(false);
                }
                String::new()
            },
        }
    }
}

/// The bit sequence carried by a hash string: five bits per character.
pub open spec fn hash_bits(h: Seq<char>) -> Seq<bool>
    decreases h.len(),
{
    if h.len() == 0 {
        Seq::empty()
    } else {
        hash_bits(h.drop_last()) + char_bits(h.last())
    }
}

/// A hash string carries five bits per character.
pub proof fn lemma_hash_bits_len(h: Seq<char>)
    ensures
        hash_bits(h).len() == 5 * h.len(),
    decreases h.len(),
{
    if h.len() > 0 {
        lemma_hash_bits_len(h.drop_last());
        lemma_idx_bits_len(char_symbol(h.last()), 5);
    }
}

/// The region a hash string describes: the grid cell selected by its
/// de-interleaved longitude and latitude bits.  The empty string selects
/// the single cell of the zero-bit grid, the full globe.
pub open spec fn decode_region(h: Seq<char>) -> Geohash {
    let bits = hash_bits(h);
    let m = ((bits.len() + 1) / 2) as nat;
    let n = (bits.len() / 2) as nat;
    let j = bits_val(even_elems(bits));
    let k = bits_val(odd_elems(bits));
    Geohash {
        bounding_top_left: Coordinate {
            lat: (-LAT_LIMIT + (k + 1) * lat_step(n)) as i64,
            lng: (-LNG_LIMIT + j * lng_step(m)) as i64,
        },
        bounding_bottom_right: Coordinate {
            lat: (-LAT_LIMIT + k * lat_step(n)) as i64,
            lng: (-LNG_LIMIT + (j + 1) * lng_step(m)) as i64,
        },
    }
}

/// The edges of a decoded region, before the conversion to ticks stored in
/// an `i64`: multiples of the grid steps, and in range, so the conversion
/// loses nothing.
pub proof fn lemma_decode_region_edges(h: Seq<char>)
    requires
        h.len() <= MAX_HASH_LENGTH,
    ensures
        ({
            let g = decode_region(h);
            let bits = hash_bits(h);
            let m = ((bits.len() + 1) / 2) as nat;
            let n = (bits.len() / 2) as nat;
            let j = bits_val(even_elems(bits));
            let k = bits_val(odd_elems(bits));
            &&& g.south() == -LAT_LIMIT + k * lat_step(n)
            &&& g.north() == g.south() + lat_step(n)
            &&& g.west() == -LNG_LIMIT + j * lng_step(m)
            &&& g.east() == g.west() + lng_step(m)
            &&& 0 <= k < pow2(n)
            &&& 0 <= j < pow2(m)
            &&& n <= 52
            &&& m <= 53
            &&& g.wf()
        }),
{
    let bits = hash_bits(h);
    lemma_hash_bits_len(h);
    let m = ((bits.len() + 1) / 2) as nat;
    let n = (bits.len() / 2) as nat;
    let j = bits_val(even_elems(bits));
    let k = bits_val(odd_elems(bits));
    lemma_bits_val_bound(even_elems(bits));
    lemma_bits_val_bound(odd_elems(bits));
    lemma_step_ranges(n, m);
    lemma_mul_inequality(k + 1, pow2(n) as int, lat_step(n));
    lemma_mul_inequality(j + 1, pow2(m) as int, lng_step(m));
    assert((k + 1) * lat_step(n) == k * lat_step(n) + lat_step(n)) by (nonlinear_arith);
    assert((j + 1) * lng_step(m) == j * lng_step(m) + lng_step(m)) by (nonlinear_arith);
    assert(k * lat_step(n) >= 0) by (nonlinear_arith)
        requires
            k >= 0,
            lat_step(n) >= 1,
    ;
    assert(j * lng_step(m) >= 0) by (nonlinear_arith)
        requires
            j >= 0,
            lng_step(m) >= 1,
    ;
}

impl Geohash {
    /// Parse a geohash string into the bounding region it describes,
    /// reading the characters case-insensitively.  A character outside the
    /// alphabet is rejected; the empty string yields the full globe.
    pub fn from_str(hash: &str) -> (r: Result<Geohash, CoordinateError>)
        requires
            hash@.len() <= MAX_HASH_LENGTH,
        ensures
            match r {
                Ok(g) => {
                    &&& forall|i: int| 0 <= i < hash@.len() ==> char_symbol(#[trigger] hash@[i]) >= 0
                    &&& g == decode_region(hash@)
                    &&& g.wf()
                },
                Err(e) => {
                    &&& e == CoordinateError::InvalidValue
                    &&& exists|i: int|
                        0 <= i < hash@.len() && char_symbol(#[trigger] hash@[i]) == -1
                },
            },
    {
        let len = hash.unicode_len();
        let mut bits: Vec<bool> = Vec::new();
        let mut i: usize = 0;
        while i < len
            invariant
                len == hash@.len() <= MAX_HASH_LENGTH,
                i <= len,
                forall|t: int| 0 <= t < i ==> char_symbol(#[trigger] hash@[t]) >= 0,
                bits@ == hash_bits(hash@.take(i as int)),
                bits@.len() == 5 * i,
            decreases len - i,
        {
            let ch = hash.get_char(i);
            let sym = match GeohashB32::try_from(ch) {
                Ok(s) => s,
                Err(e) => {
                    return Err(e);
                },
            };
            let v = sym.0;
            bits.push(v / 16 % 2 == 1);
            bits.push(v / 8 % 2 == 1);
            bits.push(v / 4 % 2 == 1);
            bits.push(v / 2 % 2 == 1);
            bits.push(v % 2 == 1);
            proof {
                lemma_hash_bits_len(hash@.take(i as int));
                lemma_sym_bits5(v);
                assert(hash@.take(i + 1).drop_last() =~= hash@.take(i as int));
                assert(hash@.take(i + 1).last() == hash@[i as int]);
                assert(bits@ =~= hash_bits(hash@.take(i + 1)));
            }
            i = i + 1;
        }
        proof {
            assert(hash@.take(len as int) =~= hash@);
        }
        Ok(subdivide(&bits, Ghost(hash@)))
    }
}

/// The five bits of a symbol, written out.
proof fn lemma_sym_bits5(v: u8)
    requires
        v <= 31,
    ensures
        idx_bits(v as int, 5) =~= seq![
            v as int / 16 % 2 == 1,
            v as int / 8 % 2 == 1,
            v as int / 4 % 2 == 1,
            v as int / 2 % 2 == 1,
            v as int % 2 == 1,
        ],
{
    let x = v as int;
    vstd::arithmetic::div_mod::lemma_div_denominator(x, 2, 2);
    vstd::arithmetic::div_mod::lemma_div_denominator(x, 4, 2);
    vstd::arithmetic::div_mod::lemma_div_denominator(x, 8, 2);
    assert(x / 2 / 2 == x / 4);
    assert(x / 4 / 2 == x / 8);
    assert(x / 8 / 2 == x / 16);
    assert(x / 16 / 2 == 0);
    assert(idx_bits(x, 5) == idx_bits(x / 2, 4).push(x % 2 == 1));
    assert(idx_bits(x / 2, 4) == idx_bits(x / 4, 3).push(x / 2 % 2 == 1));
    assert(idx_bits(x / 4, 3) == idx_bits(x / 8, 2).push(x / 4 % 2 == 1));
    assert(idx_bits(x / 8, 2) == idx_bits(x / 16, 1).push(x / 8 % 2 == 1));
    assert(idx_bits(x / 16, 1) == idx_bits(0, 0).push(x / 16 % 2 == 1));
    assert(idx_bits(0, 0) == Seq::<bool>::empty());
}

/// Walk an interleaved bit sequence, longitude first, and narrow the full
/// globe by one half per bit.
fn subdivide(bits: &Vec<bool>, source: Ghost<Seq<char>>) -> (g: Geohash)
    requires
        bits@ == hash_bits(source@),
        bits@.len() == 5 * source@.len(),
        source@.len() <= MAX_HASH_LENGTH,
    ensures
        g == decode_region(source@),
        g.wf(),
{
    let total = bits.len();
    let mut north: i64 = LAT_LIMIT;
    let mut south: i64 = -LAT_LIMIT;
    let mut west: i64 = -LNG_LIMIT;
    let mut east: i64 = LNG_LIMIT;
    let ghost mut j: int = 0;
    let ghost mut k: int = 0;
    let mut p: usize = 0;
    proof {
        lemma_step_ranges(0, 0);
        lemma2_to64();
    }
    while p < total
        invariant
            total == bits@.len() <= 105,
            p <= total,
            j == bits_val(even_elems(bits@.take(p as int))),
            k == bits_val(odd_elems(bits@.take(p as int))),
            0 <= j < pow2(((p + 1) / 2) as nat),
            0 <= k < pow2((p / 2) as nat),
            west == -LNG_LIMIT + j * lng_step(((p + 1) / 2) as nat),
            east == west + lng_step(((p + 1) / 2) as nat),
            south == -LAT_LIMIT + k * lat_step((p / 2) as nat),
            north == south + lat_step((p / 2) as nat),
            -LNG_LIMIT <= west <= east <= LNG_LIMIT,
            -LAT_LIMIT <= south <= north <= LAT_LIMIT,
        decreases total - p,
    {
        let b = bits[p];
        let ghost taken = bits@.take(p as int);
        proof {
            assert(bits@.take(p + 1) =~= taken.push(b));
            lemma_even_odd_push(taken, b);
        }
        if p % 2 == 0 {
            // A longitude bit: the column index gains this bit.
            let m: Ghost<nat> = Ghost(((p + 1) / 2) as nat);
            proof {
                lemma_pow2_unfold((53 - m@) as nat);
                lemma_pow2_unfold((m@ + 1) as nat);
                lemma_pow2_pos((52 - m@) as nat);
                lemma_pow2_pos(m@);
                assert(even_elems(taken.push(b)).drop_last() =~= even_elems(taken));
                assert((2 * j + bit_int(b)) * lng_step((m@ + 1) as nat) == j * lng_step(m@)
                    + bit_int(b) * lng_step((m@ + 1) as nat)) by (nonlinear_arith)
                    requires
                        lng_step(m@) == 2 * lng_step((m@ + 1) as nat),
                ;
            }
            let half: i64 = ((east - west) as u64 / 2) as i64;
            let mid = west + half;
            if b {
                west = mid;
            } else {
                east = mid;
            }
            proof {
                j = 2 * j + bit_int(b);
            }
        } else {
            // A latitude bit: the row index gains this bit.
            let n: Ghost<nat> = Ghost((p / 2) as nat);
            proof {
                lemma_pow2_unfold((52 - n@) as nat);
                lemma_pow2_unfold((n@ + 1) as nat);
                lemma_pow2_pos((51 - n@) as nat);
                lemma_pow2_pos(n@);
                assert(odd_elems(taken.push(b)).drop_last() =~= odd_elems(taken));
                assert((2 * k + bit_int(b)) * lat_step((n@ + 1) as nat) == k * lat_step(n@)
                    + bit_int(b) * lat_step((n@ + 1) as nat)) by (nonlinear_arith)
                    requires
                        lat_step(n@) == 2 * lat_step((n@ + 1) as nat),
                ;
            }
            let half: i64 = ((north - south) as u64 / 2) as i64;
            let mid = south + half;
            if b {
                south = mid;
            } else {
                north = mid;
            }
            proof {
                k = 2 * k + bit_int(b);
            }
        }
        p = p + 1;
    }
    let g = Geohash {
        bounding_top_left: Coordinate { lat: north, lng: west },
        bounding_bottom_right: Coordinate { lat: south, lng: east },
    };
    proof {
        assert(bits@.take(total as int) =~= bits@);
        lemma_decode_region_edges(source@);
    }
    g
}

/// Each five-bit group of a hash's bit sequence is the bits of the
/// corresponding character.
proof fn lemma_hash_bits_slice(h: Seq<char>, t: int)
    requires
        0 <= t < h.len(),
    ensures
        hash_bits(h).subrange(5 * t, 5 * t + 5) == char_bits(h[t]),
    decreases h.len(),
{
    lemma_hash_bits_len(h.drop_last());
    lemma_idx_bits_len(char_symbol(h.last()), 5);
    if t == h.len() - 1 {
        assert(hash_bits(h).subrange(5 * t, 5 * t + 5) =~= char_bits(h.last()));
    } else {
        lemma_hash_bits_slice(h.drop_last(), t);
        assert(hash_bits(h).subrange(5 * t, 5 * t + 5) =~= hash_bits(h.drop_last()).subrange(
            5 * t,
            5 * t + 5,
        ));
    }
}

/// Packing the bits of a string of canonical alphabet characters yields
/// the string back.
proof fn lemma_pack_hash_bits(h: Seq<char>)
    requires
        forall|i: int| 0 <= i < h.len() ==> alphabet_char(#[trigger] h[i]),
    ensures
        pack_chars(hash_bits(h)) == h,
{
    lemma_hash_bits_len(h);
    let packed = pack_chars(hash_bits(h));
    assert forall|t: int| 0 <= t < h.len() implies packed[t] == h[t] by {
        lemma_hash_bits_slice(h, t);
        assert(pow2(5) == 32) by {
            lemma2_to64();
        }
        lemma_idx_bits_val(char_symbol(h[t]), 5);
    }
    assert(packed =~= h);
}

/// Taking the bits of the string that packs a bit sequence yields the
/// sequence back.
proof fn lemma_hash_bits_pack(bits: Seq<bool>)
    requires
        bits.len() % 5 == 0,
    ensures
        hash_bits(pack_chars(bits)) == bits,
    decreases bits.len(),
{
    let h = pack_chars(bits);
    if bits.len() == 0 {
        assert(hash_bits(h) =~= bits);
    } else {
        let shorter = bits.take(bits.len() - 5);
        lemma_hash_bits_pack(shorter);
        assert(h.drop_last() =~= pack_chars(shorter)) by {
            assert forall|t: int| 0 <= t < h.len() - 1 implies h[t] == pack_chars(shorter)[t] by {
                assert(shorter.subrange(5 * t, 5 * t + 5) =~= bits.subrange(5 * t, 5 * t + 5));
            }
        }
        let tail = bits.subrange(bits.len() - 5, bits.len() as int);
        let val = bits_val(tail);
        lemma_bits_val_bound(tail);
        assert(pow2(5) == 32) by {
            lemma2_to64();
        }
        crate::base32::lemma_alphabet_bijection();
        assert(h.last() == symbol_char(val));
        lemma_bits_idx(tail);
        assert(char_bits(h.last()) == tail);
        assert(hash_bits(h) == hash_bits(pack_chars(shorter)) + tail);
        assert(shorter + tail =~= bits);
    }
}

/// The grid cell selected when `g` is encoded at `total` bits: the cell
/// containing the region's center.
pub open spec fn center_cell_region(g: Geohash, total: nat) -> Geohash {
    let m = lng_bits_of(total);
    let n = lat_bits_of(total);
    let j = lng_cell(g.center_lng(), m);
    let k = lat_cell(g.center_lat(), n);
    Geohash {
        bounding_top_left: Coordinate {
            lat: (-LAT_LIMIT + (k + 1) * lat_step(n)) as i64,
            lng: (-LNG_LIMIT + j * lng_step(m)) as i64,
        },
        bounding_bottom_right: Coordinate {
            lat: (-LAT_LIMIT + k * lat_step(n)) as i64,
            lng: (-LNG_LIMIT + (j + 1) * lng_step(m)) as i64,
        },
    }
}

/// Encoding and then decoding lands on the grid cell that contains the
/// encoded region's center: decoding is a left inverse of encoding, up to
/// the quantization the precision imposes.
pub proof fn lemma_decode_encode(g: Geohash, length: nat)
    requires
        g.wf(),
        1 <= length <= MAX_HASH_LENGTH,
    ensures
        decode_region(encode_chars(g, 5 * length)) == center_cell_region(g, 5 * length),
{
    let total = 5 * length;
    let m = lng_bits_of(total);
    let n = lat_bits_of(total);
    lemma_step_ranges(n, m);
    lemma_pow2_pos(m);
    lemma_pow2_pos(n);
    let j = lng_cell(g.center_lng(), m);
    let k = lat_cell(g.center_lat(), n);
    vstd::arithmetic::div_mod::lemma_mod_division_less_than_divisor(
        (g.center_lng() + LNG_LIMIT) / lng_step(m),
        pow2(m) as int,
    );
    vstd::arithmetic::div_mod::lemma_mod_division_less_than_divisor(
        (g.center_lat() + LAT_LIMIT) / lat_step(n),
        pow2(n) as int,
    );
    let jb = idx_bits(j, m);
    let kb = idx_bits(k, n);
    lemma_idx_bits_len(j, m);
    lemma_idx_bits_len(k, n);
    let bits = interleave(jb, kb);
    assert(bits.len() == total);
    lemma_hash_bits_pack(bits);
    lemma_even_odd_interleave(jb, kb);
    lemma_idx_bits_val(j, m);
    lemma_idx_bits_val(k, n);
    assert(decode_region(encode_chars(g, total)) == center_cell_region(g, total));
}

/// Decoding a string of canonical alphabet characters and re-encoding it
/// at its own precision — five bits per character — reproduces the string:
/// encoding is a left inverse of decoding.
pub proof fn lemma_round_trip(h: Seq<char>)
    requires
        1 <= h.len() <= MAX_HASH_LENGTH,
        forall|i: int| 0 <= i < h.len() ==> alphabet_char(#[trigger] h[i]),
    ensures
        encode_chars(decode_region(h), 5 * h.len()) == h,
{
    let g = decode_region(h);
    let bits = hash_bits(h);
    lemma_hash_bits_len(h);
    let total = (5 * h.len()) as nat;
    let m = lng_bits_of(total);
    let n = lat_bits_of(total);
    let j = bits_val(even_elems(bits));
    let k = bits_val(odd_elems(bits));
    lemma_decode_region_edges(h);
    lemma_step_ranges(n, m);
    lemma_pow2_pos(m);
    lemma_pow2_pos(n);
    // The center of the decoded cell quantizes back to the same cell.
    assert(g.center_lat() + LAT_LIMIT == k * lat_step(n) + lat_step(n) / 2);
    assert(g.center_lng() + LNG_LIMIT == j * lng_step(m) + lng_step(m) / 2);
    lemma_fundamental_div_mod(lat_step(n), 2);
    lemma_fundamental_div_mod(lng_step(m), 2);
    lemma_fundamental_div_mod_converse_div(
        k * lat_step(n) + lat_step(n) / 2,
        lat_step(n),
        k,
        lat_step(n) / 2,
    );
    lemma_fundamental_div_mod_converse_div(
        j * lng_step(m) + lng_step(m) / 2,
        lng_step(m),
        j,
        lng_step(m) / 2,
    );
    lemma_small_mod(k as nat, pow2(n));
    lemma_small_mod(j as nat, pow2(m));
    assert(lat_cell(g.center_lat(), n) == k);
    assert(lng_cell(g.center_lng(), m) == j);
    // The cell's bits are the de-interleaved bits of the string.
    lemma_bits_idx(even_elems(bits));
    lemma_bits_idx(odd_elems(bits));
    lemma_interleave_even_odd(bits);
    assert(encode_bits(g, total) == bits);
    lemma_pack_hash_bits(h);
}

/// Southern edge of the grid cell containing the center of `g` at `total`
/// bits of precision.
pub open spec fn cell_south(g: Geohash, total: nat) -> int {
    -LAT_LIMIT + lat_cell(g.center_lat(), lat_bits_of(total)) * lat_step(lat_bits_of(total))
}

/// Western edge of the grid cell containing the center of `g` at `total`
/// bits of precision.
pub open spec fn cell_west(g: Geohash, total: nat) -> int {
    -LNG_LIMIT + lng_cell(g.center_lng(), lng_bits_of(total)) * lng_step(lng_bits_of(total))
}

/// At `length` characters, the grid cell of the center of `g` contains the
/// whole of `g`.
pub open spec fn cell_contains(g: Geohash, length: nat) -> bool {
    let total = 5 * length;
    &&& cell_south(g, total) <= g.south()
    &&& g.north() <= cell_south(g, total) + lat_step(lat_bits_of(total))
    &&& cell_west(g, total) <= g.west()
    &&& g.east() <= cell_west(g, total) + lng_step(lng_bits_of(total))
}

/// At `length` characters, the grid cell of the center of `g` lies wholly
/// within `g`.
pub open spec fn cell_within(g: Geohash, length: nat) -> bool {
    let total = 5 * length;
    &&& g.south() <= cell_south(g, total)
    &&& cell_south(g, total) + lat_step(lat_bits_of(total)) <= g.north()
    &&& g.west() <= cell_west(g, total)
    &&& cell_west(g, total) + lng_step(lng_bits_of(total)) <= g.east()
}

/// The first region contains the second: each corner of the second lies
/// within the bounds of the first.
pub open spec fn region_contains(outer: Geohash, inner: Geohash) -> bool {
    &&& outer.south() <= inner.south()
    &&& inner.north() <= outer.north()
    &&& outer.west() <= inner.west()
    &&& inner.east() <= outer.east()
}

/// The longest length, at most `length`, whose center cell contains `g`;
/// zero if none does.
pub open spec fn outer_length_from(g: Geohash, length: nat) -> nat
    decreases length,
{
    if length == 0 {
        0
    } else if cell_contains(g, length) {
        length
    } else {
        outer_length_from(g, (length - 1) as nat)
    }
}

/// The shortest length, at least `length`, whose center cell lies within
/// `g`; the longest supported length if none does.
pub open spec fn inner_length_from(g: Geohash, length: nat) -> nat
    decreases MAX_HASH_LENGTH - length,
{
    if length >= MAX_HASH_LENGTH || cell_within(g, length) {
        length
    } else {
        inner_length_from(g, length + 1)
    }
}

/// The canonical string form of a region: its outer hash, empty when only
/// the full globe contains the region on the grid.
pub open spec fn outer_hash_chars(g: Geohash) -> Seq<char> {
    let best = outer_length_from(g, MAX_HASH_LENGTH as nat);
    if best == 0 {
        Seq::empty()
    } else {
        encode_chars(g, 5 * best)
    }
}

/// The inner hash of a region.
pub open spec fn inner_hash_chars(g: Geohash) -> Seq<char> {
    encode_chars(g, 5 * inner_length_from(g, 1))
}

/// The edges of the center cell at `length` characters: multiples of the
/// grid steps, in range, and ordered around the region's center.
proof fn lemma_center_cell_edges(g: Geohash, length: nat)
    requires
        g.wf(),
        1 <= length <= MAX_HASH_LENGTH,
    ensures
        ({
            let total = 5 * length;
            let n = lat_bits_of(total);
            let m = lng_bits_of(total);
            let cc = center_cell_region(g, total);
            &&& cc.south() == cell_south(g, total)
            &&& cc.north() == cell_south(g, total) + lat_step(n)
            &&& cc.west() == cell_west(g, total)
            &&& cc.east() == cell_west(g, total) + lng_step(m)
            &&& -LAT_LIMIT <= cell_south(g, total)
            &&& cell_south(g, total) + lat_step(n) <= LAT_LIMIT
            &&& -LNG_LIMIT <= cell_west(g, total)
            &&& cell_west(g, total) + lng_step(m) <= LNG_LIMIT
            &&& cc.wf()
        }),
{
    let total = 5 * length;
    let n = lat_bits_of(total);
    let m = lng_bits_of(total);
    lemma_step_ranges(n, m);
    lemma_pow2_pos(n);
    lemma_pow2_pos(m);
    let j = lng_cell(g.center_lng(), m);
    let k = lat_cell(g.center_lat(), n);
    vstd::arithmetic::div_mod::lemma_mod_division_less_than_divisor(
        (g.center_lng() + LNG_LIMIT) / lng_step(m),
        pow2(m) as int,
    );
    vstd::arithmetic::div_mod::lemma_mod_division_less_than_divisor(
        (g.center_lat() + LAT_LIMIT) / lat_step(n),
        pow2(n) as int,
    );
    lemma_mul_inequality(k + 1, pow2(n) as int, lat_step(n));
    lemma_mul_inequality(j + 1, pow2(m) as int, lng_step(m));
    assert((k + 1) * lat_step(n) == k * lat_step(n) + lat_step(n)) by (nonlinear_arith);
    assert((j + 1) * lng_step(m) == j * lng_step(m) + lng_step(m)) by (nonlinear_arith);
    assert(k * lat_step(n) >= 0) by (nonlinear_arith)
        requires
            k >= 0,
            lat_step(n) >= 1,
    ;
    assert(j * lng_step(m) >= 0) by (nonlinear_arith)
        requires
            j >= 0,
            lng_step(m) >= 1,
    ;
}

/// The center cell of `g` at `length` characters, as four tick edges:
/// southern, northern, western, eastern.
fn center_cell_exec(g: &Geohash, length: usize) -> (e: (i64, i64, i64, i64))
    requires
        g.wf(),
        1 <= length <= MAX_HASH_LENGTH,
    ensures
        ({
            let total = (5 * length) as nat;
            &&& e.0 == cell_south(*g, total)
            &&& e.1 == cell_south(*g, total) + lat_step(lat_bits_of(total))
            &&& e.2 == cell_west(*g, total)
            &&& e.3 == cell_west(*g, total) + lng_step(lng_bits_of(total))
        }),
{
    let total = 5 * length;
    let n = total / 2;
    let m = total - n;
    let step_lat = lat_step_exec(n);
    let step_lng = lng_step_exec(m);
    let c = g.center();
    let k = lat_cell_exec(c.lat, n);
    let j = lng_cell_exec(c.lng, m);
    proof {
        lemma_center_cell_edges(*g, length as nat);
        lemma_step_ranges(n as nat, m as nat);
        assert(k * step_lat <= 2 * LAT_LIMIT - step_lat) by (nonlinear_arith)
            requires
                0 <= k < pow2(n as nat),
                step_lat == lat_step(n as nat),
                step_lat * pow2(n as nat) == 2 * LAT_LIMIT,
                step_lat >= 1,
        ;
        assert(j * step_lng <= 2 * LNG_LIMIT - step_lng) by (nonlinear_arith)
            requires
                0 <= j < pow2(m as nat),
                step_lng == lng_step(m as nat),
                step_lng * pow2(m as nat) == 2 * LNG_LIMIT,
                step_lng >= 1,
        ;
        assert(k * step_lat >= 0) by (nonlinear_arith)
            requires
                k >= 0,
                step_lat >= 0,
        ;
        assert(j * step_lng >= 0) by (nonlinear_arith)
            requires
                j >= 0,
                step_lng >= 0,
        ;
    }
    let cs: i64 = -LAT_LIMIT + ((k * step_lat) as i64);
    let cw: i64 = -LNG_LIMIT + ((j * step_lng) as i64);
    (cs, cs + (step_lat as i64), cw, cw + (step_lng as i64))
}

/// Whether the center cell of `g` at `length` characters contains `g`.
fn cell_contains_exec(g: &Geohash, length: usize) -> (b: bool)
    requires
        g.wf(),
        1 <= length <= MAX_HASH_LENGTH,
    ensures
        b == cell_contains(*g, length as nat),
{
    let (cs, cn, cw, ce) = center_cell_exec(g, length);
    cs <= g.bounding_bottom_right.lat && g.bounding_top_left.lat <= cn && cw
        <= g.bounding_top_left.lng && g.bounding_bottom_right.lng <= ce
}

/// Whether the center cell of `g` at `length` characters lies within `g`.
fn cell_within_exec(g: &Geohash, length: usize) -> (b: bool)
    requires
        g.wf(),
        1 <= length <= MAX_HASH_LENGTH,
    ensures
        b == cell_within(*g, length as nat),
{
    let (cs, cn, cw, ce) = center_cell_exec(g, length);
    g.bounding_bottom_right.lat <= cs && cn <= g.bounding_top_left.lat
        && g.bounding_top_left.lng <= cw && ce <= g.bounding_bottom_right.lng
}

impl Geohash {
    /// Create the longest hash whose decoded region still contains this
    /// whole region — the region's canonical string form.  When even a
    /// one-character hash cuts the region, the result is the empty string,
    /// which decodes to the full globe.
    pub fn get_outer_hash(&self) -> (s: String)
        requires
            self.wf(),
        ensures
            s@ == outer_hash_chars(*self),
            region_contains(decode_region(s@), *self),
    {
        proof {
            lemma_outer_hash_contains(*self);
        }
        let mut length: usize = MAX_HASH_LENGTH;
        while length > 0
            invariant
                self.wf(),
                length <= MAX_HASH_LENGTH,
                outer_length_from(*self, MAX_HASH_LENGTH as nat) == outer_length_from(
                    *self,
                    length as nat,
                ),
            decreases length,
        {
            if cell_contains_exec(self, length) {
                let s = self.hash_with_max_length(length);
                proof {
                    lemma_outer_hash_contains(*self);
                    assert(s@ == outer_hash_chars(*self));
                }
                return s;
            }
            length = length - 1;
        }
        let s = String::new();
        proof {
            assert(s@ =~= outer_hash_chars(*self));
        }
        s
    }

    /// Create the shortest hash whose decoded region lies within this
    /// region.  The region must span at least 90 ticks on each axis —
    /// twice the finest grid cell, under 2^-43 of a degree — so that the
    /// cell of the finest grid around the center fits inside it.
    pub fn get_inner_hash(&self) -> (s: String)
        requires
            self.wf(),
            self.north() - self.south() >= 90,
            self.east() - self.west() >= 90,
        ensures
            s@ == inner_hash_chars(*self),
            region_contains(*self, decode_region(s@)),
    {
        proof {
            lemma_inner_hash_within(*self);
        }
        let mut length: usize = 1;
        while length < MAX_HASH_LENGTH
            invariant
                self.wf(),
                self.north() - self.south() >= 90,
                self.east() - self.west() >= 90,
                1 <= length <= MAX_HASH_LENGTH,
                inner_length_from(*self, 1) == inner_length_from(*self, length as nat),
            decreases MAX_HASH_LENGTH - length,
        {
            if cell_within_exec(self, length) {
                let s = self.hash_with_max_length(length);
                proof {
                    lemma_inner_hash_within(*self);
                    assert(s@ == inner_hash_chars(*self));
                }
                return s;
            }
            length = length + 1;
        }
        let s = self.hash_with_max_length(MAX_HASH_LENGTH);
        proof {
            assert(s@ == inner_hash_chars(*self));
        }
        s
    }
}

/// The length the outer hash settles on either is zero or marks a cell
/// that contains the region.
proof fn lemma_outer_length_fits(g: Geohash, length: nat)
    ensures
        outer_length_from(g, length) <= length,
        outer_length_from(g, length) == 0 || cell_contains(g, outer_length_from(g, length)),
    decreases length,
{
    if length > 0 && !cell_contains(g, length) {
        lemma_outer_length_fits(g, (length - 1) as nat);
    }
}

/// At the longest supported length the grid cells are 45 ticks tall and
/// wide, so a region with 45 ticks of margin around its center on each
/// axis has its center cell within it.
proof fn lemma_cell_within_finest(g: Geohash)
    requires
        g.wf(),
        g.north() - g.south() >= 90,
        g.east() - g.west() >= 90,
    ensures
        cell_within(g, MAX_HASH_LENGTH as nat),
{
    let total = (5 * MAX_HASH_LENGTH) as nat;
    let n = lat_bits_of(total);
    let m = lng_bits_of(total);
    assert(n == 52 && m == 53);
    lemma_step_ranges(n, m);
    lemma2_to64();
    lemma2_to64_rest();
    assert(lat_step(n) == 45 && lng_step(m) == 45);
    let clat = g.center_lat();
    let clng = g.center_lng();
    assert(g.south() + 45 <= clat && clat + 45 <= g.north());
    assert(g.west() + 45 <= clng && clng + 45 <= g.east());
    // No wrap: the center is strictly below the upper limit on both axes.
    let qlat = (clat + LAT_LIMIT) / 45;
    let qlng = (clng + LNG_LIMIT) / 45;
    lemma_fundamental_div_mod(clat + LAT_LIMIT, 45);
    lemma_fundamental_div_mod(clng + LNG_LIMIT, 45);
    vstd::arithmetic::div_mod::lemma_mod_division_less_than_divisor(clat + LAT_LIMIT, 45);
    vstd::arithmetic::div_mod::lemma_mod_division_less_than_divisor(clng + LNG_LIMIT, 45);
    assert(qlat < pow2(52)) by {
        lemma_div_is_ordered(clat + LAT_LIMIT, 2 * LAT_LIMIT - 45, 45);
        lemma_fundamental_div_mod_converse_div(2 * LAT_LIMIT - 45, 45, pow2(52) as int - 1, 0);
    }
    assert(qlng < pow2(53)) by {
        lemma_div_is_ordered(clng + LNG_LIMIT, 2 * LNG_LIMIT - 45, 45);
        lemma_fundamental_div_mod_converse_div(2 * LNG_LIMIT - 45, 45, pow2(53) as int - 1, 0);
    }
    lemma_small_mod(qlat as nat, pow2(52));
    lemma_small_mod(qlng as nat, pow2(53));
    assert(cell_south(g, total) == clat - (clat + LAT_LIMIT) % 45);
    assert(cell_west(g, total) == clng - (clng + LNG_LIMIT) % 45);
}

/// The length the inner hash settles on marks a cell within the region,
/// provided the region has the margin the finest grid needs.
proof fn lemma_inner_length_fits(g: Geohash, length: nat)
    requires
        g.wf(),
        1 <= length <= MAX_HASH_LENGTH,
        g.north() - g.south() >= 90,
        g.east() - g.west() >= 90,
    ensures
        length <= inner_length_from(g, length) <= MAX_HASH_LENGTH,
        cell_within(g, inner_length_from(g, length)),
    decreases MAX_HASH_LENGTH - length,
{
    if length >= MAX_HASH_LENGTH || cell_within(g, length) {
        if length >= MAX_HASH_LENGTH {
            lemma_cell_within_finest(g);
        }
    } else {
        lemma_inner_length_fits(g, length + 1);
    }
}

/// Decoding a region's outer hash yields a region that contains it: the
/// canonical string form never loses any of the region it names.
pub proof fn lemma_outer_hash_contains(g: Geohash)
    requires
        g.wf(),
    ensures
        region_contains(decode_region(outer_hash_chars(g)), g),
{
    let best = outer_length_from(g, MAX_HASH_LENGTH as nat);
    lemma_outer_length_fits(g, MAX_HASH_LENGTH as nat);
    if best == 0 {
        lemma_decode_region_edges(Seq::<char>::empty());
        lemma_step_ranges(0, 0);
        lemma2_to64();
        let globe = decode_region(Seq::<char>::empty());
        let bits = hash_bits(Seq::<char>::empty());
        assert(bits =~= Seq::<bool>::empty());
        assert(even_elems(bits) =~= Seq::<bool>::empty());
        assert(odd_elems(bits) =~= Seq::<bool>::empty());
        assert(bits_val(Seq::<bool>::empty()) == 0);
        assert(globe.south() == -LAT_LIMIT + 0 * lat_step(0));
        assert(globe.west() == -LNG_LIMIT + 0 * lng_step(0));
        assert(pow2(0) == 1);
        assert(lat_step(0) * 1 == 2 * LAT_LIMIT);
        assert(lng_step(0) * 1 == 2 * LNG_LIMIT);
        assert(globe.north() == globe.south() + lat_step(0));
        assert(globe.east() == globe.west() + lng_step(0));
    } else {
        lemma_decode_encode(g, best);
        lemma_center_cell_edges(g, best);
    }
}

/// Decoding a region's inner hash yields a region contained in it,
/// provided the region has the margin the finest grid needs.
pub proof fn lemma_inner_hash_within(g: Geohash)
    requires
        g.wf(),
        g.north() - g.south() >= 90,
        g.east() - g.west() >= 90,
    ensures
        region_contains(g, decode_region(inner_hash_chars(g))),
{
    let best = inner_length_from(g, 1);
    lemma_inner_length_fits(g, 1);
    lemma_decode_encode(g, best);
    lemma_center_cell_edges(g, best);
}

/// Appending five elements extends the even- and odd-position elements by
/// the five elements' own even and odd positions — or the other way round
/// after an odd-length prefix.
proof fn lemma_even_odd_concat5(b: Seq<bool>, c: Seq<bool>)
    requires
        c.len() == 5,
    ensures
        b.len() % 2 == 0 ==> even_elems(b + c) == even_elems(b) + seq![c[0], c[2], c[4]]
            && odd_elems(b + c) == odd_elems(b) + seq![c[1], c[3]],
        b.len() % 2 == 1 ==> even_elems(b + c) == even_elems(b) + seq![c[1], c[3]] && odd_elems(
            b + c,
        ) == odd_elems(b) + seq![c[0], c[2], c[4]],
{
    if b.len() % 2 == 0 {
        assert(even_elems(b + c) =~= even_elems(b) + seq![c[0], c[2], c[4]]);
        assert(odd_elems(b + c) =~= odd_elems(b) + seq![c[1], c[3]]);
    } else {
        assert(even_elems(b + c) =~= even_elems(b) + seq![c[1], c[3]]);
        assert(odd_elems(b + c) =~= odd_elems(b) + seq![c[0], c[2], c[4]]);
    }
}

/// Map a boolean sequence, read most-significant bit first, onto the range
/// from `min` to `max`: each set bit at position `i` adds the range's size
/// over `2^(i+1)`.  The result is the low end of the sub-range the bits
/// single out: `min + (max - min) / 2^len * value(bits)`.
fn bool_vec_to_scaled_number(bools: &Vec<bool>, min: i64, max: i64) -> (r: i64)
    requires
        bools@.len() <= 53,
        min <= max,
        -LNG_LIMIT <= min,
        max <= LNG_LIMIT,
        (max - min) % (pow2(bools@.len()) as int) == 0,
    ensures
        r == min + (max - min) / (pow2(bools@.len()) as int) * bits_val(bools@),
{
    let len = bools.len();
    let range: u64 = (max - min) as u64;
    let ghost unit: int = (max - min) as int / pow2(len as nat) as int;
    proof {
        lemma2_to64();
        lemma_pow2_pos(len as nat);
        lemma_fundamental_div_mod((max - min) as int, pow2(len as nat) as int);
        vstd::arithmetic::div_mod::lemma_div_pos_is_pos(
            (max - min) as int,
            pow2(len as nat) as int,
        );
        assert(range == unit * pow2(len as nat));
    }
    let mut v: u64 = 0;
    let mut i: usize = 0;
    while i < len
        invariant
            len == bools@.len() <= 53,
            i <= len,
            v == bits_val(bools@.take(i as int)),
            0 <= v < pow2(i as nat),
        decreases len - i,
    {
        proof {
            lemma2_to64_rest();
            if (i as nat) < 53 {
                vstd::arithmetic::power2::lemma_pow2_strictly_increases(i as nat, 53);
            }
            lemma_pow2_unfold((i + 1) as nat);
            assert(bools@.take(i + 1).drop_last() =~= bools@.take(i as int));
        }
        let b = bools[i];
        v = 2 * v + (if b {
            1
        } else {
            0
        });
        i = i + 1;
    }
    let mut cur: u64 = range;
    let mut t: usize = 0;
    while t < len
        invariant
            t <= len <= 53,
            unit >= 0,
            cur == unit * pow2((len - t) as nat),
        decreases len - t,
    {
        proof {
            lemma_pow2_unfold((len - t) as nat);
            assert(unit * (2 * pow2((len - t - 1) as nat)) == 2 * (unit * pow2(
                (len - t - 1) as nat,
            ))) by (nonlinear_arith);
            lemma_div_multiples_vanish(unit * pow2((len - t - 1) as nat) as int, 2);
        }
        cur = cur / 2;
        t = t + 1;
    }
    proof {
        lemma2_to64();
        assert(cur == unit * pow2(0) && pow2(0) == 1);
        assert(bools@.take(len as int) =~= bools@);
        assert(cur * v <= range) by (nonlinear_arith)
            requires
                0 <= cur,
                0 <= v < pow2(len as nat),
                cur * pow2(len as nat) == range,
        ;
    }
    min + ((cur * v) as i64)
}

/// Parse a geohash string, case-insensitively, into the coordinate of the
/// south-western corner of the region it describes.  A character outside
/// the alphabet is rejected.
pub fn parse_geohash(hash: &str) -> (r: Result<Coordinate, CoordinateError>)
    requires
        hash@.len() <= MAX_HASH_LENGTH,
    ensures
        match r {
            Ok(c) => {
                &&& forall|i: int| 0 <= i < hash@.len() ==> char_symbol(#[trigger] hash@[i]) >= 0
                &&& c.lat == decode_region(hash@).south()
                &&& c.lng == decode_region(hash@).west()
                &&& c.valid()
            },
            Err(e) => {
                &&& e == CoordinateError::InvalidValue
                &&& exists|i: int| 0 <= i < hash@.len() && char_symbol(#[trigger] hash@[i]) == -1
            },
        },
{
    let len = hash.unicode_len();
    let mut lat_seq: Vec<bool> = Vec::new();
    let mut lng_seq: Vec<bool> = Vec::new();
    let mut i: usize = 0;
    while i < len
        invariant
            len == hash@.len() <= MAX_HASH_LENGTH,
            i <= len,
            forall|t: int| 0 <= t < i ==> char_symbol(#[trigger] hash@[t]) >= 0,
            lat_seq@ == odd_elems(hash_bits(hash@.take(i as int))),
            lng_seq@ == even_elems(hash_bits(hash@.take(i as int))),
        decreases len - i,
    {
        let ch = hash.get_char(i);
        let sym = match GeohashB32::try_from(ch) {
            Ok(s) => s,
            Err(e) => {
                return Err(e);
            },
        };
        let first_bit_lat = i % 2 == 1;
        let (mut lat_part, mut lng_part) = sym.get_lat_lng_bit_values(first_bit_lat);
        let ghost prev = hash_bits(hash@.take(i as int));
        let ghost c5 = char_bits(hash@[i as int]);
        lat_seq.append(&mut lat_part);
        lng_seq.append(&mut lng_part);
        proof {
            lemma_hash_bits_len(hash@.take(i as int));
            lemma_sym_bits5(sym.0);
            assert(hash@.take(i + 1).drop_last() =~= hash@.take(i as int));
            assert(hash@.take(i + 1).last() == hash@[i as int]);
            assert(hash_bits(hash@.take(i + 1)) == prev + c5);
            lemma_even_odd_concat5(prev, c5);
            assert(c5 =~= seq![c5[0], c5[1], c5[2], c5[3], c5[4]]);
            assert(lat_seq@ =~= odd_elems(hash_bits(hash@.take(i + 1))));
            assert(lng_seq@ =~= even_elems(hash_bits(hash@.take(i + 1))));
        }
        i = i + 1;
    }
    proof {
        assert(hash@.take(len as int) =~= hash@);
        lemma_hash_bits_len(hash@);
        lemma_decode_region_edges(hash@);
        let n = (5 * hash@.len() / 2) as nat;
        let m = ((5 * hash@.len() + 1) / 2) as nat;
        lemma_step_ranges(n, m);
        vstd::arithmetic::div_mod::lemma_mod_multiples_basic(lat_step(n), pow2(n) as int);
        vstd::arithmetic::div_mod::lemma_mod_multiples_basic(lng_step(m), pow2(m) as int);
        vstd::arithmetic::div_mod::lemma_div_by_multiple(lat_step(n), pow2(n) as int);
        vstd::arithmetic::div_mod::lemma_div_by_multiple(lng_step(m), pow2(m) as int);
    }
    let lat = bool_vec_to_scaled_number(&lat_seq, -LAT_LIMIT, LAT_LIMIT);
    let lng = bool_vec_to_scaled_number(&lng_seq, -LNG_LIMIT, LNG_LIMIT);
    proof {
        let n = (5 * hash@.len() / 2) as nat;
        let m = ((5 * hash@.len() + 1) / 2) as nat;
        let k = bits_val(odd_elems(hash_bits(hash@)));
        let j = bits_val(even_elems(hash_bits(hash@)));
        assert(lat_seq@.len() == n && lng_seq@.len() == m);
        assert((LAT_LIMIT - (-LAT_LIMIT)) / (pow2(n) as int) == lat_step(n));
        assert((LNG_LIMIT - (-LNG_LIMIT)) / (pow2(m) as int) == lng_step(m));
        assert(lat == -LAT_LIMIT + lat_step(n) * k);
        assert(lng == -LNG_LIMIT + lng_step(m) * j);
        assert((hash_bits(hash@).len() / 2) as nat == n);
        assert(((hash_bits(hash@).len() + 1) / 2) as nat == m);
        assert(lat_step(n) * k == k * lat_step(n)) by (nonlinear_arith);
        assert(lng_step(m) * j == j * lng_step(m)) by (nonlinear_arith);
        assert(decode_region(hash@).south() == -LAT_LIMIT + k * lat_step(n));
        assert(decode_region(hash@).west() == -LNG_LIMIT + j * lng_step(m));
        assert(lat == decode_region(hash@).south());
        assert(lng == decode_region(hash@).west());
    }
    match Coordinate::new(lat, lng) {
        Ok(c) => Ok(c),
        Err(_) => {
            proof {
                assert(false);
            }
            Err(CoordinateError::InvalidValue)
        },
    }
}

} // verus!
