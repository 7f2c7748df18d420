//! The geohash base-32 alphabet codec.
//!
//! A geohash character stands for a 5-bit value.  The alphabet is
//! `0123456789bcdefghjkmnpqrstuvwxyz`: the digits and the lowercase letters
//! with `a`, `i`, `l` and `o` left out to avoid visual ambiguity.  Reading
//! is case-insensitive; writing always produces the lowercase form.

use vstd::prelude::*;
use crate::bits::{bits_val, idx_bits};
use crate::CoordinateError;

verus! {

/// Code point of the alphabet character for symbol `sym` (0 to 31);
/// 0 for symbols outside that range.
pub open spec fn symbol_char_code(sym: int) -> int {
    if 0 <= sym <= 9 {
        48 + sym  // '0' to '9'
    } else if 10 <= sym <= 16 {
        98 + (sym - 10)  // 'b' to 'h'
    } else if 17 <= sym <= 18 {
        106 + (sym - 17)  // 'j', 'k'
    } else if 19 <= sym <= 20 {
        109 + (sym - 19)  // 'm', 'n'
    } else if 21 <= sym <= 31 {
        112 + (sym - 21)  // 'p' to 'z'
    } else {
        0
    }
}

/// The alphabet character for symbol `sym`.
pub open spec fn symbol_char(sym: int) -> char {
    symbol_char_code(sym) as char
}

/// ASCII lowercasing of a single code point.
pub open spec fn lower_code(code: int) -> int {
    if 65 <= code <= 90 {
        code + 32
    } else {
        code
    }
}

/// Symbol of character `c`, read case-insensitively; -1 if `c` is not an
/// alphabet character.
pub open spec fn char_symbol(c: char) -> int {
    let code = lower_code(c as int);
    if 48 <= code <= 57 {
        code - 48
    } else if 98 <= code <= 104 {
        10 + (code - 98)
    } else if 106 <= code <= 107 {
        17 + (code - 106)
    } else if 109 <= code <= 110 {
        19 + (code - 109)
    } else if 112 <= code <= 122 {
        21 + (code - 112)
    } else {
        -1
    }
}

/// `c` is one of the 32 canonical (lowercase) alphabet characters.
pub open spec fn alphabet_char(c: char) -> bool {
    0 <= char_symbol(c) <= 31 && symbol_char(char_symbol(c)) == c
}

/// The five bits of the symbol of `c`, most-significant first.
pub open spec fn char_bits(c: char) -> Seq<bool> {
    idx_bits(char_symbol(c), 5)
}

/// A geohash character, held as its 5-bit symbol value.
///
/// The alphabet, indexed by symbol value:
/// `01234 56789 bcdef ghjkm npqrs tuvwx yz`
#[derive(Debug, Clone, Copy, PartialEq, Eq, Structural)]
pub struct GeohashB32(pub u8);

impl GeohashB32 {
    /// Read a character as a symbol, case-insensitively; characters outside
    /// the alphabet are rejected.
    pub fn try_from(c: char) -> (r: Result<GeohashB32, CoordinateError>)
        ensures
            match r {
                Ok(s) => char_symbol(c) == s.0 as int && s.0 <= 31,
                Err(e) => e == CoordinateError::InvalidValue && char_symbol(c) == -1,
            },
    {
        let raw: u32 = c as u32;
        let code: u32 = if 65 <= raw && raw <= 90 {
            raw + 32
        } else {
            raw
        };
        if 48 <= code && code <= 57 {
            Ok(GeohashB32((code - 48) as u8))
        } else if 98 <= code && code <= 104 {
            Ok(GeohashB32((code - 98 + 10) as u8))
        } else if 106 <= code && code <= 107 {
            Ok(GeohashB32((code - 106 + 17) as u8))
        } else if 109 <= code && code <= 110 {
            Ok(GeohashB32((code - 109 + 19) as u8))
        } else if 112 <= code && code <= 122 {
            Ok(GeohashB32((code - 112 + 21) as u8))
        } else {
            Err(CoordinateError::InvalidValue)
        }
    }

    /// Write a symbol as its alphabet character; symbols above 31 are
    /// rejected.
    pub fn to_char(&self) -> (r: Result<char, CoordinateError>)
        ensures
            match r {
                Ok(c) => self.0 <= 31 && c == symbol_char(self.0 as int),
                Err(e) => e == CoordinateError::InvalidValue && self.0 > 31,
            },
    {
        let v = self.0;
        if v <= 9 {
            Ok((48 + v) as char)
        } else if v <= 16 {
            Ok((98 + (v - 10)) as char)
        } else if v <= 18 {
            Ok((106 + (v - 17)) as char)
        } else if v <= 20 {
            Ok((109 + (v - 19)) as char)
        } else if v <= 31 {
            Ok((112 + (v - 21)) as char)
        } else {
            Err(CoordinateError::InvalidValue)
        }
    }
}

impl GeohashB32 {
    /// The values of the even-weighted bits of the symbol — weights 8 and
    /// 2 — highest weight first.
    pub fn get_even_bits_value(&self) -> (r: Vec<bool>)
        ensures
            r@ =~= seq![self.0 as int / 8 % 2 == 1, self.0 as int / 2 % 2 == 1],
    {
        let mut result: Vec<bool> = Vec::new();
        result.push((self.0 / 8) % 2 == 1);
        result.push((self.0 / 2) % 2 == 1);
        result
    }

    /// The values of the odd-weighted bits of the symbol — weights 16, 4
    /// and 1 — highest weight first.
    pub fn get_odd_bits_value(&self) -> (r: Vec<bool>)
        ensures
            r@ =~= seq![
                self.0 as int / 16 % 2 == 1,
                self.0 as int / 4 % 2 == 1,
                self.0 as int % 2 == 1,
            ],
    {
        let mut result: Vec<bool> = Vec::new();
        result.push((self.0 / 16) % 2 == 1);
        result.push((self.0 / 4) % 2 == 1);
        result.push(self.0 % 2 == 1);
        result
    }

    /// The latitude and longitude bits of the symbol, in that order.  The
    /// first — highest-weighted — bit of a symbol belongs to latitude or to
    /// longitude as the caller's interleaving position dictates; the rest
    /// alternate.
    pub fn get_lat_lng_bit_values(&self, first_bit_lat: bool) -> (r: (Vec<bool>, Vec<bool>))
        ensures
            first_bit_lat ==> r.0@ =~= seq![
                self.0 as int / 16 % 2 == 1,
                self.0 as int / 4 % 2 == 1,
                self.0 as int % 2 == 1,
            ] && r.1@ =~= seq![self.0 as int / 8 % 2 == 1, self.0 as int / 2 % 2 == 1],
            !first_bit_lat ==> r.0@ =~= seq![
                self.0 as int / 8 % 2 == 1,
                self.0 as int / 2 % 2 == 1,
            ] && r.1@ =~= seq![
                self.0 as int / 16 % 2 == 1,
                self.0 as int / 4 % 2 == 1,
                self.0 as int % 2 == 1,
            ],
    {
        if first_bit_lat {
            (self.get_odd_bits_value(), self.get_even_bits_value())
        } else {
            (self.get_even_bits_value(), self.get_odd_bits_value())
        }
    }
}

/// Every symbol maps to an alphabet character and back to itself, and the
/// four excluded letters are rejected.
pub proof fn lemma_alphabet_bijection()
    ensures
        forall|sym: int|
            0 <= sym <= 31 ==> #[trigger] char_symbol(symbol_char(sym)) == sym
                && alphabet_char(symbol_char(sym)),
        char_symbol('a') == -1,
        char_symbol('i') == -1,
        char_symbol('l') == -1,
        char_symbol('o') == -1,
{
    assert forall|sym: int| 0 <= sym <= 31 implies #[trigger] char_symbol(symbol_char(sym)) == sym
        && alphabet_char(symbol_char(sym)) by {
        let code = symbol_char_code(sym);
        assert(48 <= code <= 122);
        assert(symbol_char(sym) as int == code);
    }
}

} // verus!
