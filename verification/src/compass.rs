//! Compass directions named in text.

use vstd::prelude::*;

verus! {

/// ASCII uppercasing of a single code point.
pub open spec fn upper_code(code: int) -> int {
    if 97 <= code <= 122 {
        code - 32
    } else {
        code
    }
}

/// ASCII uppercasing of a character sequence, as code points.
pub open spec fn ascii_upper(s: Seq<char>) -> Seq<int> {
    Seq::new(s.len(), |i: int| upper_code(s[i] as int))
}

/// Whether two strings agree up to ASCII case.
fn eq_ignore_ascii_case(s: &str, t: &str) -> (b: bool)
    ensures
        b == (ascii_upper(s@) == ascii_upper(t@)),
{
    let slen = s.unicode_len();
    let tlen = t.unicode_len();
    if slen != tlen {
        proof {
            assert(ascii_upper(s@).len() != ascii_upper(t@).len());
        }
        return false;
    }
    let mut i: usize = 0;
    while i < slen
        invariant
            slen == s@.len() == t@.len(),
            i <= slen,
            forall|x: int| 0 <= x < i ==> ascii_upper(s@)[x] == ascii_upper(t@)[x],
        decreases slen - i,
    {
        let sc = s.get_char(i) as u32;
        let tc = t.get_char(i) as u32;
        let su: u32 = if 97 <= sc && sc <= 122 {
            sc - 32
        } else {
            sc
        };
        let tu: u32 = if 97 <= tc && tc <= 122 {
            tc - 32
        } else {
            tc
        };
        if su != tu {
            proof {
                assert(ascii_upper(s@)[i as int] != ascii_upper(t@)[i as int]);
            }
            return false;
        }
        proof {
            assert(ascii_upper(s@)[i as int] == ascii_upper(t@)[i as int]);
        }
        i = i + 1;
    }
    proof {
        assert(ascii_upper(s@) =~= ascii_upper(t@));
    }
    true
}

/// Possible compass directions.
#[derive(Debug, Clone, Copy, PartialEq, Eq, Structural)]
pub enum CompassDirection {
    /// North
    North,
    /// East
    East,
    /// South
    South,
    /// West
    West,
}

impl CompassDirection {
    /// The names, long and short, that each direction answers to, up to
    /// ASCII case.
    pub open spec fn named(self, s: Seq<char>) -> bool {
        match self {
            CompassDirection::North => ascii_upper(s) == ascii_upper("N"@) || ascii_upper(s)
                == ascii_upper("NORTH"@),
            CompassDirection::East => ascii_upper(s) == ascii_upper("E"@) || ascii_upper(s)
                == ascii_upper("EAST"@),
            CompassDirection::South => ascii_upper(s) == ascii_upper("S"@) || ascii_upper(s)
                == ascii_upper("SOUTH"@),
            CompassDirection::West => ascii_upper(s) == ascii_upper("W"@) || ascii_upper(s)
                == ascii_upper("WEST"@),
        }
    }

    /// Read a direction from its name, case-insensitively.  The name must
    /// be one of the eight recognized forms.
    pub fn from(dir: &str) -> (r: CompassDirection)
        requires
            exists|d: CompassDirection| d.named(dir@),
        ensures
            r.named(dir@),
    {
        if eq_ignore_ascii_case(dir, "N") || eq_ignore_ascii_case(dir, "NORTH") {
            CompassDirection::North
        } else if eq_ignore_ascii_case(dir, "E") || eq_ignore_ascii_case(dir, "EAST") {
            CompassDirection::East
        } else if eq_ignore_ascii_case(dir, "S") || eq_ignore_ascii_case(dir, "SOUTH") {
            CompassDirection::South
        } else if eq_ignore_ascii_case(dir, "W") || eq_ignore_ascii_case(dir, "WEST") {
            CompassDirection::West
        } else {
            proof {
                let d = choose|d: CompassDirection| d.named(dir@);
                assert(false);
            }
            CompassDirection::North
        }
    }
}

} // verus!
