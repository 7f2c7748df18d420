//! Mathematical model of bit sequences.
//!
//! A geohash is built from two per-axis bit strings that are interleaved,
//! longitude first, and then packed into base-32 characters.  This module
//! gives the specification-level vocabulary for that: the numeric value of a
//! most-significant-bit-first sequence, the bit sequence of an index, and
//! the interleaving of two sequences together with its two inverses.

use vstd::prelude::*;
use vstd::arithmetic::div_mod::{lemma_div_pos_is_pos, lemma_fundamental_div_mod};
use vstd::arithmetic::power2::{lemma_pow2_pos, pow2};

verus! {

/// Numeric value of a bit sequence read most-significant bit first.
pub open spec fn bits_val(b: Seq<bool>) -> int
    decreases b.len(),
{
    if b.len() == 0 {
        0
    } else {
        2 * bits_val(b.drop_last()) + (if b.last() {
            1int
        } else {
            0int
        })
    }
}

/// The `n` low-order bits of `v`, most-significant bit first.
pub open spec fn idx_bits(v: int, n: nat) -> Seq<bool>
    decreases n,
{
    if n == 0 {
        Seq::empty()
    } else {
        idx_bits(v / 2, (n - 1) as nat).push(v % 2 == 1)
    }
}

/// Alternate the elements of `a` and `b`, starting with `a`; `a` may be one
/// element longer than `b` (the unbalanced tail of an odd-length result).
pub open spec fn interleave(a: Seq<bool>, b: Seq<bool>) -> Seq<bool> {
    Seq::new(a.len() + b.len(), |i: int| if i % 2 == 0 { a[i / 2] } else { b[i / 2] })
}

/// The elements of `s` at even positions.
pub open spec fn even_elems(s: Seq<bool>) -> Seq<bool> {
    Seq::new((s.len() + 1) / 2, |i: int| s[2 * i])
}

/// The elements of `s` at odd positions.
pub open spec fn odd_elems(s: Seq<bool>) -> Seq<bool> {
    Seq::new(s.len() / 2, |i: int| s[2 * i + 1])
}

/// `idx_bits` always yields exactly `n` bits.
pub proof fn lemma_idx_bits_len(v: int, n: nat)
    ensures
        idx_bits(v, n).len() == n,
    decreases n,
{
    if n > 0 {
        lemma_idx_bits_len(v / 2, (n - 1) as nat);
    }
}

/// A bit sequence's value is a non-negative number below 2^len.
pub proof fn lemma_bits_val_bound(b: Seq<bool>)
    ensures
        0 <= bits_val(b) < pow2(b.len()),
    decreases b.len(),
{
    if b.len() == 0 {
        assert(pow2(0) == 1) by {
            vstd::arithmetic::power2::lemma2_to64();
        }
    } else {
        vstd::arithmetic::power2::lemma_pow2_unfold(b.len());
        lemma_bits_val_bound(b.drop_last());
    }
}

/// Reading back the bits of an index yields the index, for indices that fit.
pub proof fn lemma_idx_bits_val(v: int, n: nat)
    requires
        0 <= v < pow2(n),
    ensures
        bits_val(idx_bits(v, n)) == v,
        idx_bits(v, n).len() == n,
    decreases n,
{
    if n == 0 {
        assert(pow2(0) == 1) by {
            vstd::arithmetic::power2::lemma2_to64();
        }
    } else {
        vstd::arithmetic::power2::lemma_pow2_unfold(n);
        lemma_fundamental_div_mod(v, 2);
        lemma_idx_bits_val(v / 2, (n - 1) as nat);
        let t = idx_bits(v / 2, (n - 1) as nat);
        let b = t.push(v % 2 == 1);
        assert(b.drop_last() =~= t);
        assert(bits_val(b) == 2 * bits_val(t) + (if b.last() {
            1int
        } else {
            0int
        }));
    }
}

/// Taking the bits of a sequence's value yields the sequence back.
pub proof fn lemma_bits_idx(b: Seq<bool>)
    ensures
        idx_bits(bits_val(b), b.len()) == b,
    decreases b.len(),
{
    if b.len() == 0 {
        assert(idx_bits(bits_val(b), b.len()) =~= b);
    } else {
        let v = bits_val(b);
        lemma_bits_val_bound(b.drop_last());
        assert(v / 2 == bits_val(b.drop_last()) && (v % 2 == 1) == b.last()) by {
            lemma_fundamental_div_mod(v, 2);
        }
        lemma_bits_idx(b.drop_last());
        assert(idx_bits(v, b.len()) =~= b);
    }
}

/// Interleaving the even- and odd-position elements restores the sequence.
pub proof fn lemma_interleave_even_odd(s: Seq<bool>)
    ensures
        interleave(even_elems(s), odd_elems(s)) == s,
{
    let t = interleave(even_elems(s), odd_elems(s));
    assert forall|i: int| 0 <= i < s.len() implies t[i] == s[i] by {
        lemma_fundamental_div_mod(i, 2);
    }
    assert(t =~= s);
}

/// The even-position elements of an interleaving are its first argument,
/// and the odd-position elements its second.
pub proof fn lemma_even_odd_interleave(a: Seq<bool>, b: Seq<bool>)
    requires
        b.len() <= a.len() <= b.len() + 1,
    ensures
        even_elems(interleave(a, b)) == a,
        odd_elems(interleave(a, b)) == b,
{
    let s = interleave(a, b);
    assert forall|i: int| 0 <= i < a.len() implies even_elems(s)[i] == a[i] by {
        assert(s[2 * i] == a[2 * i / 2]);
    }
    assert forall|i: int| 0 <= i < b.len() implies odd_elems(s)[i] == b[i] by {
        assert(s[2 * i + 1] == b[(2 * i + 1) / 2]);
    }
    assert(even_elems(s) =~= a);
    assert(odd_elems(s) =~= b);
}

/// Appending one element extends the even-position elements exactly when the
/// sequence's length is even, and the odd-position ones otherwise.
pub proof fn lemma_even_odd_push(s: Seq<bool>, x: bool)
    ensures
        s.len() % 2 == 0 ==> even_elems(s.push(x)) == even_elems(s).push(x)
            && odd_elems(s.push(x)) == odd_elems(s),
        s.len() % 2 == 1 ==> even_elems(s.push(x)) == even_elems(s)
            && odd_elems(s.push(x)) == odd_elems(s).push(x),
{
    if s.len() % 2 == 0 {
        assert(even_elems(s.push(x)) =~= even_elems(s).push(x));
        assert(odd_elems(s.push(x)) =~= odd_elems(s));
    } else {
        assert(even_elems(s.push(x)) =~= even_elems(s));
        assert(odd_elems(s.push(x)) =~= odd_elems(s).push(x));
    }
}

} // verus!
