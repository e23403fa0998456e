//! The fixed five-bit layout of one symbol.
//!
//! A symbol holds a two-bit field `a` and a three-bit field `b`, woven together
//! as `b2 a1 b1 a0 b0` from the highest bit to the lowest.

use vstd::prelude::*;

verus! {

/// The symbol that weaves the low two bits of `a` with the low three bits of `b`.
pub open spec fn spec_interleave(a: u8, b: u8) -> u8 {
    ((b % 2) + 2 * (a % 2) + 4 * ((b / 2) % 2) + 8 * ((a / 2) % 2) + 16 * ((b / 4) % 2)) as u8
}

/// The two-bit field of `x`: its bits 1 and 3.
pub open spec fn two_bit_field(x: u8) -> u8 {
    ((x / 2) % 2 + 2 * ((x / 8) % 2)) as u8
}

/// The three-bit field of `x`: its bits 0, 2 and 4.
pub open spec fn three_bit_field(x: u8) -> u8 {
    (x % 2 + 2 * ((x / 4) % 2) + 4 * ((x / 16) % 2)) as u8
}

/// The two fields held in the low five bits of `x`: first the two-bit one,
/// then the three-bit one.
pub open spec fn spec_de_interleave(x: u8) -> (u8, u8) {
    (two_bit_field(x), three_bit_field(x))
}

/// Weaves a two-bit field and a three-bit field into one five-bit symbol.
/// Bits of the arguments above the field widths are ignored.
pub fn interleave(lat: u8, lon: u8) -> (s: u8)
    ensures
        s == spec_interleave(lat, lon),
        s < 32,
{
    let s: u8 = (lon & 1) | ((lat & 1) << 1) | (((lon >> 1) & 1) << 2) | (((lat >> 1) & 1) << 3) | (
    ((lon >> 2) & 1) << 4);
    assert(((lon & 1) | ((lat & 1) << 1) | (((lon >> 1) & 1) << 2) | (((lat >> 1) & 1) << 3) | (((
    lon >> 2) & 1) << 4)) == ((lon % 2) + 2 * (lat % 2) + 4 * ((lon / 2) % 2) + 8 * ((lat / 2) % 2)
        + 16 * ((lon / 4) % 2))) by (bit_vector);
    s
}

/// Splits a symbol into its two-bit and its three-bit field. Bits of `x` above
/// the fifth are ignored.
pub fn de_interleave(x: u8) -> (r: (u8, u8))
    ensures
        r == spec_de_interleave(x),
        r.0 < 4,
        r.1 < 8,
{
    let lat: u8 = ((x & 0b1000) >> 2) | ((x & 0b10) >> 1);
    let lon: u8 = ((x & 0b10000) >> 2) | ((x & 0b100) >> 1) | (x & 1);
    assert((((x & 0b1000) >> 2) | ((x & 0b10) >> 1)) == ((x / 2) % 2 + 2 * ((x / 8) % 2)))
        by (bit_vector);
    assert((((x & 0b10000) >> 2) | ((x & 0b100) >> 1) | (x & 1)) == (x % 2 + 2 * ((x / 4) % 2) + 4
        * ((x / 16) % 2))) by (bit_vector);
    (lat, lon)
}

/// Splitting undoes weaving: a two-bit `a` and a three-bit `b` come back
/// unchanged from the symbol made of them.
pub proof fn lemma_de_interleave_interleave(a: u8, b: u8)
    requires
        a < 4,
        b < 8,
    ensures
        spec_interleave(a, b) < 32,
        spec_de_interleave(spec_interleave(a, b)) == (a, b),
{
    assert(spec_interleave(a, b) < 32 && two_bit_field(spec_interleave(a, b)) == a
        && three_bit_field(spec_interleave(a, b)) == b) by (bit_vector)
        requires
            a < 4,
            b < 8,
    ;
}

/// Weaving undoes splitting: every five-bit symbol is the weaving of its own
/// two fields, so no two field pairs share a symbol.
pub proof fn lemma_interleave_de_interleave(x: u8)
    requires
        x < 32,
    ensures
        spec_de_interleave(x).0 < 4,
        spec_de_interleave(x).1 < 8,
        spec_interleave(spec_de_interleave(x).0, spec_de_interleave(x).1) == x,
{
    assert(two_bit_field(x) < 4 && three_bit_field(x) < 8 && spec_interleave(
        two_bit_field(x),
        three_bit_field(x),
    ) == x) by (bit_vector)
        requires
            x < 32,
    ;
}

} // verus!
