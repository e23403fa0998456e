//! The bit budget of a code: how many bits of each axis a code of a given
//! length resolves, and where the field of each position sits in the 56-bit
//! fixed-point value of its axis.

use vstd::prelude::*;

verus! {

/// Bits of resolution of each fixed-point axis.
pub const FIXED_BITS: u64 = 56;

/// The longest code that the bit budget allows.
pub const MAX_LENGTH: u8 = 18;

/// One more than the largest fixed-point value of an axis.
pub const FIXED_LIMIT: u64 = 0x0100_0000_0000_0000;

/// Latitude bits held by the symbol at position `i` (counted from 0): two at
/// even positions, three at odd ones.
pub open spec fn lat_width(i: nat) -> nat {
    if i % 2 == 0 {
        2
    } else {
        3
    }
}

/// Longitude bits held by the symbol at position `i`: what latitude leaves of five.
pub open spec fn lon_width(i: nat) -> nat {
    (5 - lat_width(i)) as nat
}

/// Latitude bits resolved by the first `n` symbols of a code.
pub open spec fn lat_bits(n: nat) -> nat {
    (2 * (n - n / 2) + 3 * (n / 2)) as nat
}

/// Longitude bits resolved by the first `n` symbols of a code.
pub open spec fn lon_bits(n: nat) -> nat {
    (3 * (n - n / 2) + 2 * (n / 2)) as nat
}

/// How far the lowest latitude bit resolved by `n` symbols lies above bit 0.
pub open spec fn lat_shift(n: nat) -> u64
    recommends
        n <= MAX_LENGTH,
{
    (FIXED_BITS - lat_bits(n)) as u64
}

/// How far the lowest longitude bit resolved by `n` symbols lies above bit 0.
pub open spec fn lon_shift(n: nat) -> u64
    recommends
        n <= MAX_LENGTH,
{
    (FIXED_BITS - lon_bits(n)) as u64
}

/// Half the height, in fixed-point units, of the cell named by a code of `n` symbols.
pub open spec fn lat_half_cell(n: nat) -> u64
    recommends
        n <= MAX_LENGTH,
{
    1u64 << ((lat_shift(n) - 1) as u64)
}

/// Half the width, in fixed-point units, of the cell named by a code of `n` symbols.
pub open spec fn lon_half_cell(n: nat) -> u64
    recommends
        n <= MAX_LENGTH,
{
    1u64 << ((lon_shift(n) - 1) as u64)
}

/// Each symbol adds its own width to the bits resolved so far, and a code
/// within the length limit leaves at least eleven bits of each axis unresolved.
pub proof fn lemma_bits_step(n: nat)
    ensures
        lat_bits(n + 1) == lat_bits(n) + lat_width(n),
        lon_bits(n + 1) == lon_bits(n) + lon_width(n),
        lat_bits(n) + lon_bits(n) == 5 * n,
        n <= MAX_LENGTH ==> lat_bits(n) <= 45 && lon_bits(n) <= 45,
{
}

/// The numbers of latitude and longitude bits that a code of `length` symbols resolves.
pub fn resolved_bits(length: u8) -> (r: (u64, u64))
    ensures
        r.0 == lat_bits(length as nat),
        r.1 == lon_bits(length as nat),
{
    let n: u64 = length as u64;
    let even: u64 = n / 2;
    let odd: u64 = n - even;
    (2 * odd + 3 * even, 3 * odd + 2 * even)
}

/// The shifts at which the fields of the symbol that ends a code of `length`
/// symbols sit in the latitude and the longitude value.
pub fn field_shifts(length: u8) -> (r: (u64, u64))
    requires
        length <= MAX_LENGTH,
    ensures
        r.0 == lat_shift(length as nat),
        r.1 == lon_shift(length as nat),
        11 <= r.0 <= FIXED_BITS,
        11 <= r.1 <= FIXED_BITS,
{
    let (lat, lon) = resolved_bits(length);
    (FIXED_BITS - lat, FIXED_BITS - lon)
}

/// The half-extents, in fixed-point units, of the cell named by a code of
/// `length` symbols: latitude first, then longitude.
pub fn half_cells(length: u8) -> (r: (u64, u64))
    requires
        length <= MAX_LENGTH,
    ensures
        r.0 == lat_half_cell(length as nat),
        r.1 == lon_half_cell(length as nat),
        0 < r.0 <= FIXED_LIMIT / 2,
        0 < r.1 <= FIXED_LIMIT / 2,
{
    let (lat, lon) = field_shifts(length);
    let a: u64 = lat - 1;
    let b: u64 = lon - 1;
    assert(0 < (1u64 << a) <= 0x0080_0000_0000_0000) by (bit_vector)
        requires
            a <= 55,
    ;
    assert(0 < (1u64 << b) <= 0x0080_0000_0000_0000) by (bit_vector)
        requires
            b <= 55,
    ;
    (1u64 << a, 1u64 << b)
}

} // verus!
