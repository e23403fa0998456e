//! What holds between encoding, decoding and the size of a cell.

use vstd::prelude::*;
use vstd::arithmetic::div_mod::lemma_fundamental_div_mod;
use vstd::arithmetic::power2::pow2;
use vstd::bits::{lemma_u64_pow2_no_overflow, lemma_u64_shl_is_mul, lemma_u64_shr_is_div};
use crate::alphabet::{all_symbols, lemma_symbol_of_alphabet, symbol_char, symbol_of};
use crate::codec::{
    lat_field, lat_part, lemma_decode_in_range, lemma_field_fits, lon_field, lon_part,
    spec_decode_lat, spec_decode_lon, spec_encode, symbol_at, Coordinates,
};
use crate::interleave::{
    lemma_de_interleave_interleave, lemma_interleave_de_interleave, spec_de_interleave,
};
use crate::layout::{
    lat_bits, lat_half_cell, lat_shift, lemma_bits_step, lon_bits, lon_half_cell, lon_shift,
    MAX_LENGTH,
};

verus! {

/// A fixed-point value has no bit at or above bit 56.
proof fn lemma_nothing_resolved(v: u64)
    by (bit_vector)
    requires
        v < 0x0100_0000_0000_0000,
    ensures
        (v >> 56) << 56 == 0,
{
}

/// Adding the next field below the bits already resolved resolves the bits
/// down to that field's shift.
proof fn lemma_resolve_more(v: u64, shift: u64, above: u64)
    by (bit_vector)
    requires
        above <= 56,
        above == shift + 2 || above == shift + 3,
    ensures
        above == shift + 2 ==> ((v >> above) << above) | (((v >> shift) & 3) << shift) == (v
            >> shift) << shift,
        above == shift + 3 ==> ((v >> above) << above) | (((v >> shift) & 7) << shift) == (v
            >> shift) << shift,
{
}

/// A value lies in the cell that starts where its low bits are cleared and
/// spans twice the half cell.
proof fn lemma_within_cell(v: u64, shift: u64)
    by (bit_vector)
    requires
        1 <= shift <= 56,
    ensures
        ((v >> shift) << shift) <= v,
        v - ((v >> shift) << shift) < 2 * (1u64 << ((shift - 1) as u64)),
        ((v >> shift) << shift) + (1u64 << ((shift - 1) as u64)) <= 0xffff_ffff_ffff_ffff,
{
}

/// One shifted left grows with the shift.
proof fn lemma_shift_monotonic(a: u64, b: u64)
    by (bit_vector)
    requires
        a <= b < 64,
    ensures
        (1u64 << a) <= (1u64 << b),
        a < b ==> (1u64 << a) < (1u64 << b),
{
}

/// The bit operations of the codec read as arithmetic. With `p` the power
/// of two `2^shift`: one shifted left by `shift` is `p`; a field is the
/// quotient of the value by `p`, taken modulo 4 or 8; and clearing the bits
/// below `shift` rounds the value down to a multiple of `p`.
pub proof fn lemma_bits_as_arithmetic(v: u64, shift: u64)
    requires
        shift <= 56,
    ensures
        (1u64 << shift) == pow2(shift as nat),
        (v >> shift) & 3 == (v as nat / pow2(shift as nat)) % 4,
        (v >> shift) & 7 == (v as nat / pow2(shift as nat)) % 8,
        (v >> shift) << shift == (v as nat / pow2(shift as nat)) * pow2(shift as nat),
        (v >> shift) << shift == v - v as nat % pow2(shift as nat),
{
    let p = pow2(shift as nat);
    let q = v >> shift;
    lemma_u64_pow2_no_overflow(shift as nat);
    lemma_u64_shr_is_div(v, shift);
    assert(q & 3 == q % 4) by (bit_vector);
    assert(q & 7 == q % 8) by (bit_vector);
    lemma_u64_shl_is_mul(1, shift);
    lemma_fundamental_div_mod(v as int, p as int);
    assert(q * p <= v) by (nonlinear_arith)
        requires
            v == p * q + (v as int % p as int),
            0 <= v as int % p as int,
    ;
    lemma_u64_shl_is_mul(q, shift);
    assert(q * p == p * q) by (nonlinear_arith);
}

/// The symbol at each position of a code is below 32, stands in the code as
/// its alphabet character, and carries the fields of its position.
pub proof fn lemma_encoded_symbol(lat: u64, lon: u64, length: nat, i: nat)
    requires
        i < length <= MAX_LENGTH,
    ensures
        symbol_at(lat, lon, i) < 32,
        spec_encode(lat, lon, length)[i as int] == symbol_char(symbol_at(lat, lon, i)),
        symbol_of(spec_encode(lat, lon, length)[i as int]) == Some(symbol_at(lat, lon, i)),
        lat_part(spec_encode(lat, lon, length)[i as int], i) == lat_field(lat, i),
        lon_part(spec_encode(lat, lon, length)[i as int], i) == lon_field(lon, i),
{
    let s = symbol_at(lat, lon, i);
    let c = spec_encode(lat, lon, length)[i as int];
    lemma_field_fits(lat, lat_shift(i + 1));
    lemma_field_fits(lon, lon_shift(i + 1));
    if i % 2 == 0 {
        lemma_de_interleave_interleave(lat_field(lat, i) as u8, lon_field(lon, i) as u8);
    } else {
        lemma_de_interleave_interleave(lon_field(lon, i) as u8, lat_field(lat, i) as u8);
    }
    lemma_symbol_of_alphabet(c, s);
}

/// Every character of a code is a character of the alphabet.
pub proof fn lemma_encode_closed(lat: u64, lon: u64, length: nat)
    requires
        length <= MAX_LENGTH,
    ensures
        spec_encode(lat, lon, length).len() == length,
        all_symbols(spec_encode(lat, lon, length)),
{
    let code = spec_encode(lat, lon, length);
    assert forall|i: int| 0 <= i < code.len() implies (#[trigger] symbol_of(code[i])) is Some by {
        lemma_encoded_symbol(lat, lon, length, i as nat);
    }
}

/// The first `n` characters of a code resolve the position down to the shift
/// of `n` symbols, and nothing below it.
proof fn lemma_decode_prefix(c: Coordinates<u64>, length: nat, n: nat)
    requires
        c.wf(),
        n <= length <= MAX_LENGTH,
    ensures
        spec_decode_lat(spec_encode(c.latitude, c.longitude, length), n) == (c.latitude
            >> lat_shift(n)) << lat_shift(n),
        spec_decode_lon(spec_encode(c.latitude, c.longitude, length), n) == (c.longitude
            >> lon_shift(n)) << lon_shift(n),
    decreases n,
{
    if n == 0 {
        lemma_nothing_resolved(c.latitude);
        lemma_nothing_resolved(c.longitude);
    } else {
        let i = (n - 1) as nat;
        lemma_decode_prefix(c, length, i);
        lemma_encoded_symbol(c.latitude, c.longitude, length, i);
        lemma_bits_step(i);
        lemma_bits_step(n);
        lemma_resolve_more(c.latitude, lat_shift(n), lat_shift(i));
        lemma_resolve_more(c.longitude, lon_shift(n), lon_shift(i));
    }
}

/// Decoding a code of a position gives the position with the bits that the
/// code does not resolve set to zero.
pub proof fn lemma_decode_encode(c: Coordinates<u64>, length: nat)
    requires
        c.wf(),
        length <= MAX_LENGTH,
    ensures
        spec_decode_lat(spec_encode(c.latitude, c.longitude, length), length) == (c.latitude
            >> lat_shift(length)) << lat_shift(length),
        spec_decode_lon(spec_encode(c.latitude, c.longitude, length), length) == (c.longitude
            >> lon_shift(length)) << lon_shift(length),
{
    lemma_decode_prefix(c, length, length);
}

/// A field read back from where it was just put, below bits that are
/// aligned above it, is the field itself.
proof fn lemma_field_read_back(acc: u64, field: u64, shift: u64, above: u64, bound: u64)
    by (bit_vector)
    requires
        (acc >> above) << above == acc,
        above <= 56,
        field < bound,
        bound == 4 && above == shift + 2 || bound == 8 && above == shift + 3,
    ensures
        bound == 4 ==> ((acc | (field << shift)) >> shift) & 3 == field,
        bound == 8 ==> ((acc | (field << shift)) >> shift) & 7 == field,
{
}

/// A field put wholly below bit `at` leaves the bits from `at` upwards as they were.
proof fn lemma_field_survives(acc: u64, field: u64, shift: u64, bound: u64, at: u64)
    by (bit_vector)
    requires
        at <= 56,
        field < bound,
        bound == 4 && shift + 2 <= at || bound == 8 && shift + 3 <= at,
    ensures
        (acc | (field << shift)) >> at == acc >> at,
{
}

/// The field at position `i` of what the first `n` characters resolve is the
/// field that the character at `i` carries.
proof fn lemma_decoded_field(code: Seq<char>, n: nat, i: nat)
    requires
        i < n <= code.len(),
        n <= MAX_LENGTH,
        all_symbols(code),
    ensures
        lat_field(spec_decode_lat(code, n), i) == lat_part(code[i as int], i),
        lon_field(spec_decode_lon(code, n), i) == lon_part(code[i as int], i),
    decreases n,
{
    let k = (n - 1) as nat;
    assert(symbol_of(code[k as int]) is Some);
    let x = symbol_of(code[k as int]).unwrap();
    lemma_interleave_de_interleave(x);
    let a = spec_de_interleave(x).0 as u64;
    let b = spec_de_interleave(x).1 as u64;
    let plat = spec_decode_lat(code, k);
    let plon = spec_decode_lon(code, k);
    lemma_bits_step(k);
    lemma_bits_step(n);
    if k == i {
        lemma_decode_in_range(code, k);
        if k % 2 == 0 {
            lemma_field_read_back(plat, a, lat_shift(n), lat_shift(k), 4);
            lemma_field_read_back(plon, b, lon_shift(n), lon_shift(k), 8);
        } else {
            lemma_field_read_back(plat, b, lat_shift(n), lat_shift(k), 8);
            lemma_field_read_back(plon, a, lon_shift(n), lon_shift(k), 4);
        }
    } else {
        lemma_decoded_field(code, k, i);
        lemma_bits_step(i + 1);
        assert(lat_bits(i + 1) <= lat_bits(k));
        assert(lon_bits(i + 1) <= lon_bits(k));
        if k % 2 == 0 {
            lemma_field_survives(plat, a, lat_shift(n), 4, lat_shift(i + 1));
            lemma_field_survives(plon, b, lon_shift(n), 8, lon_shift(i + 1));
        } else {
            lemma_field_survives(plat, b, lat_shift(n), 8, lat_shift(i + 1));
            lemma_field_survives(plon, a, lon_shift(n), 4, lon_shift(i + 1));
        }
    }
}

/// Encoding the lower corner that a code decodes to, at the code's own
/// length, gives the code back: distinct codes of one length name distinct cells.
pub proof fn lemma_encode_decode(code: Seq<char>)
    requires
        code.len() <= MAX_LENGTH,
        all_symbols(code),
    ensures
        spec_encode(
            spec_decode_lat(code, code.len()),
            spec_decode_lon(code, code.len()),
            code.len(),
        ) == code,
{
    let n = code.len();
    let lat = spec_decode_lat(code, n);
    let lon = spec_decode_lon(code, n);
    assert forall|i: int| 0 <= i < n implies symbol_char(symbol_at(lat, lon, i as nat))
        == code[i] by {
        lemma_decoded_field(code, n, i as nat);
        assert(symbol_of(code[i]) is Some);
        let x = symbol_of(code[i]).unwrap();
        lemma_interleave_de_interleave(x);
        lemma_symbol_of_alphabet(code[i], x);
    }
    assert(spec_encode(lat, lon, n) =~= code);
}

/// A position lies within half a cell of the centre of the cell that its own
/// code names, on both axes: from the centre less the half-extent up to, but
/// not including, the centre plus the half-extent.
pub proof fn lemma_round_trip(c: Coordinates<u64>, length: nat)
    requires
        c.wf(),
        length <= MAX_LENGTH,
    ensures
        ({
            let code = spec_encode(c.latitude, c.longitude, length);
            let lat_centre = spec_decode_lat(code, length) + lat_half_cell(length);
            let lon_centre = spec_decode_lon(code, length) + lon_half_cell(length);
            &&& code.len() == length
            &&& all_symbols(code)
            &&& lat_centre - lat_half_cell(length) <= c.latitude < lat_centre + lat_half_cell(
                length,
            )
            &&& lon_centre - lon_half_cell(length) <= c.longitude < lon_centre + lon_half_cell(
                length,
            )
        }),
{
    lemma_encode_closed(c.latitude, c.longitude, length);
    lemma_decode_encode(c, length);
    lemma_bits_step(length);
    lemma_within_cell(c.latitude, lat_shift(length));
    lemma_within_cell(c.longitude, lon_shift(length));
}

/// The half-extents are powers of two: a code of `n` symbols leaves
/// `56 - lat_bits(n)` latitude bits unresolved, and the half cell is one bit
/// less than that; likewise for longitude.
pub proof fn lemma_half_cell_is_power(n: nat)
    requires
        n <= MAX_LENGTH,
    ensures
        lat_half_cell(n) == pow2((55 - lat_bits(n)) as nat),
        lon_half_cell(n) == pow2((55 - lon_bits(n)) as nat),
{
    lemma_bits_step(n);
    lemma_bits_as_arithmetic(0, (lat_shift(n) - 1) as u64);
    lemma_bits_as_arithmetic(0, (lon_shift(n) - 1) as u64);
}

/// A longer code never names a larger cell, and a strictly longer one names a
/// strictly smaller cell, on both axes.
pub proof fn lemma_precision_monotonic(shorter: nat, longer: nat)
    requires
        shorter <= longer <= MAX_LENGTH,
    ensures
        lat_half_cell(longer) <= lat_half_cell(shorter),
        lon_half_cell(longer) <= lon_half_cell(shorter),
        shorter < longer ==> lat_half_cell(longer) < lat_half_cell(shorter),
        shorter < longer ==> lon_half_cell(longer) < lon_half_cell(shorter),
{
    lemma_bits_step(shorter);
    lemma_bits_step(longer);
    assert(lat_bits(shorter) <= lat_bits(longer));
    assert(lon_bits(shorter) <= lon_bits(longer));
    assert(shorter < longer ==> lat_bits(shorter) < lat_bits(longer));
    assert(shorter < longer ==> lon_bits(shorter) < lon_bits(longer));
    lemma_shift_monotonic((lat_shift(longer) - 1) as u64, (lat_shift(shorter) - 1) as u64);
    lemma_shift_monotonic((lon_shift(longer) - 1) as u64, (lon_shift(shorter) - 1) as u64);
}

} // verus!
