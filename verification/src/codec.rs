//! Encoding a fixed-point position as a code, and decoding a code to its cell.

use vstd::prelude::*;
use vstd::string::*;
use crate::alphabet::{all_symbols, char_to_symbol, symbol_char, symbol_of, symbol_to_char};
use crate::interleave::{
    de_interleave, interleave, spec_de_interleave, spec_interleave, three_bit_field,
    two_bit_field,
};
use crate::layout::{
    field_shifts, half_cells, lat_half_cell, lat_shift, lemma_bits_step, lon_half_cell,
    lon_shift, FIXED_LIMIT, MAX_LENGTH,
};

verus! {

/// A position as a latitude and a longitude.
///
/// The codec works on `Coordinates<u64>`: each axis rescaled to the unit
/// interval and quantized to 56 bits, latitude counted from the north pole
/// southwards, longitude from the antimeridian eastwards.
#[derive(Debug, Clone, Copy, PartialEq, Eq)]
pub struct Coordinates<T> {
    pub latitude: T,
    pub longitude: T,
}

/// Why a code could not be produced or read.
#[derive(Debug, Clone, Copy, PartialEq, Eq)]
pub enum CodecError {
    /// A character of the code is not in the alphabet.
    InvalidSymbol,
    /// The code has more symbols than the 56-bit budget allows.
    CodeTooLong,
}

/// The cell that a code names, in fixed-point units.
#[derive(Debug, Clone, Copy, PartialEq, Eq)]
pub struct Decoded {
    /// Latitude of the cell's centre.
    pub latitude: u64,
    /// Longitude of the cell's centre.
    pub longitude: u64,
    /// Half the cell's height.
    pub lat_half_extent: u64,
    /// Half the cell's width.
    pub lon_half_extent: u64,
}

/// `v` where it lies below the fixed-point limit, else the largest value below it.
pub open spec fn spec_clamp(v: u64) -> u64 {
    if v < FIXED_LIMIT {
        v
    } else {
        (FIXED_LIMIT - 1) as u64
    }
}

/// Whether `v` has no bit set below bit `shift`.
pub open spec fn aligned(v: u64, shift: u64) -> bool {
    (v >> shift) << shift == v
}

/// The latitude field of the symbol at position `i`: the bits of `lat` that
/// the symbol carries, moved down to bit 0.
pub open spec fn lat_field(lat: u64, i: nat) -> u64 {
    if i % 2 == 0 {
        (lat >> lat_shift(i + 1)) & 3
    } else {
        (lat >> lat_shift(i + 1)) & 7
    }
}

/// The longitude field of the symbol at position `i`.
pub open spec fn lon_field(lon: u64, i: nat) -> u64 {
    if i % 2 == 0 {
        (lon >> lon_shift(i + 1)) & 7
    } else {
        (lon >> lon_shift(i + 1)) & 3
    }
}

/// The symbol at position `i` of the code of `(lat, lon)`. The axis with the
/// two-bit field takes the first place in the weaving: latitude at even
/// positions, longitude at odd ones.
pub open spec fn symbol_at(lat: u64, lon: u64, i: nat) -> u8 {
    if i % 2 == 0 {
        spec_interleave(lat_field(lat, i) as u8, lon_field(lon, i) as u8)
    } else {
        spec_interleave(lon_field(lon, i) as u8, lat_field(lat, i) as u8)
    }
}

/// The code of `length` symbols of the fixed-point position `(lat, lon)`.
pub open spec fn spec_encode(lat: u64, lon: u64, length: nat) -> Seq<char> {
    Seq::new(length, |i: int| symbol_char(symbol_at(lat, lon, i as nat)))
}

/// The latitude field that the character `c` carries at position `i`.
pub open spec fn lat_part(c: char, i: nat) -> u64 {
    let split = spec_de_interleave(symbol_of(c).unwrap());
    if i % 2 == 0 {
        split.0 as u64
    } else {
        split.1 as u64
    }
}

/// The longitude field that the character `c` carries at position `i`.
pub open spec fn lon_part(c: char, i: nat) -> u64 {
    let split = spec_de_interleave(symbol_of(c).unwrap());
    if i % 2 == 0 {
        split.1 as u64
    } else {
        split.0 as u64
    }
}

/// The latitude that the first `n` characters of `code` resolve: each
/// character's field put back at its shift, all lower bits zero.
pub open spec fn spec_decode_lat(code: Seq<char>, n: nat) -> u64
    recommends
        n <= code.len(),
        n <= MAX_LENGTH,
    decreases n,
{
    if n == 0 {
        0
    } else {
        spec_decode_lat(code, (n - 1) as nat) | (lat_part(code[n - 1], (n - 1) as nat) << lat_shift(
            n,
        ))
    }
}

/// The longitude that the first `n` characters of `code` resolve.
pub open spec fn spec_decode_lon(code: Seq<char>, n: nat) -> u64
    recommends
        n <= code.len(),
        n <= MAX_LENGTH,
    decreases n,
{
    if n == 0 {
        0
    } else {
        spec_decode_lon(code, (n - 1) as nat) | (lon_part(code[n - 1], (n - 1) as nat) << lon_shift(
            n,
        ))
    }
}

/// Taken on trust from the standard library's documentation, not proved:
/// `String::push` appends the given `char` to the end of the string, so the
/// string's characters afterwards are those before the call followed by `c`.
pub assume_specification[ String::push ](s: &mut String, c: char)
    ensures
        final(s)@ == old(s)@.push(c),
;

/// What the first `n` characters of a code of alphabet characters resolve
/// stays below the fixed-point limit on both axes, and has no bit set below
/// the shift of `n` symbols.
pub proof fn lemma_decode_in_range(code: Seq<char>, n: nat)
    requires
        n <= code.len(),
        n <= MAX_LENGTH,
        all_symbols(code),
    ensures
        spec_decode_lat(code, n) < FIXED_LIMIT,
        spec_decode_lon(code, n) < FIXED_LIMIT,
        aligned(spec_decode_lat(code, n), lat_shift(n)),
        aligned(spec_decode_lon(code, n), lon_shift(n)),
    decreases n,
{
    if n == 0 {
        assert((0u64 >> 56) << 56 == 0u64) by (bit_vector);
    } else {
        let i = (n - 1) as nat;
        lemma_decode_in_range(code, i);
        lemma_bits_step(i);
        lemma_bits_step(n);
        assert(symbol_of(code[i as int]) is Some);
        let x = symbol_of(code[i as int]).unwrap();
        let a = spec_de_interleave(x).0 as u64;
        let b = spec_de_interleave(x).1 as u64;
        assert(a < 4 && b < 8) by (bit_vector)
            requires
                a == two_bit_field(x) as u64,
                b == three_bit_field(x) as u64,
        ;
        let plat = spec_decode_lat(code, i);
        let plon = spec_decode_lon(code, i);
        if i % 2 == 0 {
            lemma_or_field(plat, a, lat_shift(n), lat_shift(i), 4);
            lemma_or_field(plon, b, lon_shift(n), lon_shift(i), 8);
        } else {
            lemma_or_field(plat, b, lat_shift(n), lat_shift(i), 8);
            lemma_or_field(plon, a, lon_shift(n), lon_shift(i), 4);
        }
    }
}

/// Putting a field of two or three bits just below the bits already set
/// keeps a fixed-point value inside its 56 bits, with no bit set below the
/// field.
proof fn lemma_or_field(acc: u64, field: u64, shift: u64, above: u64, bound: u64)
    by (bit_vector)
    requires
        acc < 0x0100_0000_0000_0000,
        (acc >> above) << above == acc,
        above <= 56,
        field < bound,
        bound == 4 && above == shift + 2 || bound == 8 && above == shift + 3,
    ensures
        (acc | (field << shift)) < 0x0100_0000_0000_0000,
        ((acc | (field << shift)) >> shift) << shift == (acc | (field << shift)),
{
}

/// Half a cell above an aligned lower corner is still a fixed-point value.
proof fn lemma_centre_in_range(corner: u64, shift: u64)
    by (bit_vector)
    requires
        corner < 0x0100_0000_0000_0000,
        (corner >> shift) << shift == corner,
        1 <= shift <= 56,
    ensures
        corner + (1u64 << ((shift - 1) as u64)) < 0x0100_0000_0000_0000,
{
}

/// A field cut out by a two-bit or a three-bit mask fits its width.
pub proof fn lemma_field_fits(v: u64, shift: u64)
    by (bit_vector)
    ensures
        ((v >> shift) & 3) < 4,
        ((v >> shift) & 7) < 8,
{
}

impl<T> Coordinates<T> {
    /// The position with the given latitude and longitude.
    pub fn new(latitude: T, longitude: T) -> (c: Self)
        ensures
            c.latitude == latitude,
            c.longitude == longitude,
    {
        Coordinates { latitude, longitude }
    }
}

impl Coordinates<u64> {
    /// Whether both axes lie inside the 56-bit fixed-point range.
    pub open spec fn wf(&self) -> bool {
        self.latitude < FIXED_LIMIT && self.longitude < FIXED_LIMIT
    }

    /// The fixed-point position nearest to `(latitude, longitude)`: a value
    /// at or above the limit of an axis becomes the largest value below it.
    pub fn clamped(latitude: u64, longitude: u64) -> (c: Self)
        ensures
            c.wf(),
            c.latitude == spec_clamp(latitude),
            c.longitude == spec_clamp(longitude),
    {
        Coordinates {
            latitude: if latitude < FIXED_LIMIT { latitude } else { FIXED_LIMIT - 1 },
            longitude: if longitude < FIXED_LIMIT { longitude } else { FIXED_LIMIT - 1 },
        }
    }

    /// The code of `length` symbols of this position.
    ///
    /// Fails with `CodeTooLong` exactly when `length` is above 18. Every
    /// character of a code is a character of the alphabet.
    pub fn encode(&self, length: u8) -> (r: Result<String, CodecError>)
        ensures
            length <= MAX_LENGTH ==> r is Ok,
            r matches Ok(s) ==> length <= MAX_LENGTH && s@ == spec_encode(
                self.latitude,
                self.longitude,
                length as nat,
            ) && all_symbols(s@),
            r matches Err(e) ==> length > MAX_LENGTH && e == CodecError::CodeTooLong,
    {
        if length > MAX_LENGTH {
            return Err(CodecError::CodeTooLong);
        }
        let mut code = String::new();
        let mut i: u8 = 0;
        while i < length
            invariant
                i <= length <= MAX_LENGTH,
                code@ == spec_encode(self.latitude, self.longitude, i as nat),
                all_symbols(code@),
            decreases length - i,
        {
            let (lat_shift, lon_shift) = field_shifts(i + 1);
            let lat_bits: u64 = 2 + (i % 2) as u64;
            let lon_bits: u64 = 5 - lat_bits;
            proof {
                lemma_field_fits(self.latitude, lat_shift);
                lemma_field_fits(self.longitude, lon_shift);
                assert((1u64 << 2) - 1 == 3 && (1u64 << 3) - 1 == 7) by (bit_vector);
            }
            let top_lat = ((self.latitude >> lat_shift) & ((1u64 << lat_bits) - 1)) as u8;
            let top_lon = ((self.longitude >> lon_shift) & ((1u64 << lon_bits) - 1)) as u8;
            let s = if i % 2 == 0 {
                interleave(top_lat, top_lon)
            } else {
                interleave(top_lon, top_lat)
            };
            assert(s == symbol_at(self.latitude, self.longitude, i as nat));
            let c = symbol_to_char(s);
            let ghost before = code@;
            code.push(c);
            i += 1;
            proof {
                assert(code@ =~= spec_encode(self.latitude, self.longitude, i as nat));
                assert forall|j: int| 0 <= j < code@.len() implies (#[trigger] symbol_of(
                    code@[j],
                )) is Some by {
                    if j < before.len() {
                        assert(code@[j] == before[j]);
                    }
                }
            }
        }
        Ok(code)
    }

    /// The lower corner of the cell that `code` names: the bits that the code
    /// resolves, with every lower bit zero.
    ///
    /// Fails with `InvalidSymbol` exactly when some character of `code` is not
    /// in the alphabet, and with `CodeTooLong` exactly when every character
    /// is and there are more than 18 of them.
    pub fn decode(code: &str) -> (r: Result<Coordinates<u64>, CodecError>)
        ensures
            match r {
                Ok(c) => {
                    &&& all_symbols(code@)
                    &&& code@.len() <= MAX_LENGTH
                    &&& c.latitude == spec_decode_lat(code@, code@.len())
                    &&& c.longitude == spec_decode_lon(code@, code@.len())
                    &&& c.wf()
                    &&& aligned(c.latitude, lat_shift(code@.len()))
                    &&& aligned(c.longitude, lon_shift(code@.len()))
                },
                Err(CodecError::InvalidSymbol) => !all_symbols(code@),
                Err(CodecError::CodeTooLong) => all_symbols(code@) && code@.len() > MAX_LENGTH,
            },
    {
        broadcast use is_ascii_spec_bytes;

        if !code.is_ascii() {
            proof {
                if all_symbols(code@) {
                    assert forall|i: int| 0 <= i < code@.len() implies '\0' <= (
                    #[trigger] code@[i]) <= '\u{7f}' by {
                        assert(symbol_of(code@[i]) is Some);
                    }
                }
            }
            return Err(CodecError::InvalidSymbol);
        }
        proof {
            is_ascii_spec_bytes(code);
        }
        let n = code.as_bytes().len();
        assert(n == code@.len());
        let mut k: usize = 0;
        while k < n
            invariant
                k <= n == code@.len(),
                code.is_ascii(),
                forall|j: int| 0 <= j < k ==> (#[trigger] symbol_of(code@[j])) is Some,
            decreases n - k,
        {
            let c = code.get_ascii(k) as char;
            assert(c == code@[k as int]);
            if char_to_symbol(c).is_none() {
                return Err(CodecError::InvalidSymbol);
            }
            k += 1;
        }
        if n > MAX_LENGTH as usize {
            return Err(CodecError::CodeTooLong);
        }
        let mut latitude: u64 = 0;
        let mut longitude: u64 = 0;
        let mut i: u8 = 0;
        while (i as usize) < n
            invariant
                i <= n == code@.len(),
                n <= MAX_LENGTH,
                code.is_ascii(),
                all_symbols(code@),
                latitude == spec_decode_lat(code@, i as nat),
                longitude == spec_decode_lon(code@, i as nat),
            decreases n - i,
        {
            let c = code.get_ascii(i as usize) as char;
            assert(c == code@[i as int]);
            assert(symbol_of(code@[i as int]) is Some);
            let idx = match char_to_symbol(c) {
                Some(idx) => idx,
                None => { return Err(CodecError::InvalidSymbol); },
            };
            let (lat_shift, lon_shift) = field_shifts(i + 1);
            let split = de_interleave(idx);
            let (lat, lon) = if i % 2 == 0 {
                split
            } else {
                (split.1, split.0)
            };
            latitude = latitude | ((lat as u64) << lat_shift);
            longitude = longitude | ((lon as u64) << lon_shift);
            i += 1;
        }
        proof {
            lemma_decode_in_range(code@, n as nat);
        }
        Ok(Coordinates { latitude, longitude })
    }

    /// The cell that `code` names: its centre and its half-extent on each
    /// axis, in fixed-point units. The centre lies half a cell above the
    /// lower corner on both axes.
    ///
    /// Fails on the same codes as `decode`, with the same errors.
    pub fn decode_cell(code: &str) -> (r: Result<Decoded, CodecError>)
        ensures
            match r {
                Ok(d) => {
                    &&& all_symbols(code@)
                    &&& code@.len() <= MAX_LENGTH
                    &&& d.latitude == spec_decode_lat(code@, code@.len()) + lat_half_cell(
                        code@.len(),
                    )
                    &&& d.longitude == spec_decode_lon(code@, code@.len()) + lon_half_cell(
                        code@.len(),
                    )
                    &&& d.lat_half_extent == lat_half_cell(code@.len())
                    &&& d.lon_half_extent == lon_half_cell(code@.len())
                    &&& d.latitude < FIXED_LIMIT
                    &&& d.longitude < FIXED_LIMIT
                },
                Err(CodecError::InvalidSymbol) => !all_symbols(code@),
                Err(CodecError::CodeTooLong) => all_symbols(code@) && code@.len() > MAX_LENGTH,
            },
    {
        broadcast use is_ascii_spec_bytes;

        let corner = match Self::decode(code) {
            Ok(corner) => corner,
            Err(e) => { return Err(e); },
        };
        proof {
            assert forall|i: int| 0 <= i < code@.len() implies '\0' <= (#[trigger] code@[i])
                <= '\u{7f}' by {
                assert(symbol_of(code@[i]) is Some);
            }
        }
        proof {
            is_ascii_spec_bytes(code);
        }
        let length = code.as_bytes().len() as u8;
        let (lat_half_extent, lon_half_extent) = half_cells(length);
        proof {
            lemma_centre_in_range(corner.latitude, lat_shift(length as nat));
            lemma_centre_in_range(corner.longitude, lon_shift(length as nat));
        }
        Ok(
            Decoded {
                latitude: corner.latitude + lat_half_extent,
                longitude: corner.longitude + lon_half_extent,
                lat_half_extent,
                lon_half_extent,
            },
        )
    }
}

} // verus!
