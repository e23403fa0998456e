use lococode::{CodecError, Coordinates, Decoded};

const SCALE: f64 = (1u64 << 56) as f64;

fn normalize(c: &Coordinates<f64>) -> Coordinates<u64> {
    let lat = ((90. - c.latitude) / 180.).max(0.0).min(1.0);
    let lon = ((c.longitude + 180.) / 360.).max(0.0).min(1.0);
    Coordinates::clamped((lat * SCALE).floor() as u64, (lon * SCALE).floor() as u64)
}

fn denormalize(c: &Coordinates<u64>) -> Coordinates<f64> {
    let lat = c.latitude as f64 / SCALE * 180.;
    let lon = c.longitude as f64 / SCALE * 360.0;
    Coordinates::new(90. - lat, lon - 180.)
}

#[test]
fn round_trip() {
    let c = Coordinates::new(1.286785, 103.854503);
    let code = normalize(&c).encode(10).unwrap();
    println!("Encoded as {code}");
    let cell = Coordinates::<u64>::decode_cell(&code).unwrap();
    let decoded = denormalize(&Coordinates::new(cell.latitude, cell.longitude));
    let lat_half_extent_deg = cell.lat_half_extent as f64 / SCALE * 180.0;
    let lon_half_extent_deg = cell.lon_half_extent as f64 / SCALE * 360.0;

    let abs_err_lat = (c.latitude - decoded.latitude).abs();
    let abs_err_lon = (c.longitude - decoded.longitude).abs();

    println!("err: {abs_err_lat:.6}, {:.6}", lat_half_extent_deg);
    println!("err: {abs_err_lon:.6}, {:.6}", lon_half_extent_deg);

    assert!(abs_err_lat <= lat_half_extent_deg, "Latitude error");
    assert!(abs_err_lon <= lon_half_extent_deg, "Longitude error");
    assert!(lat_half_extent_deg <= 1e-3);
    assert!(lon_half_extent_deg <= 1e-3);
    assert!(abs_err_lat <= 1e-3);
    assert!(abs_err_lon <= 1e-3);
}

#[test]
fn normalization() {
    let c = Coordinates::new(36.719562, -4.450188);
    let normalized = normalize(&c);
    let denormalized = denormalize(&normalized);

    let err = ((c.latitude - denormalized.latitude).powi(2)
        + (c.longitude - denormalized.longitude).powi(2))
    .sqrt();

    assert!(err < 1e-9);
    assert_eq!(normalized, Coordinates::new(21329223175372160, 35138047462584916));
    assert_eq!(normalized.encode(18), Ok("HLS7ENXTVBNCMR4P35".to_string()));
}

#[test]
fn normalization_caps_the_south_pole_and_the_antimeridian() {
    let top = (1u64 << 56) - 1;
    assert_eq!(normalize(&Coordinates::new(-90.0, 180.0)), Coordinates::new(top, top));
    assert_eq!(normalize(&Coordinates::new(-1000.0, 1000.0)), Coordinates::new(top, top));
    assert_eq!(normalize(&Coordinates::new(90.0, -180.0)), Coordinates::new(0, 0));
    assert_eq!(normalize(&Coordinates::new(1000.0, -1000.0)), Coordinates::new(0, 0));
}

#[test]
fn new_keeps_both_fields() {
    let c = Coordinates::new(7u64, 9u64);
    assert_eq!(c.latitude, 7);
    assert_eq!(c.longitude, 9);
    assert_eq!(c, Coordinates { latitude: 7, longitude: 9 });
}

#[test]
fn clamped_keeps_values_in_range_and_caps_the_rest() {
    let top = (1u64 << 56) - 1;
    assert_eq!(Coordinates::clamped(0, 0), Coordinates::new(0, 0));
    assert_eq!(Coordinates::clamped(12, top), Coordinates::new(12, top));
    assert_eq!(Coordinates::clamped(1u64 << 56, 5), Coordinates::new(top, 5));
    assert_eq!(Coordinates::clamped(5, u64::MAX), Coordinates::new(5, top));
}

#[test]
fn encode_known_codes() {
    let c = Coordinates::new(35513671290385664u64, 56816312619477216u64);
    assert_eq!(c.encode(0), Ok(String::new()));
    assert_eq!(c.encode(1), Ok("W".to_string()));
    assert_eq!(c.encode(2), Ok("WX".to_string()));
    assert_eq!(c.encode(4), Ok("WXLK".to_string()));
    assert_eq!(c.encode(10), Ok("WXLKNTI5LT".to_string()));
    assert_eq!(c.encode(18), Ok("WXLKNTI5LTOQWXCW3W".to_string()));
    let d = Coordinates::new(0x0012_3456_789a_bcdeu64, 0x00fe_dcba_9876_5432u64);
    assert_eq!(d.encode(7), Ok("VOWKPME".to_string()));
    assert_eq!(d.encode(18), Ok("VOWKPME3TSL4A23MM5".to_string()));
}

#[test]
fn encode_extremes() {
    let low = Coordinates::new(0u64, 0u64);
    assert_eq!(low.encode(18), Ok("AAAAAAAAAAAAAAAAAA".to_string()));
    let top = (1u64 << 56) - 1;
    let high = Coordinates::new(top, top);
    assert_eq!(high.encode(18), Ok("777777777777777777".to_string()));
}

#[test]
fn encode_rejects_lengths_above_eighteen() {
    let c = Coordinates::new(1u64, 2u64);
    assert_eq!(c.encode(19), Err(CodecError::CodeTooLong));
    assert_eq!(c.encode(23), Err(CodecError::CodeTooLong));
    assert_eq!(c.encode(255), Err(CodecError::CodeTooLong));
    assert!(c.encode(18).is_ok());
}

#[test]
fn encode_has_the_length_asked_for() {
    let c = Coordinates::new(0x00ab_cdef_0123_4567u64, 0x0076_5432_10fe_dcbau64);
    for length in 0u8..=18 {
        let code = c.encode(length).unwrap();
        assert_eq!(code.chars().count(), usize::from(length));
    }
}

#[test]
fn encode_stays_inside_the_alphabet() {
    let alphabet = "ABCDEFGHIJKLMNOPQRSTUVWXYZ234567";
    let values = [0u64, 1, 0x00ff_ffff_ffff_ffff, 0x0055_5555_5555_5555, 0x00aa_aaaa_aaaa_aaaa];
    for lat in values {
        for lon in values {
            let code = Coordinates::new(lat, lon).encode(18).unwrap();
            assert!(code.chars().all(|c| alphabet.contains(c)));
        }
    }
}

#[test]
fn a_shorter_code_is_a_prefix_of_a_longer_one() {
    let c = Coordinates::new(0x0012_3456_789a_bcdeu64, 0x00fe_dcba_9876_5432u64);
    let full = c.encode(18).unwrap();
    for length in 0u8..=18 {
        assert_eq!(c.encode(length).unwrap(), full[..usize::from(length)]);
    }
}

#[test]
fn decode_known_corners() {
    assert_eq!(Coordinates::<u64>::decode(""), Ok(Coordinates::new(0, 0)));
    assert_eq!(Coordinates::<u64>::decode("B"), Ok(Coordinates::new(0, 1u64 << 53)));
    assert_eq!(Coordinates::<u64>::decode("C"), Ok(Coordinates::new(1u64 << 54, 0)));
    assert_eq!(Coordinates::<u64>::decode("AB"), Ok(Coordinates::new(1u64 << 51, 0)));
    assert_eq!(
        Coordinates::<u64>::decode("7"),
        Ok(Coordinates::new(54043195528445952, 63050394783186944))
    );
    assert_eq!(
        Coordinates::<u64>::decode("A7"),
        Ok(Coordinates::new(15762598695796736, 6755399441055744))
    );
    assert_eq!(
        Coordinates::<u64>::decode("WXLKNTI5LT"),
        Ok(Coordinates::new(35513669378899968, 56816312030068736))
    );
    assert_eq!(
        Coordinates::<u64>::decode("777777777777777777"),
        Ok(Coordinates::new(72057594037925888, 72057594037925888))
    );
}

#[test]
fn decode_rejects_characters_outside_the_alphabet() {
    for code in ["WX1K", "wxlk", "A0", "8", "AB CD", "A-B", "\u{e9}", "AAA\u{1f600}", "@", "["] {
        assert_eq!(Coordinates::<u64>::decode(code), Err(CodecError::InvalidSymbol));
        assert_eq!(Coordinates::<u64>::decode_cell(code), Err(CodecError::InvalidSymbol));
    }
}

#[test]
fn decode_rejects_codes_above_eighteen_symbols() {
    let eighteen = "ABCDEFGHIJKLMNOPQR";
    let nineteen = "ABCDEFGHIJKLMNOPQRS";
    assert!(Coordinates::<u64>::decode(eighteen).is_ok());
    assert_eq!(Coordinates::<u64>::decode(nineteen), Err(CodecError::CodeTooLong));
    assert_eq!(Coordinates::<u64>::decode_cell(nineteen), Err(CodecError::CodeTooLong));
    let long = "A".repeat(1000);
    assert_eq!(Coordinates::<u64>::decode(&long), Err(CodecError::CodeTooLong));
}

#[test]
fn an_invalid_symbol_is_reported_whatever_the_length() {
    let code = "ABCDEFGHIJKLMNOPQRS!";
    assert_eq!(Coordinates::<u64>::decode(code), Err(CodecError::InvalidSymbol));
    let code = "ABCDEFGHIJKLMNOPQRSTUVWXYZ0";
    assert_eq!(Coordinates::<u64>::decode(code), Err(CodecError::InvalidSymbol));
}

#[test]
fn decode_cell_gives_centre_and_half_extents() {
    assert_eq!(
        Coordinates::<u64>::decode_cell(""),
        Ok(Decoded {
            latitude: 1u64 << 55,
            longitude: 1u64 << 55,
            lat_half_extent: 1u64 << 55,
            lon_half_extent: 1u64 << 55,
        })
    );
    assert_eq!(
        Coordinates::<u64>::decode_cell("W"),
        Ok(Decoded {
            latitude: 18014398509481984 + 9007199254740992,
            longitude: 54043195528445952 + 4503599627370496,
            lat_half_extent: 9007199254740992,
            lon_half_extent: 4503599627370496,
        })
    );
    assert_eq!(
        Coordinates::<u64>::decode_cell("WXLKNTI5LT"),
        Ok(Decoded {
            latitude: 35513669378899968 + 1073741824,
            longitude: 56816312030068736 + 1073741824,
            lat_half_extent: 1073741824,
            lon_half_extent: 1073741824,
        })
    );
    assert_eq!(
        Coordinates::<u64>::decode_cell("VOWKPME"),
        Ok(Decoded {
            latitude: 5123724185436160 + 274877906944,
            longitude: 71737086398431232 + 137438953472,
            lat_half_extent: 274877906944,
            lon_half_extent: 137438953472,
        })
    );
}

#[test]
fn decode_of_encode_clears_the_unresolved_bits() {
    let c = Coordinates::new(0x0012_3456_789a_bcdeu64, 0x00fe_dcba_9876_5432u64);
    let code = c.encode(18).unwrap();
    assert_eq!(
        Coordinates::<u64>::decode(&code),
        Ok(Coordinates::new(5124095576029184, 71737338064424960))
    );
    let code = c.encode(7).unwrap();
    assert_eq!(
        Coordinates::<u64>::decode(&code),
        Ok(Coordinates::new(5123724185436160, 71737086398431232))
    );
}

#[test]
fn a_position_lies_within_half_a_cell_of_its_decoded_centre() {
    let top = (1u64 << 56) - 1;
    let values = [0u64, 1, 1023, 1024, 0x0012_3456_789a_bcde, 0x0080_0000_0000_0000, top];
    for lat in values {
        for lon in values {
            let c = Coordinates::new(lat, lon);
            for length in 0u8..=18 {
                let code = c.encode(length).unwrap();
                let cell = Coordinates::<u64>::decode_cell(&code).unwrap();
                assert!(cell.latitude - cell.lat_half_extent <= lat);
                assert!(lat < cell.latitude + cell.lat_half_extent);
                assert!(cell.longitude - cell.lon_half_extent <= lon);
                assert!(lon < cell.longitude + cell.lon_half_extent);
            }
        }
    }
}

#[test]
fn encode_of_a_decoded_corner_gives_the_code_back() {
    for code in ["", "A", "7", "WX", "WXLKNTI5LT", "HLS7ENXTVBNCMR4P35", "777777777777777777"] {
        let corner = Coordinates::<u64>::decode(code).unwrap();
        assert_eq!(corner.encode(code.len() as u8), Ok(code.to_string()));
    }
}
