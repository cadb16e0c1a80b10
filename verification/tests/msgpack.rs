use oxiserve::msgpack::{decimal_shape, map_header, write_double, write_str, write_uint};

/// Writes a field as the caller of the library does: a decimal is read as a
/// float, and its bits are handed over.
fn write_auto(out: &mut Vec<u8>, s: &str) {
    let bits = if decimal_shape(s.as_bytes()) { s.parse::<f64>().ok() } else { None };
    oxiserve::msgpack::write_auto(out, s, bits.map(f64::to_bits));
}

#[test]
fn fixmap_and_larger_headers() {
    let mut o = Vec::new();
    map_header(&mut o, 3);
    assert_eq!(o, vec![0x83]);

    o.clear();
    map_header(&mut o, 20);
    assert_eq!(o, vec![0xde, 0x00, 0x14]);
}

#[test]
fn string_encodings_by_length() {
    let mut o = Vec::new();
    write_str(&mut o, "ab");
    assert_eq!(o, vec![0xa2, b'a', b'b'], "fixstr");

    o.clear();
    write_str(&mut o, &"x".repeat(40));
    assert_eq!(&o[..2], &[0xd9, 40], "str8");

    o.clear();
    write_str(&mut o, &"x".repeat(300));
    assert_eq!(&o[..1], &[0xda], "str16");
    assert_eq!(u16::from_be_bytes([o[1], o[2]]), 300);
}

#[test]
fn integer_encodings_by_magnitude() {
    let cases: &[(u64, u8)] = &[(0, 0x00), (127, 0x7f), (200, 0xcc), (5000, 0xcd)];
    for (v, first) in cases {
        let mut o = Vec::new();
        write_uint(&mut o, *v);
        assert_eq!(o[0], *first, "encoding for {v}");
    }
    let mut o = Vec::new();
    write_uint(&mut o, u64::MAX);
    assert_eq!(o[0], 0xcf);
    assert_eq!(o.len(), 9);
}

#[test]
fn numeric_fields_become_numbers() {
    // $status and $body_bytes_sent are far more useful queryable as ints.
    let mut o = Vec::new();
    write_auto(&mut o, "200");
    assert_eq!(o, vec![0xcc, 200], "status must encode as an integer");

    o.clear();
    write_auto(&mut o, "0");
    assert_eq!(o, vec![0x00]);
}

#[test]
fn decimals_become_floats() {
    let mut o = Vec::new();
    write_auto(&mut o, "0.125");
    assert_eq!(o[0], 0xcb, "$request_time must encode as a float");
    assert_eq!(f64::from_be_bytes(o[1..9].try_into().unwrap()), 0.125);
}

#[test]
fn things_that_only_look_numeric_stay_strings() {
    // An IP has three dots; a leading zero is significant; a version has
    // two dots. None of these should be silently turned into a number.
    for s in ["127.0.0.1", "007", "1.2.3", "", "12a"] {
        let mut o = Vec::new();
        write_auto(&mut o, s);
        assert!(
            o[0] & 0xe0 == 0xa0 || o[0] == 0xd9 || o[0] == 0xda,
            "{s:?} must stay a string, got first byte {:#04x}", o[0]
        );
    }
}

#[test]
fn a_full_record_round_trips_through_a_reference_decoder() {
    // Hand-decode the map to prove the bytes are well-formed.
    let mut o = Vec::new();
    map_header(&mut o, 2);
    write_str(&mut o, "status");
    write_auto(&mut o, "404");
    write_str(&mut o, "uri");
    write_auto(&mut o, "/missing");

    assert_eq!(o[0], 0x82, "two-entry fixmap");
    let mut i = 1;
    // key "status"
    assert_eq!(o[i], 0xa6);
    assert_eq!(&o[i + 1..i + 7], b"status");
    i += 7;
    // value 404 as uint16
    assert_eq!(o[i], 0xcd);
    assert_eq!(u16::from_be_bytes([o[i + 1], o[i + 2]]), 404);
    i += 3;
    // key "uri"
    assert_eq!(o[i], 0xa3);
    assert_eq!(&o[i + 1..i + 4], b"uri");
    i += 4;
    // value "/missing"
    assert_eq!(o[i], 0xa8);
    assert_eq!(&o[i + 1..], b"/missing");
}

#[test]
fn every_width_has_its_own_mark() {
    let mut o = Vec::new();
    write_uint(&mut o, 70_000);
    assert_eq!(o, vec![0xce, 0x00, 0x01, 0x11, 0x70]);
    o.clear();
    write_double(&mut o, 1.5f64.to_bits());
    assert_eq!(o, vec![0xcb, 0x3f, 0xf8, 0, 0, 0, 0, 0, 0]);
    o.clear();
    map_header(&mut o, 70_000);
    assert_eq!(o, vec![0xdf, 0x00, 0x01, 0x11, 0x70]);
}

#[test]
fn a_decimal_has_one_dot_and_digits() {
    assert!(decimal_shape(b"0.125"));
    assert!(!decimal_shape(b"200"));
    assert!(!decimal_shape(b"1.2.3"));
    assert!(decimal_shape(b"."));
    assert!(!decimal_shape(b"1.5e3"));
    let mut o = Vec::new();
    write_auto(&mut o, ".");
    assert_eq!(o, b"\xa1.", "a lone dot is no number");
}

#[test]
fn a_number_too_large_stays_text() {
    let mut o = Vec::new();
    write_auto(&mut o, "9999999999999999999");
    assert_eq!(o[0], 0xcf);
    o.clear();
    write_auto(&mut o, "18446744073709551615");
    assert_eq!(o, [0xcf, 0xff, 0xff, 0xff, 0xff, 0xff, 0xff, 0xff, 0xff]);
    o.clear();
    write_auto(&mut o, "18446744073709551616");
    assert_eq!(o[0], 0xa0 | 20);
}
