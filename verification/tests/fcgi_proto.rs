use oxiserve::fcgi_proto::{
    end_request_status, http_param_name, parse_record, push_begin_request, push_nv_pair,
    push_params, push_record, push_stdin, ParseError, RecordType, FLAG_KEEP_CONN, MAX_CONTENT,
    ROLE_RESPONDER,
};

#[test]
fn header_layout_matches_the_spec() {
    let mut out = Vec::new();
    push_record(&mut out, RecordType::Stdout, b"hi");
    assert_eq!(out[0], 1, "version");
    assert_eq!(out[1], RecordType::Stdout.to_u8());
    assert_eq!(u16::from_be_bytes([out[2], out[3]]), 1, "request id");
    assert_eq!(u16::from_be_bytes([out[4], out[5]]), 2, "content length");
    assert_eq!(out[6], 6, "padding to the next 8-byte boundary");
    assert_eq!(out.len(), 8 + 2 + 6);
}

#[test]
fn records_are_padded_to_eight_bytes() {
    for len in [0usize, 1, 7, 8, 9, 16, 100] {
        let mut out = Vec::new();
        push_record(&mut out, RecordType::Params, &vec![b'x'; len]);
        assert_eq!(out.len() % 8, 0, "record of {len} bytes must be 8-aligned");
    }
}

#[test]
fn begin_request_declares_the_responder_role() {
    let mut out = Vec::new();
    push_begin_request(&mut out, false);
    let r = parse_record(&out).unwrap();
    assert_eq!(r.ty, RecordType::BeginRequest);
    assert_eq!(u16::from_be_bytes([r.body[0], r.body[1]]), ROLE_RESPONDER);
    assert_eq!(r.body[2], 0, "keep-conn flag clear");

    let mut out = Vec::new();
    push_begin_request(&mut out, true);
    let r = parse_record(&out).unwrap();
    assert_eq!(r.body[2], FLAG_KEEP_CONN);
}

#[test]
fn short_name_value_pairs_use_one_byte_lengths() {
    let mut out = Vec::new();
    push_nv_pair(&mut out, b"KEY", b"value");
    assert_eq!(out, b"\x03\x05KEYvalue");
}

#[test]
fn long_values_use_four_byte_lengths_with_the_high_bit_set() {
    let long = vec![b'v'; 200];
    let mut out = Vec::new();
    push_nv_pair(&mut out, b"K", &long);
    assert_eq!(out[0], 1, "short name stays one byte");
    // 4-byte length, high bit set on the first byte.
    assert_eq!(out[1] & 0x80, 0x80);
    let len = u32::from_be_bytes([out[1], out[2], out[3], out[4]]) & 0x7fff_ffff;
    assert_eq!(len, 200);
    assert_eq!(&out[5..6], b"K");
}

#[test]
fn params_stream_is_terminated_by_an_empty_record() {
    let mut params = Vec::new();
    push_nv_pair(&mut params, b"A", b"1");
    let mut out = Vec::new();
    push_params(&mut out, &params);

    let first = parse_record(&out).unwrap();
    assert_eq!(first.ty, RecordType::Params);
    assert!(!first.body.is_empty());
    let second = parse_record(&out[first.total..]).unwrap();
    assert_eq!(second.ty, RecordType::Params);
    assert!(second.body.is_empty(), "stream must end with an empty record");
}

#[test]
fn oversized_payloads_split_across_records() {
    let big = vec![b'x'; MAX_CONTENT + 100];
    let mut out = Vec::new();
    push_stdin(&mut out, &big);

    let mut off = 0;
    let mut data = 0usize;
    let mut records = 0;
    loop {
        let r = parse_record(&out[off..]).unwrap();
        records += 1;
        data += r.body.len();
        off += r.total;
        if r.body.is_empty() {
            break;
        }
    }
    assert_eq!(data, big.len(), "no payload bytes lost");
    assert_eq!(records, 3, "two data records plus the terminator");
}

#[test]
fn incomplete_input_is_reported_not_guessed() {
    let mut out = Vec::new();
    push_record(&mut out, RecordType::Stdout, b"body");
    for cut in 0..out.len() {
        assert_eq!(
            parse_record(&out[..cut]).unwrap_err(),
            ParseError::Incomplete,
            "truncated at {cut} must be Incomplete"
        );
    }
    assert!(parse_record(&out).is_ok());
}

#[test]
fn bad_version_or_type_is_malformed() {
    let mut out = Vec::new();
    push_record(&mut out, RecordType::Stdout, b"x");
    let mut bad_ver = out.clone();
    bad_ver[0] = 9;
    assert_eq!(parse_record(&bad_ver).unwrap_err(), ParseError::Malformed);
    let mut bad_ty = out.clone();
    bad_ty[1] = 99;
    assert_eq!(parse_record(&bad_ty).unwrap_err(), ParseError::Malformed);
}

#[test]
fn end_request_decodes_app_status() {
    let mut body = [0u8; 8];
    body[0..4].copy_from_slice(&255u32.to_be_bytes());
    body[4] = 0; // FCGI_REQUEST_COMPLETE
    assert_eq!(end_request_status(&body), Some((255, 0)));
    assert_eq!(end_request_status(&[0u8; 4]), None);
}

#[test]
fn header_names_become_cgi_environment_names() {
    let mut out = Vec::new();
    http_param_name("X-Forwarded-For", &mut out);
    assert_eq!(out, b"HTTP_X_FORWARDED_FOR");
    out.clear();
    http_param_name("user-agent", &mut out);
    assert_eq!(out, b"HTTP_USER_AGENT");
}

#[test]
fn record_types_have_their_numbers() {
    assert_eq!(RecordType::from_u8(1), Some(RecordType::BeginRequest));
    assert_eq!(RecordType::from_u8(6), Some(RecordType::Stdout));
    assert_eq!(RecordType::from_u8(0), None);
    assert_eq!(RecordType::from_u8(12), None);
    assert_eq!(RecordType::Stdin.to_u8(), 5);
}

#[test]
fn consecutive_records_read_back_in_order() {
    let mut out = Vec::new();
    push_record(&mut out, RecordType::Stdout, b"one");
    push_record(&mut out, RecordType::Stderr, b"three");
    let a = parse_record(&out).unwrap();
    assert_eq!((a.ty, a.body), (RecordType::Stdout, &b"one"[..]));
    let b = parse_record(&out[a.total..]).unwrap();
    assert_eq!((b.ty, b.body), (RecordType::Stderr, &b"three"[..]));
    assert_eq!(a.total + b.total, out.len());
}
