use blazingly_wire::bytes::{eq_ignore_ascii_case, find_bytes, matches_at, position_of};
use blazingly_wire::field::{is_header_name_byte, valid_header, valid_header_value};
use blazingly_wire::number::{parse_number, push_decimal, push_hex};
use blazingly_wire::text::{has_element, same_text, split_list, trim};
use blazingly_wire::{
    parse_request_head, ByteRange, Limits, Method, DEFAULT_MAX_BODY_BYTES, DEFAULT_MAX_CHUNKS,
    DEFAULT_MAX_HEADERS, DEFAULT_MAX_HEADER_BYTES, MAX_HEADER_CAPACITY,
};

#[test]
fn methods_round_trip() {
    let methods = [
        (Method::Get, "GET"),
        (Method::Head, "HEAD"),
        (Method::Post, "POST"),
        (Method::Put, "PUT"),
        (Method::Patch, "PATCH"),
        (Method::Delete, "DELETE"),
        (Method::Options, "OPTIONS"),
        (Method::Trace, "TRACE"),
        (Method::Connect, "CONNECT"),
    ];
    for (method, token) in methods {
        assert_eq!(method.as_str(), token);
        assert_eq!(Method::parse(token), Ok(method));
    }
    for token in ["", "get", "GETS", "GE", "Get"] {
        assert_eq!(Method::parse(token).expect_err("unknown").status, 405);
    }
}

#[test]
fn ranges_select_bytes_and_text() {
    let buffer = b"ab\xffcd";
    let range = |start: usize, end: usize| ByteRange { start, end };
    assert_eq!(range(0, 2).bytes(buffer), Some(b"ab".as_slice()));
    assert_eq!(range(0, 2).text(buffer), Some("ab"));
    assert_eq!(range(1, 3).bytes(buffer), Some(b"b\xff".as_slice()));
    assert_eq!(range(1, 3).text(buffer), None);
    assert_eq!(range(5, 5).bytes(buffer), Some(b"".as_slice()));
    assert_eq!(range(4, 6).bytes(buffer), None);
    assert_eq!(range(3, 2).bytes(buffer), None);
    assert_eq!(range(6, 6).text(buffer), None);
}

#[test]
fn limits_have_defaults() {
    assert_eq!(DEFAULT_MAX_BODY_BYTES, 1_048_576);
    assert_eq!(DEFAULT_MAX_HEADER_BYTES, 32_768);
    assert_eq!(DEFAULT_MAX_HEADERS, 64);
    assert_eq!(DEFAULT_MAX_CHUNKS, 8_192);
    assert_eq!(MAX_HEADER_CAPACITY, 128);
    assert_eq!(Limits::new(), Limits::default());
    let spelled_out = Limits::new()
        .with_max_header_bytes(32_768)
        .with_max_headers(64)
        .with_max_body_bytes(1_048_576)
        .with_max_chunks(8_192);
    assert_eq!(spelled_out, Limits::new());
    assert_ne!(Limits::new().with_max_chunks(1), Limits::new());
}

#[test]
fn rejections_display_code_and_message() {
    let error = parse_request_head(b"\0", Limits::new()).expect_err("must reject");
    assert_eq!(error.to_string(), "bad_request: invalid HTTP/1 request");
}

#[test]
fn numbers_are_read() {
    assert_eq!(parse_number(b"0", 10), Some(0));
    assert_eq!(parse_number(b"007", 10), Some(7));
    assert_eq!(parse_number(b"fF", 16), Some(255));
    assert_eq!(parse_number(b"18446744073709551615", 10), Some(usize::MAX));
    assert_eq!(parse_number(b"18446744073709551616", 10), None);
    assert_eq!(parse_number(b"99999999999999999999999", 10), None);
    assert_eq!(parse_number(b"FFFFFFFFFFFFFFFF", 16), Some(usize::MAX));
    assert_eq!(parse_number(b"10000000000000000", 16), None);
    assert_eq!(parse_number(b"0000000000000000000000000001", 16), Some(1));
    for text in [b"".as_slice(), b"+", b"+1", b"++1", b"-1", b"1a", b" 1", b"1 ", b"\xff"] {
        assert_eq!(parse_number(text, 10), None);
    }
}

#[test]
fn numbers_are_written_and_read_back() {
    for value in [0, 1, 9, 10, 15, 16, 255, 256, 65_535, 1_000_000, u64::MAX] {
        let mut decimal = b"=".to_vec();
        push_decimal(&mut decimal, value);
        assert_eq!(decimal, format!("={value}").as_bytes());
        assert_eq!(parse_number(&decimal[1..], 10), Some(value as usize));
        let mut hex = b"=".to_vec();
        push_hex(&mut hex, value as usize);
        assert_eq!(hex, format!("={value:X}").as_bytes());
        assert_eq!(parse_number(&hex[1..], 16), Some(value as usize));
    }
}

#[test]
fn bytes_are_compared_and_found() {
    assert!(eq_ignore_ascii_case(b"Content-Length", b"cONTENT-lENGTH"));
    assert!(!eq_ignore_ascii_case(b"ab", b"abc"));
    assert!(!eq_ignore_ascii_case(b"[", b"{"));
    assert!(!eq_ignore_ascii_case(b"\xc9", b"\xe9"));
    assert_eq!(find_bytes(b"aXbXb", b"Xb", 0), Some(1));
    assert_eq!(find_bytes(b"aXbXb", b"Xb", 2), Some(3));
    assert_eq!(find_bytes(b"aXbXb", b"Xb", 4), None);
    assert_eq!(find_bytes(b"aXbXb", b"Xb", 99), None);
    assert_eq!(find_bytes(b"aab", b"ab", 0), Some(1));
    assert!(matches_at(b"abc", b"bc", 1));
    assert!(!matches_at(b"abc", b"bc", 2));
    assert!(!matches_at(b"abc", b"bc", usize::MAX));
    assert_eq!(position_of(b"a,b,c", b','), 1);
    assert_eq!(position_of(b"abc", b','), 3);
}

#[test]
fn white_space_is_trimmed_like_text() {
    let samples = [
        "",
        " ",
        "a",
        " \t\r\n\u{b}\u{c}a b ",
        "\u{85}\u{a0}x\u{1680}",
        "\u{2000}\u{2005}\u{200a}y\u{2028}\u{2029}\u{202f}\u{205f}\u{3000}",
        "\u{200b}z\u{feff}",
        "\u{e9} \u{e9}",
        "\u{3000}",
    ];
    for sample in samples {
        assert_eq!(trim(sample.as_bytes()), sample.trim().as_bytes(), "{sample:?}");
    }
}

#[test]
fn lists_are_split_and_searched() {
    let elements = split_list(b" a ,,b b,\t");
    assert_eq!(elements, [b"a".as_slice(), b"", b"b b", b""]);
    assert_eq!(split_list(b""), [b"".as_slice()]);
    assert!(has_element(b"keep-alive , Upgrade", b"upgrade"));
    assert!(!has_element(b"upgrades", b"upgrade"));
    assert!(same_text("a\u{e9}", "a\u{e9}"));
    assert!(!same_text("a", "b"));
    assert!(!same_text("a", "ab"));
}

#[test]
fn names_and_values_are_checked() {
    for byte in 0..=255_u8 {
        let token = byte.is_ascii_alphanumeric() || b"!#$%&'*+-.^_`|~".contains(&byte);
        assert_eq!(is_header_name_byte(byte), token);
        assert_eq!(valid_header(&[b'n', byte], b""), token);
        let allowed = byte == b'\t' || (byte >= 32 && byte != 127);
        assert_eq!(valid_header_value(&[byte]), allowed);
        for position in 0..16 {
            let mut value = [b'\t'; 16];
            value[position] = byte;
            assert_eq!(valid_header_value(&value), allowed);
        }
    }
    assert!(!valid_header(b"", b"value"));
}
