use blazingly_wire::{
    encode_response_head, encode_response_head_prepared, encode_upgrade_response, reason_phrase,
    EncodeError, PreparedHeaders,
};

const DATE: &str = "Mon, 27 Jul 2026 00:00:00 GMT";

#[test]
fn response_head_owns_framing_and_blocks_header_injection() {
    let mut output = Vec::new();
    encode_response_head(
        &mut output,
        200,
        &[("content-type", "application/json")],
        Some(2),
        false,
        true,
        "Mon, 27 Jul 2026 00:00:00 GMT",
    )
    .expect("valid response");
    let text = String::from_utf8(output).expect("HTTP text");
    assert!(text.starts_with("HTTP/1.1 200 OK\r\n"));
    assert!(text.contains("content-length: 2\r\n"));

    let mut invalid = Vec::new();
    assert!(encode_response_head(
        &mut invalid,
        200,
        &[("x-value", "ok\r\ninjected: true")],
        Some(0),
        false,
        true,
        "Mon, 27 Jul 2026 00:00:00 GMT",
    )
    .is_err());
}

#[test]
fn prepared_headers_match_the_validating_path_and_stay_filtered() {
    let headers = [
        ("content-type", "application/json"),
        ("content-length", "999"),
        ("x-request-id", "abc123"),
    ];
    let date = "Mon, 27 Jul 2026 00:00:00 GMT";
    let mut per_call = Vec::new();
    encode_response_head(&mut per_call, 200, &headers, Some(2), false, true, date)
        .expect("valid response");
    let prepared = PreparedHeaders::new(&headers).expect("valid headers");
    let mut reused = Vec::new();
    encode_response_head_prepared(&mut reused, 200, &prepared, Some(2), false, true, date)
        .expect("valid response");
    assert_eq!(per_call, reused);
    assert!(!String::from_utf8(reused)
        .expect("HTTP text")
        .contains("999"));
    assert!(PreparedHeaders::new(&[("x-bad", "ok\r\ninjected: true")]).is_err());
}

#[test]
fn prepared_caller_date_suppresses_the_generated_date() {
    let prepared =
        PreparedHeaders::new(&[("Date", "Mon, 27 Jul 2026 00:00:00 GMT")]).expect("valid");
    let mut output = Vec::new();
    encode_response_head_prepared(&mut output, 204, &prepared, None, false, true, "ignored")
        .expect("valid response");
    let text = String::from_utf8(output).expect("HTTP text");
    assert_eq!(text.matches("ate:").count(), 1);
}

#[test]
fn value_validation_scans_full_words_and_remainders() {
    let accepts = |value: &str| {
        let mut output = Vec::new();
        encode_response_head(
            &mut output,
            200,
            &[("x-v", value)],
            Some(0),
            false,
            true,
            "Mon, 27 Jul 2026 00:00:00 GMT",
        )
        .is_ok()
    };
    assert!(accepts("exactly-eight!!!"));
    assert!(accepts("tab\tinside a longer value"));
    assert!(accepts("caf\u{e9} obs-text value"));
    assert!(!accepts("bad\u{7f}in first word"));
    assert!(!accepts("eightpad\u{7f}tail"));
    assert!(!accepts("eightpadx\u{1f}"));
    assert!(!accepts("\u{1}"));
}

#[test]
fn switching_protocols_preserves_required_upgrade_headers() {
    let mut output = Vec::new();
    encode_upgrade_response(
        &mut output,
        &[
            ("connection", "Upgrade"),
            ("upgrade", "websocket"),
            ("sec-websocket-accept", "accepted"),
        ],
        "Sun, 06 Nov 1994 08:49:37 GMT",
    )
    .expect("upgrade response");
    let output = String::from_utf8(output).expect("UTF-8");
    assert!(output.starts_with("HTTP/1.1 101 Switching Protocols\r\n"));
    assert!(output.contains("connection: Upgrade\r\n"));
    assert!(!output.contains("content-length"));
}

fn head(
    status: u16,
    headers: &[(&str, &str)],
    content_length: Option<u64>,
    chunked: bool,
    keep_alive: bool,
    date: &str,
) -> (String, Result<(), EncodeError>) {
    let mut output = b"> ".to_vec();
    let encoded = encode_response_head(
        &mut output,
        status,
        headers,
        content_length,
        chunked,
        keep_alive,
        date,
    );
    (String::from_utf8(output).expect("HTTP text"), encoded)
}

#[test]
fn response_heads_are_exact() {
    assert_eq!(
        head(404, &[("A", "b"), ("c", "")], Some(120), true, true, "d"),
        (
            "> HTTP/1.1 404 Not Found\r\nA: b\r\nc: \r\ncontent-length: 120\r\ndate: d\r\n\r\n"
                .to_string(),
            Ok(())
        )
    );
    assert_eq!(
        head(7, &[], None, true, false, "d"),
        (
            "> HTTP/1.1 7 Unknown\r\ntransfer-encoding: chunked\r\ndate: d\r\nconnection: close\r\n\r\n"
                .to_string(),
            Ok(())
        )
    );
    assert_eq!(
        head(65535, &[], None, false, true, ""),
        (
            "> HTTP/1.1 65535 Unknown\r\ndate: \r\n\r\n".to_string(),
            Ok(())
        )
    );
    let (text, _) = head(200, &[], Some(u64::MAX), false, true, DATE);
    assert!(text.contains("content-length: 18446744073709551615\r\n"));
    let (text, _) = head(200, &[], Some(0), false, true, DATE);
    assert!(text.contains("content-length: 0\r\n"));
    let long = "x".repeat(100);
    let (text, encoded) = head(200, &[], None, false, true, &long);
    assert_eq!(encoded, Ok(()));
    assert_eq!(text, format!("> HTTP/1.1 200 OK\r\ndate: {long}\r\n\r\n"));
}

#[test]
fn framing_headers_are_dropped_even_when_invalid() {
    let headers = [
        ("Connection", "bad\r\n"),
        ("x", "1"),
        ("CONTENT-length", "\0"),
        ("transfer-Encoding", "gzip"),
        ("y", "2"),
    ];
    let with = head(200, &headers, None, false, true, DATE);
    let without = head(200, &[("x", "1"), ("y", "2")], None, false, true, DATE);
    assert_eq!(with, without);
    assert_eq!(with.1, Ok(()));
}

#[test]
fn refused_headers_leave_what_was_written_before() {
    let headers = [("a", "1"), ("b c", "2"), ("d", "3")];
    assert_eq!(
        head(200, &headers, Some(1), false, true, DATE),
        (
            "> HTTP/1.1 200 OK\r\na: 1\r\n".to_string(),
            Err(EncodeError::InvalidHeader)
        )
    );
    for name in ["", "sp ace", "colon:", "caf\u{e9}", "line\n"] {
        let refused = head(200, &[(name, "v")], None, false, true, DATE).1;
        assert_eq!(refused, Err(EncodeError::InvalidHeader));
        assert_eq!(
            PreparedHeaders::new(&[(name, "v")]).expect_err("refused"),
            EncodeError::InvalidHeader
        );
    }
    assert_eq!(
        head(200, &[("a", "1")], Some(1), false, true, "bad\r\ndate"),
        (
            "> HTTP/1.1 200 OK\r\na: 1\r\ncontent-length: 1\r\n".to_string(),
            Err(EncodeError::InvalidDate)
        )
    );
}

#[test]
fn caller_dates_take_precedence() {
    let (text, encoded) = head(200, &[("DATE", "mine")], None, false, true, "bad\n");
    assert_eq!(encoded, Ok(()));
    assert_eq!(text, "> HTTP/1.1 200 OK\r\nDATE: mine\r\n\r\n");
}

#[test]
fn encoded_heads_hold_the_intended_lines_only() {
    let (text, encoded) = head(
        503,
        &[("a", "tab\tand \u{e9}"), ("b", ": c: d")],
        Some(3),
        false,
        false,
        DATE,
    );
    assert_eq!(encoded, Ok(()));
    let lines: Vec<&str> = text.split("\r\n").collect();
    let date = format!("date: {DATE}");
    assert_eq!(
        lines,
        [
            "> HTTP/1.1 503 Service Unavailable",
            "a: tab\tand \u{e9}",
            "b: : c: d",
            "content-length: 3",
            date.as_str(),
            "connection: close",
            "",
            "",
        ]
    );
}

#[test]
fn every_byte_of_a_value_is_checked() {
    for byte in 0..128_u8 {
        for position in 0..20 {
            let mut value = [b'x'; 20];
            value[position] = byte;
            let value = std::str::from_utf8(&value).expect("ASCII");
            let encoded = head(200, &[("v", value)], None, false, true, DATE).1;
            let allowed = byte == b'\t' || (32..127).contains(&byte);
            assert_eq!(encoded.is_ok(), allowed, "{byte} at {position}");
        }
    }
}

#[test]
fn tabs_next_to_spaces_are_accepted_and_other_controls_are_not() {
    assert!(head(200, &[("v", "\t \t \t \t ")], None, false, true, DATE).1.is_ok());
    assert!(head(200, &[("v", "ab\t\u{8}cdef")], None, false, true, DATE).1.is_err());
    assert!(head(200, &[("v", "ab\u{8}\tcdef")], None, false, true, DATE).1.is_err());
}

#[test]
fn prepared_headers_are_reusable() {
    let prepared = PreparedHeaders::new(&[("a", "1")]).expect("valid");
    let copy = prepared.clone();
    for (headers, status) in [(&prepared, 200), (&copy, 500)] {
        let mut output = b"> ".to_vec();
        let encoded =
            encode_response_head_prepared(&mut output, status, headers, None, true, false, DATE);
        assert_eq!(encoded, Ok(()));
        let direct = head(status, &[("a", "1")], None, true, false, DATE);
        assert_eq!(String::from_utf8(output).expect("HTTP text"), direct.0);
    }
    let mut output = Vec::new();
    assert_eq!(
        encode_response_head_prepared(&mut output, 200, &prepared, None, false, true, "\n"),
        Err(EncodeError::InvalidDate)
    );
    assert_eq!(output, b"HTTP/1.1 200 OK\r\na: 1\r\n");
}

fn upgrade(headers: &[(&str, &str)], date: &str) -> (String, Result<(), EncodeError>) {
    let mut output = b"> ".to_vec();
    let encoded = encode_upgrade_response(&mut output, headers, date);
    (String::from_utf8(output).expect("HTTP text"), encoded)
}

#[test]
fn upgrade_responses_are_exact() {
    assert_eq!(
        upgrade(
            &[
                ("Connection", "keep-alive, UPGRADE"),
                ("Content-Length", "\0"),
                ("Upgrade", "h2c"),
                ("Transfer-Encoding", "chunked"),
            ],
            DATE
        ),
        (
            format!(
                "> HTTP/1.1 101 Switching Protocols\r\nConnection: keep-alive, UPGRADE\r\nUpgrade: h2c\r\ndate: {DATE}\r\n\r\n"
            ),
            Ok(())
        )
    );
    let dated = [("connection", "upgrade"), ("upgrade", "x"), ("date", "mine")];
    assert_eq!(
        upgrade(&dated, "\n"),
        (
            "> HTTP/1.1 101 Switching Protocols\r\nconnection: upgrade\r\nupgrade: x\r\ndate: mine\r\n\r\n"
                .to_string(),
            Ok(())
        )
    );
}

#[test]
fn upgrade_responses_need_both_headers() {
    for headers in [
        vec![],
        vec![("connection", "upgrade")],
        vec![("upgrade", "websocket")],
        vec![("connection", "upgrade"), ("upgrade", " \t")],
        vec![("connection", "upgraded"), ("upgrade", "websocket")],
    ] {
        assert_eq!(upgrade(&headers, DATE).1, Err(EncodeError::MissingUpgrade));
    }
    assert_eq!(
        upgrade(&[("upgrade", "websocket")], DATE).0,
        "> HTTP/1.1 101 Switching Protocols\r\nupgrade: websocket\r\n"
    );
    assert_eq!(
        upgrade(&[("connection", "upgrade"), ("x", "\n"), ("upgrade", "a")], DATE),
        (
            "> HTTP/1.1 101 Switching Protocols\r\nconnection: upgrade\r\n".to_string(),
            Err(EncodeError::InvalidUpgradeHeader)
        )
    );
    assert_eq!(
        upgrade(&[("connection", "upgrade"), ("upgrade", "a")], "\r").1,
        Err(EncodeError::InvalidDate)
    );
}

#[test]
fn reason_phrases_are_exact() {
    let known = [
        (200, "OK"),
        (201, "Created"),
        (202, "Accepted"),
        (204, "No Content"),
        (206, "Partial Content"),
        (400, "Bad Request"),
        (401, "Unauthorized"),
        (403, "Forbidden"),
        (404, "Not Found"),
        (405, "Method Not Allowed"),
        (409, "Conflict"),
        (413, "Payload Too Large"),
        (415, "Unsupported Media Type"),
        (422, "Unprocessable Content"),
        (429, "Too Many Requests"),
        (431, "Request Header Fields Too Large"),
        (499, "Client Closed Request"),
        (500, "Internal Server Error"),
        (501, "Not Implemented"),
        (503, "Service Unavailable"),
        (504, "Gateway Timeout"),
    ];
    for (status, phrase) in known {
        assert_eq!(reason_phrase(status), phrase);
    }
    for status in [0, 101, 203, 302, 502, 65535] {
        assert_eq!(reason_phrase(status), "Unknown");
    }
}

#[test]
fn encode_errors_say_what_is_wrong() {
    assert_eq!(
        EncodeError::InvalidHeader.message(),
        "response contains an invalid header"
    );
    assert_eq!(
        EncodeError::InvalidUpgradeHeader.message(),
        "upgrade response contains an invalid header"
    );
    assert_eq!(
        EncodeError::MissingUpgrade.message(),
        "upgrade response is missing required protocol switch headers"
    );
    assert_eq!(EncodeError::InvalidDate.message(), "response date is invalid");
}
