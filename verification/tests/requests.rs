use blazingly_wire::scan::{HeadScan, ScannedHead, ScannedHeader, Span};
use blazingly_wire::{
    interpret_scan, parse_request_head, BodyFraming, ByteRange, ChunkDecoder, Limits, Method,
    ParseError, RequestHead, StreamingChunk, StreamingChunkDecoder,
};

fn complete(bytes: &[u8]) -> RequestHead {
    parse_request_head(bytes, Limits::new())
        .expect("valid request")
        .expect("complete head")
}

fn rejection(bytes: &[u8]) -> ParseError {
    parse_request_head(bytes, Limits::new()).expect_err("must reject")
}

fn with_header(line: &str) -> Vec<u8> {
    let mut bytes = b"POST / HTTP/1.1\r\n".to_vec();
    bytes.extend_from_slice(line.as_bytes());
    bytes.extend_from_slice(b"\r\n\r\n");
    bytes
}

fn with_raw_header(name: &[u8], value: &[u8]) -> Vec<u8> {
    let mut bytes = b"POST / HTTP/1.1\r\n".to_vec();
    bytes.extend_from_slice(name);
    bytes.extend_from_slice(b": ");
    bytes.extend_from_slice(value);
    bytes.extend_from_slice(b"\r\n\r\n");
    bytes
}

#[test]
fn parses_borrowed_keep_alive_request_head() {
    let bytes =
        b"POST /items?x=1 HTTP/1.1\r\nHost: api.example\r\nContent-Length: 4\r\n\r\ntest";
    let head = parse_request_head(bytes, Limits::new())
        .expect("valid request")
        .expect("complete head");
    assert_eq!(head.method, Method::Post);
    assert_eq!(head.target.text(bytes), Some("/items?x=1"));
    assert_eq!(head.headers.value(bytes, "host", 0), Some("api.example"));
    assert_eq!(head.body, BodyFraming::ContentLength(4));
    assert!(head.keep_alive);
}

#[test]
fn rejects_content_length_transfer_encoding_smuggling() {
    let bytes = b"POST / HTTP/1.1\r\nContent-Length: 4\r\nTransfer-Encoding: chunked\r\n\r\n";
    let error = parse_request_head(bytes, Limits::new()).expect_err("must reject");
    assert_eq!(error.status, 400);
}

#[test]
fn incrementally_decodes_chunked_body_and_trailers() {
    let bytes = b"POST / HTTP/1.1\r\nTransfer-Encoding: chunked\r\n\r\n4\r\ntest\r\n0\r\nx-id: 7\r\n\r\n";
    let head = parse_request_head(bytes, Limits::new())
        .expect("valid request")
        .expect("complete head");
    let mut decoder = ChunkDecoder::new(head.head_bytes, Limits::new());
    let body = decoder
        .advance(bytes)
        .expect("valid chunks")
        .expect("complete body");
    assert_eq!(body.body, b"test");
    assert_eq!(body.consumed, bytes.len());
}

#[test]
fn streaming_decoder_yields_chunks_without_aggregating_the_body() {
    let bytes =
        b"POST / HTTP/1.1\r\nTransfer-Encoding: chunked\r\n\r\n4\r\ntest\r\n3\r\ning\r\n0\r\n\r\n";
    let head = parse_request_head(bytes, Limits::default())
        .expect("request")
        .expect("head");
    let mut decoder = StreamingChunkDecoder::new(head.head_bytes, Limits::default());
    let first = decoder.advance(bytes).expect("first");
    let StreamingChunk::Data(first) = first else {
        panic!("expected first chunk");
    };
    assert_eq!(first.bytes(bytes), Some(b"test".as_slice()));
    let second = decoder.advance(bytes).expect("second");
    let StreamingChunk::Data(second) = second else {
        panic!("expected second chunk");
    };
    assert_eq!(second.bytes(bytes), Some(b"ing".as_slice()));
    assert_eq!(
        decoder.advance(bytes).expect("complete"),
        StreamingChunk::Complete {
            consumed: bytes.len()
        }
    );
    assert_eq!(decoder.body_bytes(), 7);
}

#[test]
fn rejects_multi_token_transfer_encoding() {
    let bytes = b"POST / HTTP/1.1\r\nTransfer-Encoding: gzip, chunked\r\n\r\n";
    let error = parse_request_head(bytes, Limits::new()).expect_err("must reject");
    assert_eq!(error.status, 501);
}

#[test]
fn parses_more_than_inline_headers_via_overflow() {
    let mut bytes = b"GET / HTTP/1.1\r\n".to_vec();
    for index in 0..20 {
        bytes.extend_from_slice(format!("x-h{index}: v{index}\r\n").as_bytes());
    }
    bytes.extend_from_slice(b"\r\n");
    let head = parse_request_head(&bytes, Limits::new().with_max_headers(32))
        .expect("valid request")
        .expect("complete head");
    assert_eq!(head.headers.iter().count(), 20);
    assert_eq!(head.headers.value(&bytes, "x-h0", 0), Some("v0"));
    assert_eq!(head.headers.value(&bytes, "x-h19", 0), Some("v19"));
}

#[test]
fn requests_without_framing_headers_have_no_body() {
    let bytes = b"GET /health HTTP/1.1\r\nhost: localhost\r\n\r\n";
    let head = complete(bytes);
    assert!(matches!(head.body, BodyFraming::ContentLength(0)));
}

#[test]
fn gives_exact_offsets() {
    let bytes = b"GET /a HTTP/1.1\r\nHost:  h \r\nX:\r\n\r\nrest";
    let head = complete(bytes);
    assert_eq!(head.method, Method::Get);
    assert_eq!(head.target, ByteRange { start: 4, end: 6 });
    assert_eq!(head.head_bytes, bytes.len() - 4);
    let headers: Vec<_> = head.headers.iter().collect();
    assert_eq!(headers.len(), 2);
    assert_eq!(headers[0].name, ByteRange { start: 17, end: 21 });
    assert_eq!(headers[0].value.text(bytes), Some("h"));
    assert_eq!(headers[1].name.text(bytes), Some("X"));
    assert_eq!(headers[1].value.text(bytes), Some(""));
    assert_eq!(head.body, BodyFraming::ContentLength(0));
    assert_eq!(head.clone().target, head.target);
}

#[test]
fn waits_for_the_rest_of_a_head() {
    let bytes = b"GET / HTTP/1.1\r\nHost: h\r\n\r\n";
    for end in 0..bytes.len() {
        assert!(parse_request_head(&bytes[..end], Limits::new())
            .expect("not malformed")
            .is_none());
    }
    assert!(parse_request_head(bytes, Limits::new())
        .expect("valid")
        .is_some());
}

#[test]
fn rejects_oversized_heads() {
    let limits = Limits::new().with_max_header_bytes(16);
    let unfinished = b"GET /0123456789 HTTP/1.1";
    let error = parse_request_head(unfinished, limits).expect_err("too long");
    assert_eq!(error.status, 431);
    assert_eq!(error.code, "request_header_too_large");
    let finished = b"GET / HTTP/1.1\r\n\r\n";
    let error = parse_request_head(finished, limits).expect_err("too long");
    assert_eq!(error.status, 431);
    assert!(parse_request_head(&unfinished[..16], limits)
        .expect("within the limit")
        .is_none());
    assert!(parse_request_head(finished, Limits::new().with_max_header_bytes(18))
        .expect("within the limit")
        .is_some());
}

#[test]
fn rejects_too_many_headers() {
    let many = |count: usize| {
        let mut bytes = b"GET / HTTP/1.1\r\n".to_vec();
        for _ in 0..count {
            bytes.extend_from_slice(b"a: b\r\n");
        }
        bytes.extend_from_slice(b"\r\n");
        bytes
    };
    let limits = |count: usize| Limits::new().with_max_headers(count);
    for room in [1, 2, 15, 16, 17, 128] {
        let head = parse_request_head(&many(room), limits(room))
            .expect("fits")
            .expect("complete");
        assert_eq!(head.headers.iter().count(), room);
        let error = parse_request_head(&many(room + 1), limits(room)).expect_err("one too many");
        assert_eq!(error.status, 431);
        assert_eq!(error.message, "request headers exceed the configured limit");
    }
}

#[test]
fn rejects_malformed_heads_and_unknown_methods() {
    let error = rejection(b"\x01\x02\x03");
    assert_eq!(error.status, 400);
    assert_eq!(error.code, "bad_request");
    assert_eq!(error.message, "invalid HTTP/1 request");
    assert_eq!(rejection(b"GET / HTTP/2.0\r\n\r\n").status, 400);
    assert_eq!(rejection(b"GET / HTTP/1.1\r\nbad name: x\r\n\r\n").status, 400);
    let error = rejection(b"BREW / HTTP/1.1\r\nContent-Length: x\r\n\r\n");
    assert_eq!(error.status, 405);
    assert_eq!(error.code, "method_not_allowed");
    assert_eq!(error.message, "HTTP method is not supported by this build");
    assert_eq!(rejection(b"get / HTTP/1.1\r\n\r\n").status, 405);
}

#[test]
fn reads_content_lengths() {
    let body = |value: &str| {
        let bytes = with_header(&format!("content-LENGTH: {value}"));
        let limits = Limits::new().with_max_body_bytes(usize::MAX);
        parse_request_head(&bytes, limits).map(|head| head.expect("complete").body)
    };
    assert_eq!(body("0"), Ok(BodyFraming::ContentLength(0)));
    assert_eq!(body("0042"), Ok(BodyFraming::ContentLength(42)));
    assert_eq!(
        body("18446744073709551615"),
        Ok(BodyFraming::ContentLength(usize::MAX))
    );
    for refused in ["18446744073709551616", "-1", "+7", "4 4", "4,4", "0x4", "", "+", "four"] {
        assert_eq!(body(refused).expect_err("no length").status, 400);
    }
    assert_eq!(rejection(&with_raw_header(b"Content-Length", b"\xff")).status, 400);
}

#[test]
fn limits_declared_lengths() {
    let bytes = b"POST / HTTP/1.1\r\nContent-Length: 5\r\n\r\n";
    let limited = |limit: usize| {
        parse_request_head(bytes, Limits::new().with_max_body_bytes(limit))
            .map(|head| head.expect("complete").body)
    };
    assert_eq!(limited(5), Ok(BodyFraming::ContentLength(5)));
    let error = limited(4).expect_err("too long");
    assert_eq!(error.status, 413);
    assert_eq!(error.code, "payload_too_large");
    assert_eq!(error.message, "request body exceeds the configured limit");
    let none = Limits::new().with_max_body_bytes(0);
    let chunked = with_header("transfer-encoding: chunked");
    assert!(parse_request_head(&chunked, none).expect("no length").is_some());
    let conflicting = with_header("content-length: 5\r\ncontent-length: 6");
    assert_eq!(
        parse_request_head(&conflicting, none)
            .expect_err("must reject")
            .status,
        400
    );
}

#[test]
fn compares_repeated_content_lengths() {
    let same = complete(&with_header("content-length: 5\r\nContent-Length: 05"));
    assert_eq!(same.body, BodyFraming::ContentLength(5));
    let differing = with_header("content-length: 5\r\ncontent-length: 6");
    assert_eq!(rejection(&differing).status, 400);
}

#[test]
fn reads_transfer_codings() {
    let body = |line: &str| {
        parse_request_head(&with_header(line), Limits::new())
            .map(|head| head.expect("complete").body)
            .map_err(|error| error.status)
    };
    assert_eq!(body("transfer-encoding: chunked"), Ok(BodyFraming::Chunked));
    assert_eq!(body("Transfer-Encoding: CHUNKED"), Ok(BodyFraming::Chunked));
    assert_eq!(body("transfer-encoding: , chunked ,"), Ok(BodyFraming::Chunked));
    assert_eq!(body("transfer-encoding: gzip"), Err(501));
    assert_eq!(body("transfer-encoding: chunked, chunked"), Err(501));
    assert_eq!(
        body("transfer-encoding: chunked\r\ntransfer-encoding: chunked"),
        Err(501)
    );
    assert_eq!(
        body("transfer-encoding: \r\ntransfer-encoding: chunked"),
        Ok(BodyFraming::Chunked)
    );
    assert_eq!(
        body("transfer-encoding: ,\r\ncontent-length: 3"),
        Ok(BodyFraming::ContentLength(3))
    );
    assert_eq!(body("transfer-encoding: gzip\r\ncontent-length: 3"), Err(400));
    assert_eq!(
        rejection(&with_raw_header(b"Transfer-Encoding", b"\xff")).status,
        400
    );
    let error = rejection(&with_header("transfer-encoding: gzip"));
    assert_eq!(error.code, "unsupported_transfer_encoding");
    assert_eq!(error.message, "only chunked transfer encoding is supported");
}

#[test]
fn decides_whether_the_connection_stays_open() {
    let keep_alive = |version: u8, line: &str| {
        let bytes = format!("GET / HTTP/1.{version}\r\n{line}\r\n\r\n");
        complete(bytes.as_bytes()).keep_alive
    };
    assert!(keep_alive(1, "a: b"));
    assert!(!keep_alive(1, "connection: close"));
    assert!(!keep_alive(1, "Connection: keep-alive, Close"));
    assert!(keep_alive(1, "connection: keep-alive"));
    assert!(keep_alive(1, "connection: closed"));
    assert!(!keep_alive(0, "a: b"));
    assert!(keep_alive(0, "connection: Keep-Alive"));
    assert!(keep_alive(0, "connection: upgrade , keep-alive"));
    assert!(!keep_alive(0, "connection: keep-alive\r\nconnection: close"));
    assert_eq!(rejection(&with_raw_header(b"Connection", b"\xff")).status, 400);
}

#[test]
fn looks_headers_up_by_name_and_number() {
    let bytes = b"GET / HTTP/1.1\r\nX-Id: 1\r\nother: o\r\nx-id: 2\r\nbad: \xff\r\n\r\n";
    let head = complete(bytes);
    assert_eq!(head.headers.value(bytes, "x-id", 0), Some("1"));
    assert_eq!(head.headers.value(bytes, "X_ID", 1), Some("2"));
    assert_eq!(head.headers.value(bytes, "x-id", 2), None);
    assert_eq!(head.headers.value(bytes, "missing", 0), None);
    assert_eq!(head.headers.value(bytes, "bad", 0), None);
}

#[test]
fn names_stand_in_front_of_their_values() {
    let bytes = b"\r\nGET / HTTP/1.0\nA:\nb: \t \r\nC:d\r\n\r\n";
    let head = complete(bytes);
    assert_eq!(head.head_bytes, bytes.len());
    let headers: Vec<_> = head.headers.iter().collect();
    assert_eq!(headers.len(), 3);
    for header in headers {
        assert!(header.name.start < header.name.end);
        assert!(header.name.end < header.value.start);
        assert!(header.value.end <= head.head_bytes);
    }
    assert_eq!(head.headers.value(bytes, "a", 0), Some(""));
    assert_eq!(head.headers.value(bytes, "b", 0), Some(""));
    assert_eq!(head.headers.value(bytes, "c", 0), Some("d"));
}

#[test]
fn positions_stay_valid_while_the_buffer_grows() {
    let mut bytes = b"POST /t HTTP/1.1\r\na: first\r\n\r\n".to_vec();
    let head = complete(&bytes);
    bytes.extend_from_slice(b"body bytes that arrive later");
    assert_eq!(head.target.text(&bytes), Some("/t"));
    assert_eq!(head.headers.value(&bytes, "a", 0), Some("first"));
}

#[test]
fn bytes_behind_a_head_do_not_matter() {
    let bytes = b"GET /a HTTP/1.1\r\nConnection: close\r\n\r\n";
    let alone = complete(bytes);
    for rest in [b"x".as_slice(), b"\r\n", b"GET / HTTP/1.1\r\n\r\n", &[0; 64]] {
        let mut longer = bytes.to_vec();
        longer.extend_from_slice(rest);
        let head = complete(&longer);
        for arrived in 0..head.head_bytes {
            assert!(parse_request_head(&longer[..arrived], Limits::new())
                .expect("not malformed")
                .is_none());
        }
        assert_eq!(head.head_bytes, bytes.len());
        assert_eq!(head.method, alone.method);
        assert_eq!(head.target, alone.target);
        assert!(head.headers.iter().eq(alone.headers.iter()));
        assert_eq!(head.body, alone.body);
        assert_eq!(head.keep_alive, alone.keep_alive);
    }
}

fn hand_made<'a>(headers: Vec<ScannedHeader>) -> ScannedHead<'a> {
    ScannedHead {
        origin: 1000,
        head_bytes: 10,
        method: Some("PUT"),
        path: Some(Span {
            address: 1002,
            len: 3,
        }),
        version: Some(1),
        headers,
    }
}

#[test]
fn interprets_hand_made_splits() {
    let buffer = b"..abc.connectionclose";
    let limits = Limits::new();
    let span = |start: usize, len: usize| Span {
        address: 1000 + start,
        len,
    };
    let header = ScannedHeader {
        name: span(6, 10),
        value: span(16, 5),
    };
    let head = interpret_scan(buffer, limits, HeadScan::Complete(hand_made(vec![header])))
        .expect("valid")
        .expect("complete");
    assert_eq!(head.method, Method::Put);
    assert_eq!(head.target.text(buffer), Some("abc"));
    assert_eq!(head.headers.value(buffer, "connection", 0), Some("close"));
    assert!(!head.keep_alive);

    assert!(interpret_scan(buffer, limits, HeadScan::Partial)
        .expect("unfinished")
        .is_none());
    let status = |scan: HeadScan<'_>| {
        interpret_scan(buffer, limits, scan)
            .expect_err("must reject")
            .status
    };
    assert_eq!(status(HeadScan::TooManyHeaders), 431);
    assert_eq!(status(HeadScan::Malformed), 400);

    let mut nameless = hand_made(Vec::new());
    nameless.method = None;
    assert_eq!(status(HeadScan::Complete(nameless)), 400);
    let mut unknown = hand_made(Vec::new());
    unknown.method = Some("PUTT");
    unknown.path = None;
    assert_eq!(status(HeadScan::Complete(unknown)), 405);
    let mut pathless = hand_made(Vec::new());
    pathless.path = None;
    assert_eq!(status(HeadScan::Complete(pathless)), 400);
    let mut versionless = hand_made(Vec::new());
    versionless.version = None;
    assert_eq!(status(HeadScan::Complete(versionless)), 400);
    let mut long = hand_made(Vec::new());
    long.head_bytes = 32 * 1024 + 1;
    assert_eq!(status(HeadScan::Complete(long)), 431);
}

#[test]
fn rejects_parts_outside_of_the_buffer() {
    let buffer = b"0123456789";
    let status = |address: usize, len: usize| {
        let mut parts = hand_made(Vec::new());
        parts.path = Some(Span { address, len });
        interpret_scan(buffer, Limits::new(), HeadScan::Complete(parts))
            .map(|head| head.expect("complete").target)
            .map_err(|error| error.status)
    };
    assert_eq!(status(1000, 10), Ok(ByteRange { start: 0, end: 10 }));
    assert_eq!(status(1010, 0), Ok(ByteRange { start: 10, end: 10 }));
    assert_eq!(status(999, 1), Err(400));
    assert_eq!(status(1001, 10), Err(400));
    assert_eq!(status(1001, usize::MAX), Err(400));
    let stray = ScannedHeader {
        name: Span {
            address: 1000,
            len: 1,
        },
        value: Span {
            address: 1010,
            len: 1,
        },
    };
    let scan = HeadScan::Complete(hand_made(vec![stray]));
    assert_eq!(
        interpret_scan(buffer, Limits::new(), scan)
            .expect_err("stray value")
            .status,
        400
    );
}
