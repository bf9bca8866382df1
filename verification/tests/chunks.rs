use blazingly_wire::{
    encode_chunk, ChunkDecoder, DecodedChunkedBody, Limits, ParseError, StreamingChunk,
    StreamingChunkDecoder, LAST_CHUNK,
};

fn decode(bytes: &[u8], limits: Limits) -> Result<Option<DecodedChunkedBody>, ParseError> {
    ChunkDecoder::new(0, limits).advance(bytes)
}

fn decode_status(bytes: &[u8]) -> u16 {
    decode(bytes, Limits::new()).expect_err("must reject").status
}

/// Calls the decoder until it hands out no more data.
fn drain(
    decoder: &mut StreamingChunkDecoder,
    bytes: &[u8],
    data: &mut Vec<u8>,
) -> Result<StreamingChunk, ParseError> {
    loop {
        match decoder.advance(bytes)? {
            StreamingChunk::Data(range) => {
                assert!(range.start < range.end);
                assert_eq!(decoder.consumed_prefix(), range.end);
                data.extend_from_slice(range.bytes(bytes).expect("within the buffer"));
            }
            event => return Ok(event),
        }
    }
}

const WIRE: &[u8] = b"4\r\ntest\r\n 3 ;ext=1\r\ning\r\nA\r\n0123456789\r\n0\r\nx-id: 7\r\nx-b:\r\n\r\nGET";

const DATA: &[u8] = b"testing0123456789";

#[test]
fn encodes_chunk_frames_with_uppercase_hex_sizes() {
    let mut output = Vec::new();
    encode_chunk(&mut output, &[b'x'; 26]).expect("chunk frame");
    assert!(output.starts_with(b"1A\r\n"));
    assert!(output.ends_with(b"\r\n"));
    assert_eq!(output.len(), 4 + 26 + 2);
}

#[test]
fn chunk_frames_are_exact() {
    let mut output = b"before".to_vec();
    encode_chunk(&mut output, b"hello").expect("chunk frame");
    assert_eq!(output, b"before5\r\nhello\r\n");
    let mut empty = Vec::new();
    encode_chunk(&mut empty, b"").expect("chunk frame");
    assert_eq!(empty, LAST_CHUNK);
    assert_eq!(&LAST_CHUNK[..], b"0\r\n\r\n");
}

#[test]
fn decodes_bodies_that_arrive_byte_by_byte() {
    let end = WIRE.len() - 3;
    let mut decoder = ChunkDecoder::new(0, Limits::new());
    for arrived in 0..end {
        assert_eq!(decoder.advance(&WIRE[..arrived]), Ok(None));
    }
    let body = decoder
        .advance(&WIRE[..end])
        .expect("valid")
        .expect("complete");
    assert_eq!(body.body, DATA);
    assert_eq!(body.consumed, end);
}

#[test]
fn decodes_bodies_cut_anywhere() {
    let expected = decode(WIRE, Limits::new()).expect("valid").expect("complete");
    assert_eq!(expected.body, DATA);
    assert_eq!(expected.consumed, WIRE.len() - 3);
    for cut in 0..expected.consumed {
        let mut decoder = ChunkDecoder::new(0, Limits::new());
        assert_eq!(decoder.advance(&WIRE[..cut]), Ok(None));
        let body = decoder.advance(WIRE).expect("valid").expect("complete");
        assert_eq!(body, expected);
    }
}

#[test]
fn streams_bodies_cut_anywhere() {
    for cut in 0..WIRE.len() - 3 {
        let mut decoder = StreamingChunkDecoder::new(0, Limits::new());
        let mut data = Vec::new();
        assert_eq!(
            drain(&mut decoder, &WIRE[..cut], &mut data),
            Ok(StreamingChunk::NeedMore)
        );
        assert_eq!(
            drain(&mut decoder, WIRE, &mut data),
            Ok(StreamingChunk::Complete {
                consumed: WIRE.len() - 3
            })
        );
        assert_eq!(data, DATA);
        assert_eq!(decoder.body_bytes(), DATA.len());
    }
}

#[test]
fn waits_behind_the_last_chunk() {
    let mut decoder = ChunkDecoder::new(0, Limits::new());
    assert_eq!(decoder.advance(b"1\r\na\r\n0\r\n"), Ok(None));
    let body = decoder
        .advance(b"1\r\na\r\n0\r\n\r\n")
        .expect("valid")
        .expect("complete");
    assert_eq!(body.body, b"a");
    assert_eq!(body.consumed, 11);
}

#[test]
fn discards_consumed_prefixes() {
    let mut decoder = StreamingChunkDecoder::new(5, Limits::new());
    let mut buffer = b"HEAD:".to_vec();
    let mut data = Vec::new();
    let mut discarded = 0;
    for &byte in &WIRE[..WIRE.len() - 3] {
        buffer.push(byte);
        match drain(&mut decoder, &buffer, &mut data).expect("valid") {
            StreamingChunk::NeedMore => {
                let consumed = decoder.consumed_prefix();
                buffer.drain(..consumed);
                decoder.discard_prefix(consumed);
                discarded += consumed;
                assert_eq!(decoder.consumed_prefix(), 0);
            }
            event => assert_eq!(
                event,
                StreamingChunk::Complete {
                    consumed: 5 + WIRE.len() - 3 - discarded
                }
            ),
        }
    }
    assert_eq!(data, DATA);
    assert_eq!(decoder.body_bytes(), DATA.len());
}

#[test]
fn size_lines_hold_no_signs() {
    let wire = b"+4\r\ntest\r\n0\r\n\r\n";
    let error = decode(wire, Limits::new()).expect_err("no chunk size");
    assert_eq!(error.status, 400);
    assert_eq!(error.code, "bad_request");
    let mut decoder = StreamingChunkDecoder::new(0, Limits::new());
    assert_eq!(decoder.advance(wire), Err(error));
    assert_eq!(decode_status(b"+0\r\n\r\n"), 400);
}

#[test]
fn consumed_prefix_covers_a_complete_body() {
    let mut decoder = StreamingChunkDecoder::new(0, Limits::new());
    assert_eq!(
        decoder.advance(b"0\r\n\r\n"),
        Ok(StreamingChunk::Complete { consumed: 5 })
    );
    assert_eq!(decoder.consumed_prefix(), 5);
    decoder.discard_prefix(5);
    assert_eq!(decoder.consumed_prefix(), 0);

    let mut decoder = StreamingChunkDecoder::new(0, Limits::new());
    let mut data = Vec::new();
    assert_eq!(
        drain(&mut decoder, WIRE, &mut data),
        Ok(StreamingChunk::Complete {
            consumed: WIRE.len() - 3
        })
    );
    assert_eq!(decoder.consumed_prefix(), WIRE.len() - 3);
}

#[test]
fn only_the_bytes_of_a_body_matter() {
    let end = WIRE.len() - 3;
    let expected = decode(WIRE, Limits::new()).expect("valid").expect("complete");
    for rest in [b"".as_slice(), b"\r\n", b"POST /"] {
        let mut other = WIRE[..end].to_vec();
        other.extend_from_slice(rest);
        let body = decode(&other, Limits::new()).expect("valid").expect("complete");
        assert_eq!(body, expected);
        let mut decoder = StreamingChunkDecoder::new(0, Limits::new());
        let mut data = Vec::new();
        assert_eq!(
            drain(&mut decoder, &other, &mut data),
            Ok(StreamingChunk::Complete { consumed: end })
        );
        assert_eq!(data, DATA);
    }
}

#[test]
fn cut_bodies_are_waited_for_from_the_start() {
    for arrived in 0..WIRE.len() - 3 {
        assert_eq!(decode(&WIRE[..arrived], Limits::new()), Ok(None));
    }
    let tight = Limits::new().with_max_header_bytes(4);
    assert_eq!(
        decode(b"1;234\r\na\r\n0\r\n\r\n", tight)
            .expect("whole lines may be longer")
            .expect("complete")
            .body,
        b"a"
    );
    assert_eq!(decode(b"1;234", tight).expect_err("too long").status, 400);
}

#[test]
fn decodes_what_was_encoded() {
    let chunks: [&[u8]; 4] = [b"a", b"\r\n0\r\n\r\n", &[0xff; 300], b"last"];
    let mut wire = b"prefix".to_vec();
    let mut joined = Vec::new();
    for chunk in chunks {
        encode_chunk(&mut wire, chunk).expect("chunk frame");
        joined.extend_from_slice(chunk);
    }
    wire.extend_from_slice(&LAST_CHUNK);
    let end = wire.len();
    wire.extend_from_slice(b"next request");
    let body = ChunkDecoder::new(6, Limits::new())
        .advance(&wire)
        .expect("valid")
        .expect("complete");
    assert_eq!(body.body, joined);
    assert_eq!(body.consumed, end);
    let mut decoder = StreamingChunkDecoder::new(6, Limits::new());
    let mut data = Vec::new();
    assert_eq!(
        drain(&mut decoder, &wire, &mut data),
        Ok(StreamingChunk::Complete { consumed: end })
    );
    assert_eq!(data, joined);
}

#[test]
fn decoders_agree_on_verdicts() {
    let wires: [&[u8]; 12] = [
        b"4\r\ntest\r\n0\r\n\r\n",
        b"4\r\ntestX\r\n0\r\n\r\n",
        b"4\r\ntes",
        b"zz\r\n",
        b"\r\n",
        b"0\r\nbad trailer\r\n\r\n",
        b"0\r\nname: v\x01\r\n\r\n",
        b"0\r\n: v\r\n\r\n",
        b"0\r\na: b\r\n\r\n",
        b"FFFFFFFFFFFFFFFF\r\n",
        b"10000000000000000\r\n",
        b"\xff\r\n",
    ];
    for wire in wires {
        let collected = decode(wire, Limits::new());
        let mut data = Vec::new();
        let mut decoder = StreamingChunkDecoder::new(0, Limits::new());
        let streamed = drain(&mut decoder, wire, &mut data);
        match (collected, streamed) {
            (Ok(Some(body)), Ok(StreamingChunk::Complete { consumed })) => {
                assert_eq!(body.body, data);
                assert_eq!(body.consumed, consumed);
            }
            (Ok(None), Ok(StreamingChunk::NeedMore)) => {}
            (Err(left), Err(right)) => assert_eq!(left, right),
            (left, right) => panic!("{left:?} against {right:?}"),
        }
    }
}

#[test]
fn reads_chunk_sizes() {
    let size = |line: &str| {
        let mut wire = line.as_bytes().to_vec();
        wire.extend_from_slice(b"\r\n0123456789abcdef\r\n0\r\n\r\n");
        decode(&wire, Limits::new())
            .map(|body| body.map(|body| body.body.len()))
            .map_err(|error| error.status)
    };
    assert_eq!(size("10"), Ok(Some(16)));
    assert_eq!(size("0010"), Ok(Some(16)));
    assert_eq!(size(" 10\t;a=b;c"), Ok(Some(16)));
    assert_eq!(size("\u{a0}10\u{3000}"), Ok(Some(16)));
    assert_eq!(size("11"), Err(400));
    assert_eq!(size("-10"), Err(400));
    assert_eq!(size("+10"), Err(400));
    assert_eq!(size("0x10"), Err(400));
    assert_eq!(size(";10"), Err(400));
    assert_eq!(size("1 0"), Err(400));
    assert_eq!(size(""), Err(400));
}

#[test]
fn rejects_malformed_chunks() {
    assert_eq!(decode_status(b"g\r\n"), 400);
    assert_eq!(decode_status(b"1\r\nab\r\n"), 400);
    assert_eq!(decode_status(b"1;\xff\r\n"), 400);
    let huge = Limits::new().with_max_body_bytes(usize::MAX);
    assert_eq!(
        decode(b"FFFFFFFFFFFFFFFF\r\n", huge)
            .expect_err("cannot end")
            .status,
        400
    );
}

#[test]
fn rejects_malformed_trailers() {
    for section in ["no colon", ": empty name", "na me: v", "a: \u{7f}"] {
        let wire = format!("0\r\n{section}\r\n\r\n");
        assert_eq!(decode_status(wire.as_bytes()), 400, "{section:?}");
    }
    let body = decode(b"0\r\na:\r\nb: caf\xc3\xa9\t!\r\n\r\n", Limits::new());
    assert!(body.expect("valid").is_some());
    assert_eq!(decode_status(b"0\r\na: \xff\r\n\r\n"), 400);
}

#[test]
fn limits_the_body() {
    let limits = Limits::new().with_max_body_bytes(5);
    let body = decode(b"2\r\nab\r\n3\r\ncde\r\n0\r\n\r\n", limits);
    assert_eq!(body.expect("fits").expect("complete").body, b"abcde");
    let error = decode(b"2\r\nab\r\n4\r\n", limits).expect_err("too long");
    assert_eq!(error.status, 413);
    assert_eq!(error.code, "payload_too_large");
    assert_eq!(error.message, "request body exceeds the configured limit");
    let mut decoder = StreamingChunkDecoder::new(0, limits);
    let mut data = Vec::new();
    let streamed = drain(&mut decoder, b"2\r\nab\r\n4\r\n", &mut data);
    assert_eq!(streamed, Err(error));
    assert_eq!(data, b"ab");
    assert_eq!(decoder.body_bytes(), 2);
    let none = Limits::new().with_max_body_bytes(0);
    assert!(decode(b"0\r\n\r\n", none).expect("empty").is_some());
}

#[test]
fn limits_the_number_of_chunks() {
    let limits = Limits::new().with_max_chunks(2);
    let fits = b"1\r\na\r\n1\r\nb\r\n0\r\n\r\n";
    assert_eq!(
        decode(fits, limits).expect("fits").expect("complete").body,
        b"ab"
    );
    let wire = b"1\r\na\r\n1\r\nb\r\n1\r\nc\r\n0\r\n\r\n";
    let error = decode(wire, limits).expect_err("too many");
    assert_eq!(error.status, 413);
    assert_eq!(error.code, "too_many_chunks");
    assert_eq!(error.message, "chunk count exceeds the configured limit");
    let mut decoder = StreamingChunkDecoder::new(0, limits);
    let mut data = Vec::new();
    assert_eq!(drain(&mut decoder, wire, &mut data), Err(error));
    assert_eq!(data, b"ab");
    assert_eq!(decoder.body_bytes(), 3);
}

#[test]
fn limits_size_lines_and_trailers() {
    let limits = Limits::new().with_max_header_bytes(8);
    assert_eq!(decode(b"1;234567", limits), Ok(None));
    assert_eq!(
        decode(b"1;2345678", limits).expect_err("too long").status,
        400
    );
    assert_eq!(decode(b"0\r\na: 45678", limits), Ok(None));
    assert_eq!(
        decode(b"0\r\na: 456789", limits).expect_err("too long").status,
        431
    );
    assert!(decode(b"0\r\na: 45678\r\n\r\n", limits)
        .expect("fits")
        .is_some());
    assert_eq!(
        decode(b"0\r\na: 456789\r\n\r\n", limits)
            .expect_err("too long")
            .status,
        431
    );
}

#[test]
fn decoder_starts_behind_the_buffer() {
    assert_eq!(ChunkDecoder::new(9, Limits::new()).advance(b"0\r\n"), Ok(None));
    assert_eq!(
        StreamingChunkDecoder::new(9, Limits::new()).advance(b"0\r\n"),
        Ok(StreamingChunk::NeedMore)
    );
}
