//! Laws of the mathematical values that contracts speak of: they say of a value
//! what a caller sees in it.

use crate::chunk::{Decoded, DecodedChunkedBody};
use crate::error;
use crate::error::{ParseError, Rejection};
use crate::field::Field;
use crate::head::RequestHead;
use crate::limits::{Bounds, MAX_HEADER_CAPACITY};
use crate::position::ByteRange;
use crate::response;
use crate::scan::{HeadScan, ScannedHead};
use crate::stream;
use crate::stream::{Event, StreamingChunk};
use vstd::prelude::*;
use vstd::string::StringSliceAdditionalSpecFns;

verus! {

/// A rejection is the status, the code, and the message of its error.
pub proof fn errors_say_what_they_hold(parse_error: ParseError)
    ensures
        parse_error@.status == parse_error.status,
        parse_error@.code == parse_error.code@,
        parse_error@.message == parse_error.message@,
{
}

/// Each rejection has its own status, code, and message.
pub proof fn rejections_are_worded()
    ensures
        Rejection::bad_request() == (Rejection {
            status: 400,
            code: "bad_request"@,
            message: "invalid HTTP/1 request"@,
        }),
        Rejection::method_not_allowed() == (Rejection {
            status: 405,
            code: "method_not_allowed"@,
            message: "HTTP method is not supported by this build"@,
        }),
        Rejection::payload_too_large() == (Rejection {
            status: 413,
            code: "payload_too_large"@,
            message: "request body exceeds the configured limit"@,
        }),
        Rejection::too_many_chunks() == (Rejection {
            status: 413,
            code: "too_many_chunks"@,
            message: "chunk count exceeds the configured limit"@,
        }),
        Rejection::headers_too_large() == (Rejection {
            status: 431,
            code: "request_header_too_large"@,
            message: "request headers exceed the configured limit"@,
        }),
        Rejection::unsupported_transfer_encoding() == (Rejection {
            status: 501,
            code: "unsupported_transfer_encoding"@,
            message: "only chunked transfer encoding is supported"@,
        }),
{
}

/// The limits that hold where none are set: heads of 32 KiB with 64 headers, and
/// bodies of 1 MiB in 8192 chunks. They can be raised to 128 headers.
pub proof fn standard_limits()
    ensures
        Bounds::standard().header_bytes == 32768,
        Bounds::standard().headers == 64,
        Bounds::standard().body_bytes == 1048576,
        Bounds::standard().chunks == 8192,
        MAX_HEADER_CAPACITY == 128,
{
}

/// A decoded body is the bytes collected and the offset where they end.
pub proof fn bodies_are_their_bytes(decoded: DecodedChunkedBody)
    ensures
        decoded@.consumed == decoded.consumed,
        decoded@.body == decoded.body@,
{
}

/// A parsing result is the value, that there is none yet, or the error.
pub proof fn results_are_told_apart(decoded: DecodedChunkedBody, parse_error: ParseError)
    ensures
        error::parsed::<DecodedChunkedBody>(Ok(Some(decoded))) == Result::<
            Option<Decoded>,
            Rejection,
        >::Ok(Some(decoded@)),
        error::parsed::<DecodedChunkedBody>(Ok(None)) == Result::<Option<Decoded>, Rejection>::Ok(
            None,
        ),
        error::parsed::<DecodedChunkedBody>(Err(parse_error)) == Result::<
            Option<Decoded>,
            Rejection,
        >::Err(parse_error@),
{
}

/// A head has the fields of its mathematical value.
pub proof fn heads_are_their_fields(head: RequestHead)
    ensures
        head@.method == head.method,
        head@.target == head.target,
        head@.headers == head.headers@,
        head@.head_bytes == head.head_bytes,
        head@.body == head.body,
        head@.keep_alive == head.keep_alive,
        error::parsed::<RequestHead>(Ok(Some(head)))->Ok_0 == Some(head@),
{
}

/// Events are told apart, and hold the offsets of the buffer.
pub proof fn events_hold_offsets(range: ByteRange, end: usize, parse_error: ParseError)
    ensures
        StreamingChunk::NeedMore@ == Event::NeedMore,
        StreamingChunk::Data(range)@ == (Event::Data {
            start: range.start as nat,
            end: range.end as nat,
        }),
        (StreamingChunk::Complete { consumed: end })@ == (Event::Complete {
            consumed: end as nat,
        }),
        stream::report(Ok(StreamingChunk::Data(range))) == Result::<Event, Rejection>::Ok(
            StreamingChunk::Data(range)@,
        ),
        stream::report(Err(parse_error)) == Result::<Event, Rejection>::Err(parse_error@),
{
}

/// The parts of a split stand as far behind its origin as their addresses say, and
/// the headers keep their order.
pub proof fn parts_stand_at_their_addresses(head: ScannedHead, i: int)
    ensures
        head@.head_bytes == head.head_bytes,
        head@.version == head.version,
        head@.method is Some <==> head.method is Some,
        head.method matches Some(method) ==> head@.method == Some(method@),
        head@.path is Some <==> head.path is Some,
        head.path matches Some(path) ==> {
            &&& head@.path->0.start == path.address - head.origin
            &&& head@.path->0.len == path.len
        },
        head@.headers.len() == head.headers@.len(),
        0 <= i < head.headers@.len() ==> {
            &&& head@.headers[i].name.start == head.headers@[i].name.address - head.origin
            &&& head@.headers[i].name.len == head.headers@[i].name.len
            &&& head@.headers[i].value.start == head.headers@[i].value.address - head.origin
            &&& head@.headers[i].value.len == head.headers@[i].value.len
        },
        HeadScan::Complete(head)@ == crate::scan::Scan::Complete(head@),
        HeadScan::Partial@ is Partial,
        HeadScan::TooManyHeaders@ is TooManyHeaders,
        HeadScan::Malformed@ is Malformed,
{
}

/// The headers of a response are its names and values, in their order.
pub proof fn response_headers_keep_their_order(headers: Seq<(&str, &str)>, i: int)
    ensures
        response::fields_of(headers).len() == headers.len(),
        0 <= i < headers.len() ==> response::fields_of(headers)[i] == (Field {
            name: headers[i].0.spec_bytes(),
            value: headers[i].1.spec_bytes(),
        }),
{
}

} // verus!
