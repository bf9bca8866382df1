//! Request heads: which part is what, how the body is framed, and whether the
//! connection stays open.

use crate::bytes;
use crate::error;
use crate::error::{ParseError, Rejection};
use crate::field;
use crate::field::Field;
use crate::laws;
use crate::limits::{Bounds, Limits};
use crate::method::Method;
use crate::number;
use crate::position::{ByteRange, HeaderPosition, HeaderPositions, INLINE_REQUEST_HEADERS};
use crate::scan;
use crate::scan::{Extent, HeadParts, HeadScan, HeaderExtent, Scan, ScannedHead, Span};
use crate::text;
use vstd::prelude::*;
use vstd::slice::slice_subrange;
use vstd::string::StringSliceAdditionalSpecFns;

verus! {

/// Request body framing selected from validated HTTP/1 headers.
#[derive(Clone, Copy, Debug, Eq, PartialEq, Structural)]
pub enum BodyFraming {
    ContentLength(usize),
    Chunked,
}

/// Parsed request head borrowing all text through byte ranges.
#[derive(Debug)]
pub struct RequestHead {
    pub method: Method,
    pub target: ByteRange,
    pub headers: HeaderPositions,
    pub head_bytes: usize,
    pub body: BodyFraming,
    pub keep_alive: bool,
}

/// A request head as a mathematical value.
#[verifier::ext_equal]
pub struct Head {
    pub method: Method,
    pub target: ByteRange,
    pub headers: Seq<HeaderPosition>,
    pub head_bytes: nat,
    pub body: BodyFraming,
    pub keep_alive: bool,
}

impl View for RequestHead {
    type V = Head;

    open spec fn view(&self) -> Head {
        Head {
            method: self.method,
            target: self.target,
            headers: self.headers@,
            head_bytes: self.head_bytes as nat,
            body: self.body,
            keep_alive: self.keep_alive,
        }
    }
}

impl Clone for RequestHead {
    fn clone(&self) -> (copy: Self)
        ensures
            copy@ == self@,
    {
        RequestHead { headers: self.headers.clone(), ..*self }
    }
}

/// The length that the value of a content-length header gives.
pub open spec fn content_length(value: Seq<u8>) -> Option<nat> {
    if vstd::utf8::valid_utf8(value) {
        number::number(text::trimmed(value), 10)
    } else {
        None
    }
}

/// There is a content-length header.
pub open spec fn declares_length(fields: Seq<Field>) -> bool {
    exists|i: int|
        0 <= i < fields.len() && (#[trigger] fields[i]).is_named(field::content_length_name())
}

/// Every content-length header gives the length `length`.
pub open spec fn lengths_are(fields: Seq<Field>, length: nat) -> bool {
    forall|i: int|
        0 <= i < fields.len() && (#[trigger] fields[i]).is_named(field::content_length_name())
            ==> content_length(fields[i].value) == Some(length)
}

/// The values of headers that are read as text are text.
pub open spec fn lists_are_text(fields: Seq<Field>) -> bool {
    forall|i: int|
        0 <= i < fields.len() && ((#[trigger] fields[i]).is_named(field::transfer_encoding_name())
            || fields[i].is_named(field::connection_name())) ==> vstd::utf8::valid_utf8(
            fields[i].value,
        )
}

/// The transfer codings in the value of a transfer-encoding header.
pub open spec fn listed_codings(value: Seq<u8>) -> Seq<Seq<u8>> {
    text::list_elements(value).filter(|coding: Seq<u8>| coding.len() > 0)
}

/// The transfer codings of a request, in their order.
pub open spec fn codings(fields: Seq<Field>) -> Seq<Seq<u8>>
    decreases fields.len(),
{
    if fields.len() == 0 {
        Seq::empty()
    } else {
        let last = fields.last();
        codings(fields.drop_last()) + if last.is_named(field::transfer_encoding_name()) {
            listed_codings(last.value)
        } else {
            Seq::empty()
        }
    }
}

/// `count`, or two where it is larger.
pub open spec fn capped(count: nat) -> nat {
    if count > 2 {
        2
    } else {
        count
    }
}

/// The first of the codings is `chunked`.
pub open spec fn starts_chunked(found: Seq<Seq<u8>>) -> bool {
    found.len() > 0 && bytes::same_ignoring_case(found[0], "chunked".spec_bytes())
}

/// A connection header lists `option`.
pub open spec fn has_connection_option(fields: Seq<Field>, option: Seq<u8>) -> bool {
    exists|i: int|
        0 <= i < fields.len() && (#[trigger] fields[i]).is_named(field::connection_name())
            && text::lists(fields[i].value, option)
}

/// How the body of a request with these headers is framed: by one content
/// length, by the chunked transfer coding alone, or not at all.
pub open spec fn framing(fields: Seq<Field>) -> Result<BodyFraming, Rejection> {
    let found = codings(fields);
    if !lists_are_text(fields) || !(exists|length: nat| lengths_are(fields, length)) {
        Err(Rejection::bad_request())
    } else if found.len() > 0 && declares_length(fields) {
        Err(Rejection::bad_request())
    } else if found.len() == 0 {
        if declares_length(fields) {
            Ok(
                BodyFraming::ContentLength(
                    (choose|length: nat| lengths_are(fields, length)) as usize,
                ),
            )
        } else {
            Ok(BodyFraming::ContentLength(0))
        }
    } else if found.len() == 1 && starts_chunked(found) {
        Ok(BodyFraming::Chunked)
    } else {
        Err(Rejection::unsupported_transfer_encoding())
    }
}

/// Whether the connection stays open behind a request of HTTP/1.`version`: from
/// HTTP/1.1 on unless it says `close`, before only if it says `keep-alive`.
pub open spec fn keeps_alive(fields: Seq<Field>, version: u8) -> bool {
    &&& !has_connection_option(fields, "close".spec_bytes())
    &&& version == 1 || has_connection_option(fields, "keep-alive".spec_bytes())
}

/// The range of a part.
pub open spec fn range_of(extent: Extent) -> ByteRange {
    ByteRange { start: extent.start as usize, end: (extent.start + extent.len) as usize }
}

/// The positions of headers.
pub open spec fn positions(headers: Seq<HeaderExtent>) -> Seq<HeaderPosition> {
    headers.map_values(
        |header: HeaderExtent|
            HeaderPosition { name: range_of(header.name), value: range_of(header.value) },
    )
}

/// The headers by their names and values.
pub open spec fn fields(buffer: Seq<u8>, headers: Seq<HeaderExtent>) -> Seq<Field> {
    headers.map_values(
        |header: HeaderExtent|
            Field { name: header.name.bytes_in(buffer), value: header.value.bytes_in(buffer) },
    )
}

/// All names and values lie in the buffer.
pub open spec fn headers_within(headers: Seq<HeaderExtent>, len: nat) -> bool {
    forall|i: int|
        0 <= i < headers.len() ==> (#[trigger] headers[i]).name.within(len)
            && headers[i].value.within(len)
}

/// The request head that the parts of a head make up.
pub open spec fn assembled(buffer: Seq<u8>, bounds: Bounds, parts: HeadParts) -> Result<
    Option<Head>,
    Rejection,
> {
    if parts.head_bytes > bounds.header_bytes {
        Err(Rejection::headers_too_large())
    } else {
        match parts.method {
            None => Err(Rejection::bad_request()),
            Some(token) => match Method::named(token) {
                None => Err(Rejection::method_not_allowed()),
                Some(method) => assembled_as(buffer, bounds, parts, method),
            },
        }
    }
}

/// The request head with the method `method` that the parts of a head make up.
pub open spec fn assembled_as(
    buffer: Seq<u8>,
    bounds: Bounds,
    parts: HeadParts,
    method: Method,
) -> Result<Option<Head>, Rejection> {
    match (parts.path, parts.version) {
        (Some(path), Some(version)) if path.within(buffer.len()) && headers_within(
            parts.headers,
            buffer.len(),
        ) => match framing(fields(buffer, parts.headers)) {
            Err(rejection) => Err(rejection),
            Ok(BodyFraming::ContentLength(length)) if length > bounds.body_bytes => Err(
                Rejection::payload_too_large(),
            ),
            Ok(body) => Ok(
                Some(
                    Head {
                        method,
                        target: range_of(path),
                        headers: positions(parts.headers),
                        head_bytes: parts.head_bytes,
                        body,
                        keep_alive: keeps_alive(fields(buffer, parts.headers), version),
                    },
                ),
            ),
        },
        _ => Err(Rejection::bad_request()),
    }
}

/// The request head at the start of `buffer`, as its split tells.
pub open spec fn head_of(buffer: Seq<u8>, bounds: Bounds, scan: Scan) -> Result<
    Option<Head>,
    Rejection,
> {
    match scan {
        Scan::Complete(parts) => assembled(buffer, bounds, parts),
        Scan::Partial => if buffer.len() > bounds.header_bytes {
            Err(Rejection::headers_too_large())
        } else {
            Ok(None)
        },
        Scan::TooManyHeaders => Err(Rejection::headers_too_large()),
        Scan::Malformed => Err(Rejection::bad_request()),
    }
}

impl Head {
    /// The head and its parts lie in the buffer and are within the configured
    /// limits, the target is text, and each header has a valid name in front of
    /// its value.
    pub open spec fn lies_in(self, buffer: Seq<u8>, bounds: Bounds) -> bool {
        &&& 0 < self.head_bytes <= buffer.len()
        &&& self.head_bytes <= bounds.header_bytes
        &&& self.headers.len() <= bounds.headers
        &&& self.body matches BodyFraming::ContentLength(length) ==> length <= bounds.body_bytes
        &&& self.target.start <= self.target.end <= self.head_bytes
        &&& self.target.text_in(buffer) is Some
        &&& forall|i: int|
            0 <= i < self.headers.len() ==> {
                let header = #[trigger] self.headers[i];
                &&& header.name.start < header.name.end < header.value.start
                &&& header.value.start <= header.value.end <= self.head_bytes
                &&& header.name.text_in(buffer) matches Some(name) && field::is_name(name)
            }
    }
}

/// The codings of each transfer-encoding header are codings of the request.
proof fn lemma_codings_add_up(fields: Seq<Field>, i: int)
    requires
        0 <= i < fields.len(),
        fields[i].is_named(field::transfer_encoding_name()),
    ensures
        codings(fields).len() >= listed_codings(fields[i].value).len(),
    decreases fields.len(),
{
    if i < fields.len() - 1 {
        lemma_codings_add_up(fields.drop_last(), i);
    }
}

/// A length in decimal, as it is written in a head, is read back.
pub proof fn written_lengths_read_back(length: nat)
    requires
        length <= usize::MAX,
    ensures
        content_length(number::numeral(length, 10)) == Some(length),
{
    let value = number::numeral(length, 10);
    number::lemma_numeral_digits(length, 10);
    number::numeral_reads_back(length, 10);
    text::lemma_ascii_is_utf8(value);
}

/// A request that declares both a length and a transfer coding is rejected.
pub proof fn length_and_coding_conflict(fields: Seq<Field>, length: int, coding: int)
    requires
        0 <= length < fields.len(),
        fields[length].is_named(field::content_length_name()),
        0 <= coding < fields.len(),
        fields[coding].is_named(field::transfer_encoding_name()),
        listed_codings(fields[coding].value).len() > 0,
    ensures
        framing(fields) == Result::<BodyFraming, Rejection>::Err(Rejection::bad_request()),
{
    lemma_codings_add_up(fields, coding);
}

/// A request whose content-length headers differ is rejected.
pub proof fn differing_lengths_conflict(fields: Seq<Field>, i: int, j: int)
    requires
        0 <= i < fields.len(),
        fields[i].is_named(field::content_length_name()),
        0 <= j < fields.len(),
        fields[j].is_named(field::content_length_name()),
        content_length(fields[i].value) != content_length(fields[j].value),
    ensures
        framing(fields) == Result::<BodyFraming, Rejection>::Err(Rejection::bad_request()),
{
}

/// A request without a content length whose transfer codings are more than one
/// is rejected as unsupported, also where one of them is `chunked`.
pub proof fn several_codings_are_unsupported(fields: Seq<Field>)
    requires
        lists_are_text(fields),
        !declares_length(fields),
        codings(fields).len() > 1,
    ensures
        framing(fields) == Result::<BodyFraming, Rejection>::Err(
            Rejection::unsupported_transfer_encoding(),
        ),
{
    assert(lengths_are(fields, 0));
}

/// A request without framing headers has no body.
pub proof fn unframed_request_has_no_body(fields: Seq<Field>)
    requires
        lists_are_text(fields),
        !declares_length(fields),
        forall|i: int|
            0 <= i < fields.len() ==> !(#[trigger] fields[i]).is_named(
                field::transfer_encoding_name(),
            ),
    ensures
        framing(fields) == Result::<BodyFraming, Rejection>::Ok(BodyFraming::ContentLength(0)),
{
    assert(lengths_are(fields, 0));
    lemma_no_codings(fields);
}

proof fn lemma_no_codings(fields: Seq<Field>)
    requires
        forall|i: int|
            0 <= i < fields.len() ==> !(#[trigger] fields[i]).is_named(
                field::transfer_encoding_name(),
            ),
    ensures
        codings(fields).len() == 0,
    decreases fields.len(),
{
    if fields.len() > 0 {
        lemma_no_codings(fields.drop_last());
    }
}

/// The parser asks for more bytes only while the buffer is within the limit for
/// heads.
pub proof fn waiting_is_bounded(buffer: Seq<u8>, bounds: Bounds, scan: Scan)
    requires
        head_of(buffer, bounds, scan) == Result::<Option<Head>, Rejection>::Ok(None),
    ensures
        buffer.len() <= bounds.header_bytes,
{
}

/// Only the bytes of a head decide what is made of its parts.
proof fn lemma_only_the_head_matters(
    buffer: Seq<u8>,
    bounds: Bounds,
    parts: HeadParts,
    room: nat,
)
    requires
        scan::is_split(parts, buffer, room),
    ensures
        forall|other: Seq<u8>|
            buffer.take(parts.head_bytes as int).is_prefix_of(other) ==> #[trigger] assembled(
                other,
                bounds,
                parts,
            ) == assembled(buffer, bounds, parts),
{
    let head = buffer.take(parts.head_bytes as int);
    assert forall|other: Seq<u8>| head.is_prefix_of(other) implies #[trigger] assembled(
        other,
        bounds,
        parts,
    ) == assembled(buffer, bounds, parts) by {
        assert forall|i: int| 0 <= i < head.len() implies other[i] == buffer[i] by {
            assert(head[i] == other[i]);
        }
        assert forall|i: int| 0 <= i < parts.headers.len() implies {
            &&& (#[trigger] parts.headers[i]).name.bytes_in(other)
                == parts.headers[i].name.bytes_in(buffer)
            &&& parts.headers[i].value.bytes_in(other) == parts.headers[i].value.bytes_in(buffer)
        } by {
            let header = parts.headers[i];
            assert(header.name.bytes_in(other) =~= header.name.bytes_in(buffer));
            assert(header.value.bytes_in(other) =~= header.value.bytes_in(buffer));
        }
        assert(fields(other, parts.headers) =~= fields(buffer, parts.headers));
        assert(headers_within(parts.headers, other.len()));
        assert(headers_within(parts.headers, buffer.len()));
    }
}

/// A request head made of the parts of a head lies in it.
proof fn lemma_head_lies_in(buffer: Seq<u8>, bounds: Bounds, parts: HeadParts, room: nat)
    requires
        scan::is_split(parts, buffer, room),
        room <= bounds.headers,
        buffer.len() <= usize::MAX,
    ensures
        assembled(buffer, bounds, parts) matches Ok(Some(head)) ==> head.lies_in(buffer, bounds),
{
    if let Ok(Some(head)) = assembled(buffer, bounds, parts) {
        assert forall|i: int| 0 <= i < head.headers.len() implies {
            let header = #[trigger] head.headers[i];
            &&& header.name.start < header.name.end < header.value.start
            &&& header.value.start <= header.value.end <= head.head_bytes
            &&& header.name.text_in(buffer) matches Some(name) && field::is_name(name)
        } by {
            let extent = parts.headers[i];
            text::lemma_ascii_is_utf8(extent.name.bytes_in(buffer));
        }
    }
}

/// Places a part in the buffer that starts at address `origin`.
///
/// # Errors
///
/// Returns a bad-request rejection for a part that lies elsewhere.
fn byte_range(buffer: &[u8], origin: usize, part: Span) -> (range: Result<ByteRange, ParseError>)
    ensures
        match range {
            Ok(range) => {
                &&& part.extent(origin).within(buffer@.len())
                &&& range == range_of(part.extent(origin))
                &&& range.start <= range.end <= buffer@.len()
                &&& buffer@.subrange(range.start as int, range.end as int) == part.extent(
                    origin,
                ).bytes_in(buffer@)
            },
            Err(error) => {
                &&& !part.extent(origin).within(buffer@.len())
                &&& error@ == Rejection::bad_request()
            },
        },
{
    let received = buffer.len();
    if part.address < origin {
        return Err(ParseError::bad_request());
    }
    let start = part.address - origin;
    match start.checked_add(part.len) {
        Some(end) if end <= received => Ok(ByteRange { start, end }),
        _ => Err(ParseError::bad_request()),
    }
}

/// Reads the value of a content-length header.
///
/// # Errors
///
/// Returns a bad-request rejection for anything but a number.
pub fn parse_content_length(value: &[u8]) -> (length: Result<usize, ParseError>)
    ensures
        match length {
            Ok(length) => content_length(value@) == Some(length as nat),
            Err(error) => content_length(value@) is None && error@ == Rejection::bad_request(),
        },
{
    if text::utf8_text(value).is_none() {
        return Err(ParseError::bad_request());
    }
    match number::parse_number(text::trim(value), 10) {
        Some(length) => Ok(length),
        None => Err(ParseError::bad_request()),
    }
}

/// Reads the value of a transfer-encoding header: how many codings it lists, any
/// number above one given as two, and whether the first of them is `chunked`.
fn read_codings(value: &[u8]) -> (found: (usize, bool))
    ensures
        found.0 == capped(listed_codings(value@).len()),
        found.1 == starts_chunked(listed_codings(value@)),
{
    let elements = text::split_list(value);
    let ghost listed = text::list_elements(value@);
    let ghost nonempty = |coding: Seq<u8>| coding.len() > 0;
    let mut count: usize = 0;
    let mut chunked = false;
    proof {
        reveal(Seq::filter);
    }
    for i in 0..elements.len()
        invariant
            elements@.len() == listed.len(),
            forall|j: int| 0 <= j < listed.len() ==> (#[trigger] elements@[j])@ == listed[j],
            nonempty == (|coding: Seq<u8>| coding.len() > 0),
            count == capped(listed.take(i as int).filter(nonempty).len()),
            chunked == starts_chunked(listed.take(i as int).filter(nonempty)),
    {
        proof {
            reveal(Seq::filter);
            assert(listed.take(i + 1).drop_last() =~= listed.take(i as int));
        }
        let element = elements[i];
        if element.len() > 0 {
            if count == 0 {
                chunked = bytes::eq_ignore_ascii_case(element, "chunked".as_bytes());
            }
            if count < 2 {
                count = count + 1;
            }
        }
    }
    assert(listed.take(listed.len() as int) =~= listed);
    (count, chunked)
}

/// One more header adds to what a request declares.
proof fn lemma_one_more_field(seen: Seq<Field>, field: Field)
    ensures
        declares_length(seen.push(field)) == (declares_length(seen) || field.is_named(
            field::content_length_name(),
        )),
        forall|length: nat| #[trigger]
            lengths_are(seen.push(field), length) == (lengths_are(seen, length) && (field.is_named(
                field::content_length_name(),
            ) ==> content_length(field.value) == Some(length))),
        lists_are_text(seen.push(field)) == (lists_are_text(seen) && (field.is_named(
            field::transfer_encoding_name(),
        ) || field.is_named(field::connection_name()) ==> vstd::utf8::valid_utf8(field.value))),
        codings(seen.push(field)) == codings(seen) + (if field.is_named(
            field::transfer_encoding_name(),
        ) {
            listed_codings(field.value)
        } else {
            Seq::empty()
        }),
        forall|option: Seq<u8>| #[trigger]
            has_connection_option(seen.push(field), option) == (has_connection_option(seen, option)
                || field.is_named(field::connection_name()) && text::lists(field.value, option)),
{
    let more = seen.push(field);
    assert(more.drop_last() =~= seen);
    assert(forall|i: int| 0 <= i < seen.len() ==> #[trigger] more[i] == seen[i]);
    assert(more[seen.len() as int] == field);
    assert forall|i: int| 0 <= i < seen.len() implies #[trigger] seen[i] == more[i] by {}
    assert forall|option: Seq<u8>| #[trigger]
        has_connection_option(more, option) == (has_connection_option(seen, option)
            || field.is_named(field::connection_name()) && text::lists(field.value, option)) by {
        if has_connection_option(seen, option) {
            let i = choose|i: int|
                0 <= i < seen.len() && (#[trigger] seen[i]).is_named(field::connection_name())
                    && text::lists(seen[i].value, option);
            assert(more[i].is_named(field::connection_name()));
        }
    }
    if declares_length(seen) {
        let i = choose|i: int|
            0 <= i < seen.len() && (#[trigger] seen[i]).is_named(field::content_length_name());
        assert(more[i].is_named(field::content_length_name()));
    }
}

/// What the headers of a request declare.
#[derive(Clone, Copy)]
struct Declared {
    content_length: Option<usize>,
    codings: usize,
    chunked: bool,
    close: bool,
    keep_alive: bool,
}

impl Declared {
    spec fn sums_up(self, fields: Seq<Field>) -> bool {
        &&& lists_are_text(fields)
        &&& match self.content_length {
            Some(length) => declares_length(fields) && lengths_are(fields, length as nat),
            None => !declares_length(fields),
        }
        &&& self.codings == capped(codings(fields).len())
        &&& self.chunked == starts_chunked(codings(fields))
        &&& self.close == has_connection_option(fields, "close".spec_bytes())
        &&& self.keep_alive == has_connection_option(fields, "keep-alive".spec_bytes())
    }

    /// Takes one more header into account.
    ///
    /// # Errors
    ///
    /// Returns a bad-request rejection for a length that is no number or not the
    /// one given before, and for a list that is no text.
    fn add_field(self, name: &[u8], value: &[u8], Ghost(seen): Ghost<Seq<Field>>) -> (next: Result<
        Declared,
        ParseError,
    >)
        requires
            self.sums_up(seen),
        ensures
            ({
                let more = seen.push(Field { name: name@, value: value@ });
                match next {
                    Ok(next) => next.sums_up(more),
                    Err(error) => {
                        &&& error@ == Rejection::bad_request()
                        &&& !lists_are_text(more) || forall|length: nat| !lengths_are(more, length)
                    },
                }
            }),
    {
        let ghost field = Field { name: name@, value: value@ };
        let mut next = self;
        proof {
            lemma_one_more_field(seen, field);
            lemma_framing_names_differ(name@);
            assert(codings(seen) + Seq::<Seq<u8>>::empty() =~= codings(seen));
        }
        if bytes::eq_ignore_ascii_case(name, "content-length".as_bytes()) {
            let length = match parse_content_length(value) {
                Err(error) => return Err(error),
                Ok(length) => length,
            };
            if let Some(previous) = self.content_length {
                if previous != length {
                    assert forall|other: nat| !lengths_are(seen.push(field), other) by {
                        let i = choose|i: int|
                            0 <= i < seen.len() && (#[trigger] seen[i]).is_named(
                                field::content_length_name(),
                            );
                        assert(content_length(seen[i].value) == Some(previous as nat));
                    }
                    return Err(ParseError::bad_request());
                }
            }
            next.content_length = Some(length);
        } else if bytes::eq_ignore_ascii_case(name, "transfer-encoding".as_bytes()) {
            if text::utf8_text(value).is_none() {
                return Err(ParseError::bad_request());
            }
            let (count, chunked) = read_codings(value);
            if self.codings == 0 {
                next.codings = count;
                next.chunked = chunked;
            } else if count > 0 {
                next.codings = 2;
            }
            proof {
                let found = codings(seen);
                let more = listed_codings(value@);
                if found.len() == 0 {
                    assert(found + more =~= more);
                } else {
                    assert((found + more)[0] == found[0]);
                }
            }
        } else if bytes::eq_ignore_ascii_case(name, "connection".as_bytes()) {
            if text::utf8_text(value).is_none() {
                return Err(ParseError::bad_request());
            }
            next.close = self.close || text::has_element(value, "close".as_bytes());
            next.keep_alive = self.keep_alive || text::has_element(value, "keep-alive".as_bytes());
        }
        Ok(next)
    }

    /// How the body is framed.
    ///
    /// # Errors
    ///
    /// Returns a bad-request rejection where both a length and transfer codings
    /// are declared, and an unsupported-transfer-encoding rejection for any other
    /// coding than `chunked` alone.
    fn framing(&self, Ghost(seen): Ghost<Seq<Field>>) -> (body: Result<BodyFraming, ParseError>)
        requires
            self.sums_up(seen),
        ensures
            match body {
                Ok(body) => framing(seen) == Result::<BodyFraming, Rejection>::Ok(body),
                Err(error) => framing(seen) == Result::<BodyFraming, Rejection>::Err(error@),
            },
    {
        proof {
            match self.content_length {
                Some(length) => {
                    assert(lengths_are(seen, length as nat));
                    let i = choose|i: int|
                        0 <= i < seen.len() && (#[trigger] seen[i]).is_named(
                            field::content_length_name(),
                        );
                    assert(content_length(seen[i].value) == Some(length as nat));
                },
                None => {
                    assert(lengths_are(seen, 0));
                },
            }
        }
        if self.codings > 0 && self.content_length.is_some() {
            return Err(ParseError::bad_request());
        }
        if self.codings == 0 {
            match self.content_length {
                Some(length) => Ok(BodyFraming::ContentLength(length)),
                None => Ok(BodyFraming::ContentLength(0)),
            }
        } else if self.codings == 1 && self.chunked {
            Ok(BodyFraming::Chunked)
        } else {
            Err(ParseError::unsupported_transfer_encoding())
        }
    }
}

/// No header name counts as two of the three names that frame a body or rule
/// the connection.
proof fn lemma_framing_names_differ(name: Seq<u8>)
    ensures
        bytes::same_ignoring_case(name, field::content_length_name()) ==> name.len() == 14,
        bytes::same_ignoring_case(name, field::transfer_encoding_name()) ==> name.len() == 17,
        bytes::same_ignoring_case(name, field::connection_name()) ==> name.len() == 10,
{
    reveal_strlit("content-length");
    reveal_strlit("transfer-encoding");
    reveal_strlit("connection");
    vstd::utf8::is_ascii_chars_encode_utf8("content-length"@);
    vstd::utf8::is_ascii_chars_encode_utf8("transfer-encoding"@);
    vstd::utf8::is_ascii_chars_encode_utf8("connection"@);
}

/// What the first headers of a request declare does not contradict what all of
/// them declare.
proof fn lemma_prefix_declares(all: Seq<Field>, count: int)
    requires
        0 <= count <= all.len(),
    ensures
        lists_are_text(all) ==> lists_are_text(all.take(count)),
        forall|length: nat| #[trigger] lengths_are(all, length) ==> lengths_are(
            all.take(count),
            length,
        ),
{
    assert forall|i: int| 0 <= i < count implies #[trigger] all.take(count)[i] == all[i] by {}
}

/// Assembles a request head from its parts.
///
/// # Errors
///
/// Returns a rejection for oversized heads, unknown methods, parts that are
/// missing or lie elsewhere, invalid or unsupported framing, and a declared body
/// length above the limit.
fn assemble(buffer: &[u8], limits: Limits, parts: ScannedHead<'_>) -> (head: Result<
    Option<RequestHead>,
    ParseError,
>)
    ensures
        error::parsed(head) == assembled(buffer@, limits@, parts@),
{
    if parts.head_bytes > limits.header_bytes() {
        return Err(ParseError::headers_too_large());
    }
    let method = match parts.method {
        None => return Err(ParseError::bad_request()),
        Some(token) => match Method::parse(token) {
            Err(error) => return Err(error),
            Ok(method) => method,
        },
    };
    let (path, version) = match (parts.path, parts.version) {
        (Some(path), Some(version)) => (path, version),
        _ => return Err(ParseError::bad_request()),
    };
    let target = match byte_range(buffer, parts.origin, path) {
        Err(error) => return Err(error),
        Ok(target) => target,
    };
    let mut headers = HeaderPositions::new();
    let mut declared = Declared {
        content_length: None,
        codings: 0,
        chunked: false,
        close: false,
        keep_alive: false,
    };
    let ghost extents = parts@.headers;
    let ghost all = fields(buffer@, extents);
    assert(all.take(0) =~= Seq::<Field>::empty());
    assert(headers@ =~= positions(extents).take(0));
    for i in 0..parts.headers.len()
        invariant
            extents == parts@.headers,
            all == fields(buffer@, extents),
            parts.head_bytes <= limits@.header_bytes,
            parts.path == Some(path),
            parts.version == Some(version),
            parts@.method matches Some(token) && Method::named(token) == Some(method),
            headers@ == positions(extents).take(i as int),
            headers_within(extents.take(i as int), buffer@.len()),
            declared.sums_up(all.take(i as int)),
    {
        let header = parts.headers[i];
        let ghost extent = extents[i as int];
        assert(extent == (HeaderExtent {
            name: header.name.extent(parts.origin),
            value: header.value.extent(parts.origin),
        }));
        let name = match byte_range(buffer, parts.origin, header.name) {
            Err(error) => return Err(error),
            Ok(name) => name,
        };
        let value = match byte_range(buffer, parts.origin, header.value) {
            Err(error) => return Err(error),
            Ok(value) => value,
        };
        headers.push(HeaderPosition { name, value });
        assert(positions(extents).take(i + 1) =~= headers@);
        assert(all.take(i + 1) =~= all.take(i as int).push(all[i as int]));
        assert forall|j: int| 0 <= j < i + 1 implies (#[trigger] extents.take(
            i + 1,
        )[j]).name.within(buffer@.len()) && extents.take(i + 1)[j].value.within(
            buffer@.len(),
        ) by {
            if j < i {
                assert(extents.take(i + 1)[j] == extents.take(i as int)[j]);
            }
        }
        proof {
            lemma_prefix_declares(all, i + 1);
        }
        declared = match declared.add_field(
            slice_subrange(buffer, name.start, name.end),
            slice_subrange(buffer, value.start, value.end),
            Ghost(all.take(i as int)),
        ) {
            Err(error) => return Err(error),
            Ok(declared) => declared,
        };
    }
    assert(extents.take(extents.len() as int) =~= extents);
    assert(all.take(all.len() as int) =~= all);
    assert(positions(extents).take(extents.len() as int) =~= positions(extents));
    let body = match declared.framing(Ghost(all)) {
        Err(error) => return Err(error),
        Ok(body) => body,
    };
    if let BodyFraming::ContentLength(length) = body {
        if length > limits.body_bytes() {
            return Err(ParseError::payload_too_large());
        }
    }
    let keep_alive = !declared.close && (version == 1 || declared.keep_alive);
    let head_bytes = parts.head_bytes;
    Ok(Some(RequestHead { method, target, headers, head_bytes, body, keep_alive }))
}

/// Makes a request head of the split of the receive buffer `buffer`.
///
/// `Ok(None)` means more bytes are required.
///
/// # Errors
///
/// Returns a bounded protocol rejection for malformed or oversized headers,
/// conflicting framing fields, unsupported transfer encodings, and methods, and
/// for a declared body length above the limit.
pub fn interpret_scan(buffer: &[u8], limits: Limits, scan: HeadScan<'_>) -> (head: Result<
    Option<RequestHead>,
    ParseError,
>)
    ensures
        error::parsed(head) == head_of(buffer@, limits@, scan@),
{
    match scan {
        HeadScan::Complete(parts) => assemble(buffer, limits, parts),
        HeadScan::Partial => {
            if buffer.len() > limits.header_bytes() {
                Err(ParseError::headers_too_large())
            } else {
                Ok(None)
            }
        },
        HeadScan::TooManyHeaders => Err(ParseError::headers_too_large()),
        HeadScan::Malformed => Err(ParseError::bad_request()),
    }
}

/// Parses one complete HTTP/1 request head from the start of `buffer`.
///
/// `Ok(None)` means more bytes are required. Returned ranges remain valid only
/// while the caller preserves the buffer prefix. A complete head is parsed the
/// same whatever follows it, and asked to be completed wherever it is cut short.
///
/// # Errors
///
/// Returns a bounded protocol rejection for malformed or oversized headers,
/// conflicting framing fields, unsupported transfer encodings, and methods, and
/// for a declared body length above the limit.
pub fn parse_request_head(buffer: &[u8], limits: Limits) -> (head: Result<
    Option<RequestHead>,
    ParseError,
>)
    ensures
        error::parsed(head) == head_of(
            buffer@,
            limits@,
            scan::httparse_request(buffer@, limits@.headers),
        ),
        head matches Ok(Some(head)) ==> head@.lies_in(buffer@, limits@),
        head matches Ok(Some(head)) ==> framing(laws::head::head_fields(buffer@, head.headers@))
            == Result::<BodyFraming, Rejection>::Ok(head.body),
        head matches Ok(Some(head)) ==> forall|other: Seq<u8>|
            buffer@.take(head.head_bytes as int).is_prefix_of(other) ==> head_of(
                other,
                limits@,
                #[trigger] scan::httparse_request(other, limits@.headers),
            ) == Result::<Option<Head>, Rejection>::Ok(Some(head@)),
        head matches Ok(Some(head)) ==> forall|arrived: int|
            0 <= arrived < head.head_bytes ==> head_of(
                buffer@.take(arrived),
                limits@,
                #[trigger] scan::httparse_request(buffer@.take(arrived), limits@.headers),
            ) == Result::<Option<Head>, Rejection>::Ok(None),
{
    let room = limits.headers();
    let inline = if room < INLINE_REQUEST_HEADERS {
        room
    } else {
        INLINE_REQUEST_HEADERS
    };
    let first_scan = scan::scan_request(buffer, inline);
    proof {
        assert(buffer@.len() == buffer.len());
        laws::head::heads_have_the_framing_of_their_headers(
            buffer@,
            limits@,
            scan::httparse_request(buffer@, limits@.headers),
        );
        if let Scan::Complete(parts) = first_scan@ {
            lemma_only_the_head_matters(buffer@, limits@, parts, inline as nat);
            lemma_head_lies_in(buffer@, limits@, parts, inline as nat);
        }
    }
    let first = interpret_scan(buffer, limits, first_scan);
    if let Err(rejection) = first {
        if rejection.status == 431 && room > INLINE_REQUEST_HEADERS {
            let second_scan = scan::scan_request(buffer, room);
            proof {
                if let Scan::Complete(parts) = second_scan@ {
                    lemma_only_the_head_matters(buffer@, limits@, parts, room as nat);
                    lemma_head_lies_in(buffer@, limits@, parts, room as nat);
                }
            }
            return interpret_scan(buffer, limits, second_scan);
        }
    }
    first
}

} // verus!
