//! The split of a request head into its parts, as the `httparse` crate makes it.

use crate::field;
use crate::limits::MAX_HEADER_CAPACITY;
use httparse::{Error, Request, Status, EMPTY_HEADER};
use vstd::prelude::*;

verus! {

/// A part of a receive buffer: the address of its first byte, and its length.
#[derive(Clone, Copy, Debug)]
pub struct Span {
    pub address: usize,
    pub len: usize,
}

/// The name and the value of a header line.
#[derive(Clone, Copy, Debug)]
pub struct ScannedHeader {
    pub name: Span,
    pub value: Span,
}

/// A head that has been split into its parts.
#[derive(Debug)]
pub struct ScannedHead<'buffer> {
    /// The address of the receive buffer.
    pub origin: usize,
    /// The length of the head, its empty line counted.
    pub head_bytes: usize,
    pub method: Option<&'buffer str>,
    pub path: Option<Span>,
    /// The minor version of HTTP/1.
    pub version: Option<u8>,
    pub headers: Vec<ScannedHeader>,
}

/// What splitting a receive buffer into the parts of a request head gives.
#[derive(Debug)]
pub enum HeadScan<'buffer> {
    /// The buffer starts with a head.
    Complete(ScannedHead<'buffer>),
    /// The head has not arrived as a whole.
    Partial,
    /// The head has more headers than there was room for.
    TooManyHeaders,
    /// The buffer starts with something else.
    Malformed,
}

/// Where a part stands in a receive buffer.
pub struct Extent {
    pub start: int,
    pub len: nat,
}

/// Where the name and the value of a header stand.
pub struct HeaderExtent {
    pub name: Extent,
    pub value: Extent,
}

/// The parts of a head, placed by their offsets.
pub struct HeadParts {
    pub head_bytes: nat,
    pub method: Option<Seq<char>>,
    pub path: Option<Extent>,
    pub version: Option<u8>,
    pub headers: Seq<HeaderExtent>,
}

/// What splitting gives, with parts placed by their offsets.
pub enum Scan {
    Complete(HeadParts),
    Partial,
    TooManyHeaders,
    Malformed,
}

impl Span {
    /// The place of the part in a buffer that starts at address `origin`.
    pub open spec fn extent(self, origin: usize) -> Extent {
        Extent { start: self.address - origin, len: self.len as nat }
    }
}

impl Extent {
    /// The part lies within the first `len` bytes.
    pub open spec fn within(self, len: nat) -> bool {
        0 <= self.start && self.start + self.len <= len
    }

    /// The bytes of the part.
    pub open spec fn bytes_in(self, buffer: Seq<u8>) -> Seq<u8> {
        buffer.subrange(self.start, self.start + self.len)
    }
}

impl<'buffer> View for ScannedHead<'buffer> {
    type V = HeadParts;

    open spec fn view(&self) -> HeadParts {
        HeadParts {
            head_bytes: self.head_bytes as nat,
            method: match self.method {
                Some(method) => Some(method@),
                None => None,
            },
            path: match self.path {
                Some(path) => Some(path.extent(self.origin)),
                None => None,
            },
            version: self.version,
            headers: self.headers@.map_values(
                |header: ScannedHeader|
                    HeaderExtent {
                        name: header.name.extent(self.origin),
                        value: header.value.extent(self.origin),
                    },
            ),
        }
    }
}

impl<'buffer> View for HeadScan<'buffer> {
    type V = Scan;

    open spec fn view(&self) -> Scan {
        match *self {
            HeadScan::Complete(head) => Scan::Complete(head@),
            HeadScan::Partial => Scan::Partial,
            HeadScan::TooManyHeaders => Scan::TooManyHeaders,
            HeadScan::Malformed => Scan::Malformed,
        }
    }
}

/// What [`httparse::Request::parse`] gives for `buffer` with room for
/// `max_headers` headers.
pub uninterp spec fn httparse_request(buffer: Seq<u8>, max_headers: nat) -> Scan;

/// The parts of a head that `httparse` has split are all there, lie in the head,
/// and fit the room that there was. Each header has a valid name, and its value
/// stands behind it.
pub open spec fn is_split(parts: HeadParts, buffer: Seq<u8>, max_headers: nat) -> bool {
    &&& 0 < parts.head_bytes <= buffer.len()
    &&& parts.method is Some
    &&& parts.path matches Some(path) && path.within(parts.head_bytes)
        && vstd::utf8::valid_utf8(path.bytes_in(buffer))
    &&& parts.version == Some(0u8) || parts.version == Some(1u8)
    &&& parts.headers.len() <= max_headers
    &&& forall|i: int|
        0 <= i < parts.headers.len() ==> {
            let header = #[trigger] parts.headers[i];
            &&& header.name.within(parts.head_bytes)
            &&& header.value.within(parts.head_bytes)
            &&& field::is_name(header.name.bytes_in(buffer))
            &&& header.name.start + header.name.len < header.value.start
        }
}

/// Calls [`httparse::Request::parse`] with room for `max_headers` headers. What
/// it gives depends on the buffer and the room alone. Where it finds a complete
/// head, it has set the method, the path, and a minor version of 0 or 1, the
/// path is UTF-8, there are no more headers than there was room for, each name is
/// one or more token characters with a colon between it and the value, and all
/// parts are slices of the buffer in front of the offset that it returns. It reads
/// a head from its first byte to its last: the bytes behind that offset make no
/// difference, and with fewer bytes of the head it gives a partial result. More
/// room changes the result only where there was too little.
#[verifier::external_body]
pub(crate) fn scan_request<'buffer>(buffer: &'buffer [u8], max_headers: usize) -> (scan: HeadScan<
    'buffer,
>)
    requires
        max_headers <= MAX_HEADER_CAPACITY,
    ensures
        scan@ == httparse_request(buffer@, max_headers as nat),
        scan@ matches Scan::Complete(parts) ==> is_split(parts, buffer@, max_headers as nat),
        !(scan@ is TooManyHeaders) ==> forall|room: nat|
            max_headers <= room ==> #[trigger] httparse_request(buffer@, room) == scan@,
        scan@ matches Scan::Complete(parts) ==> forall|other: Seq<u8>, room: nat|
            buffer@.take(parts.head_bytes as int).is_prefix_of(other) && max_headers <= room
                ==> #[trigger] httparse_request(other, room) == scan@,
        scan@ matches Scan::Complete(parts) ==> forall|arrived: int, room: nat|
            0 <= arrived < parts.head_bytes && max_headers <= room ==> #[trigger] httparse_request(
                buffer@.take(arrived),
                room,
            ) is Partial,
{
    let mut headers = vec![EMPTY_HEADER; max_headers];
    let mut request = Request::new(&mut headers);
    let span = |part: &[u8]| Span { address: part.as_ptr() as usize, len: part.len() };
    match request.parse(buffer) {
        Ok(Status::Complete(head_bytes)) => HeadScan::Complete(ScannedHead {
            origin: span(buffer).address,
            head_bytes, method: request.method, version: request.version,
            path: request.path.map(str::as_bytes).map(span),
            headers: request.headers.iter().map(|header| ScannedHeader {
                name: span(header.name.as_bytes()), value: span(header.value)
            }).collect() }),
        Ok(Status::Partial) => HeadScan::Partial,
        Err(Error::TooManyHeaders) => HeadScan::TooManyHeaders,
        Err(_) => HeadScan::Malformed
    }
}

} // verus!
