//! Byte ranges of the caller-owned receive buffer.

use crate::bytes;
use crate::text;
use vstd::prelude::*;
use vstd::slice::slice_subrange;
use vstd::std_specs::iter::IteratorSpec;
use vstd::string::StringSliceAdditionalSpecFns;

verus! {

/// How many headers have their positions held without allocating.
pub const INLINE_REQUEST_HEADERS: usize = 16;

/// Byte range referencing the caller-owned receive buffer.
#[derive(Clone, Copy, Debug, Eq, PartialEq, Structural)]
pub struct ByteRange {
    pub start: usize,
    pub end: usize,
}

impl ByteRange {
    /// The bytes of the range, if the range lies in the buffer.
    pub open spec fn bytes_in(self, buffer: Seq<u8>) -> Option<Seq<u8>> {
        if self.start <= self.end <= buffer.len() {
            Some(buffer.subrange(self.start as int, self.end as int))
        } else {
            None
        }
    }

    /// The bytes of the range, if the range lies in the buffer and they are
    /// valid UTF-8.
    pub open spec fn text_in(self, buffer: Seq<u8>) -> Option<Seq<u8>> {
        match self.bytes_in(buffer) {
            Some(found) if vstd::utf8::valid_utf8(found) => Some(found),
            _ => None,
        }
    }

    #[must_use]
    pub fn bytes(self, buffer: &[u8]) -> (found: Option<&[u8]>)
        ensures
            match found {
                Some(found) => self.bytes_in(buffer@) == Some(found@),
                None => self.bytes_in(buffer@) is None,
            },
    {
        if self.start <= self.end && self.end <= buffer.len() {
            Some(slice_subrange(buffer, self.start, self.end))
        } else {
            None
        }
    }

    #[must_use]
    pub fn text(self, buffer: &[u8]) -> (found: Option<&str>)
        ensures
            match found {
                Some(found) => self.text_in(buffer@) == Some(found.spec_bytes()),
                None => self.text_in(buffer@) is None,
            },
    {
        match self.bytes(buffer) {
            Some(found) => text::utf8_text(found),
            None => None,
        }
    }
}

/// Header name and value ranges in the caller-owned receive buffer.
#[derive(Clone, Copy, Debug, Eq, PartialEq, Structural)]
pub struct HeaderPosition {
    pub name: ByteRange,
    pub value: ByteRange,
}

/// `header` is the name `argument`, up to ASCII case, where an underscore in
/// `argument` stands for a dash.
pub open spec fn name_matches(header: Seq<u8>, argument: Seq<u8>) -> bool {
    &&& header.len() == argument.len()
    &&& forall|i: int|
        0 <= i < header.len() ==> bytes::lower(#[trigger] header[i]) == bytes::lower(
            dashed(argument[i]),
        )
}

/// A dash for an underscore; any other byte as it is.
pub open spec fn dashed(byte: u8) -> u8 {
    if byte == 95 {
        45
    } else {
        byte
    }
}

impl HeaderPosition {
    /// The header has the name `name`.
    pub open spec fn is_named(self, buffer: Seq<u8>, name: Seq<u8>) -> bool {
        match self.name.text_in(buffer) {
            Some(header) => name_matches(header, name),
            None => false,
        }
    }
}

/// Inline-first header positions parsed without copying header bytes.
#[derive(Debug)]
pub struct HeaderPositions {
    inline: [HeaderPosition; 16],
    inline_len: usize,
    overflow: Vec<HeaderPosition>,
}

impl View for HeaderPositions {
    type V = Seq<HeaderPosition>;

    closed spec fn view(&self) -> Seq<HeaderPosition> {
        self.inline@.take(self.inline_len as int) + self.overflow@
    }
}

/// The headers with the name `name`, in their order.
pub open spec fn headers_named(
    headers: Seq<HeaderPosition>,
    buffer: Seq<u8>,
    name: Seq<u8>,
) -> Seq<HeaderPosition> {
    headers.filter(|header: HeaderPosition| header.is_named(buffer, name))
}

/// The text of the value of the header with number `index` among those with
/// the name `name`.
pub open spec fn value_of(
    headers: Seq<HeaderPosition>,
    buffer: Seq<u8>,
    name: Seq<u8>,
    index: int,
) -> Option<Seq<u8>> {
    let named = headers_named(headers, buffer, name);
    if 0 <= index < named.len() {
        named[index].value.text_in(buffer)
    } else {
        None
    }
}

impl HeaderPositions {
    #[verifier::type_invariant]
    spec fn well_formed(self) -> bool {
        &&& self.inline_len <= INLINE_REQUEST_HEADERS
        &&& self.overflow@.len() > 0 ==> self.inline_len == INLINE_REQUEST_HEADERS
    }

    pub(crate) fn new() -> (headers: Self)
        ensures
            headers@ == Seq::<HeaderPosition>::empty(),
    {
        let nowhere = ByteRange { start: 0, end: 0 };
        let empty = HeaderPosition { name: nowhere, value: nowhere };
        let headers = HeaderPositions { inline: [empty; 16], inline_len: 0, overflow: Vec::new() };
        assert(headers@ =~= Seq::<HeaderPosition>::empty());
        headers
    }

    pub(crate) fn push(&mut self, header: HeaderPosition)
        ensures
            final(self)@ == old(self)@.push(header),
    {
        proof {
            use_type_invariant(&*self);
        }
        if self.inline_len < INLINE_REQUEST_HEADERS {
            self.inline[self.inline_len] = header;
            self.inline_len = self.inline_len + 1;
        } else {
            let mut overflow: Vec<HeaderPosition> = Vec::new();
            std::mem::swap(&mut overflow, &mut self.overflow);
            overflow.push(header);
            self.overflow = overflow;
        }
        assert(self@ =~= old(self)@.push(header));
    }

    /// The positions of all headers, in their order.
    pub fn iter(&self) -> (headers: std::vec::IntoIter<HeaderPosition>)
        ensures
            IteratorSpec::remaining(&headers) == self@,
            IteratorSpec::decrease(&headers) is Some,
            IteratorSpec::initial_value_relation(&headers, &headers),
    {
        proof {
            use_type_invariant(self);
        }
        let mut headers: Vec<HeaderPosition> = Vec::new();
        headers.extend_from_slice(slice_subrange(&self.inline, 0, self.inline_len));
        headers.extend_from_slice(self.overflow.as_slice());
        assert(headers@ =~= self@);
        headers.into_iter()
    }

    /// The value of the header with number `index` among those with the name
    /// `name`, in which an underscore stands for a dash.
    #[must_use]
    pub fn value<'buffer>(&self, buffer: &'buffer [u8], name: &str, index: usize) -> (value: Option<
        &'buffer str,
    >)
        ensures
            match value {
                Some(value) => value_of(self@, buffer@, name.spec_bytes(), index as int) == Some(
                    value.spec_bytes(),
                ),
                None => value_of(self@, buffer@, name.spec_bytes(), index as int) is None,
            },
    {
        proof {
            use_type_invariant(self);
            Seq::filter_distributes_over_add(
                self.inline@.take(self.inline_len as int),
                self.overflow@,
                |header: HeaderPosition| header.is_named(buffer@, name.spec_bytes()),
            );
            assert(self.inline@.subrange(0, self.inline_len as int) =~= self.inline@.take(
                self.inline_len as int,
            ));
        }
        let inline = slice_subrange(&self.inline, 0, self.inline_len);
        let header = match nth_named(inline, buffer, name.as_bytes(), index) {
            Ok(header) => header,
            Err(rest) => match nth_named(self.overflow.as_slice(), buffer, name.as_bytes(), rest) {
                Ok(header) => header,
                Err(_) => {
                    return None;
                },
            },
        };
        header.value.text(buffer)
    }
}

impl Clone for HeaderPositions {
    fn clone(&self) -> (copy: Self)
        ensures
            copy@ == self@,
    {
        proof {
            use_type_invariant(self);
        }
        let overflow = self.overflow.clone();
        assert(overflow@ =~= self.overflow@);
        HeaderPositions { inline: self.inline, inline_len: self.inline_len, overflow }
    }
}

/// Whether a header name matches a lookup argument.
fn header_name_matches(header: &[u8], argument: &[u8]) -> (same: bool)
    ensures
        same == name_matches(header@, argument@),
{
    if header.len() != argument.len() {
        return false;
    }
    for i in 0..header.len()
        invariant
            header@.len() == argument@.len(),
            forall|j: int|
                0 <= j < i ==> bytes::lower(#[trigger] header@[j]) == bytes::lower(
                    dashed(argument@[j]),
                ),
    {
        let wanted: u8 = if argument[i] == 95 {
            45
        } else {
            argument[i]
        };
        if bytes::to_ascii_lowercase(header[i]) != bytes::to_ascii_lowercase(wanted) {
            return false;
        }
    }
    true
}

/// The header with number `index` among those with the name `name`, or, if
/// there are not so many, what is left of the number.
fn nth_named(
    headers: &[HeaderPosition],
    buffer: &[u8],
    name: &[u8],
    index: usize,
) -> (found: Result<HeaderPosition, usize>)
    ensures
        ({
            let named = headers_named(headers@, buffer@, name@);
            match found {
                Ok(header) => index < named.len() && header == named[index as int],
                Err(rest) => rest + named.len() == index,
            }
        }),
{
    let ghost pred = |header: HeaderPosition| header.is_named(buffer@, name@);
    let mut rest: usize = index;
    proof {
        reveal(Seq::filter);
    }
    for i in 0..headers.len()
        invariant
            pred == (|header: HeaderPosition| header.is_named(buffer@, name@)),
            rest + headers@.take(i as int).filter(pred).len() == index,
    {
        let header = headers[i];
        let named = match header.name.text(buffer) {
            Some(text) => header_name_matches(text.as_bytes(), name),
            None => false,
        };
        proof {
            reveal(Seq::filter);
            assert(headers@.take(i + 1).drop_last() =~= headers@.take(i as int));
            Seq::filter_distributes_over_add(headers@.take(i + 1), headers@.skip(i + 1), pred);
            assert(headers@ =~= headers@.take(i + 1) + headers@.skip(i + 1));
        }
        if named {
            if rest == 0 {
                return Ok(header);
            }
            rest = rest - 1;
        }
    }
    assert(headers@.take(headers@.len() as int) =~= headers@);
    Err(rest)
}

/// A range that lies in a prefix of the buffer holds the same bytes and the same
/// text in every buffer with that prefix: a position stays valid while the
/// caller preserves the prefix of the buffer that it was found in.
pub proof fn positions_outlive_buffer_growth(
    range: ByteRange,
    buffer: Seq<u8>,
    later: Seq<u8>,
    prefix: int,
)
    requires
        0 <= prefix <= buffer.len(),
        prefix <= later.len(),
        buffer.take(prefix) == later.take(prefix),
        range.end <= prefix,
    ensures
        range.bytes_in(later) == range.bytes_in(buffer),
        range.text_in(later) == range.text_in(buffer),
{
    if range.start <= range.end {
        assert forall|i: int| range.start <= i < range.end implies buffer[i] == later[i] by {
            assert(buffer.take(prefix)[i] == buffer[i]);
            assert(later.take(prefix)[i] == later[i]);
        }
        assert(buffer.subrange(range.start as int, range.end as int) =~= later.subrange(
            range.start as int,
            range.end as int,
        ));
    }
}

} // verus!
