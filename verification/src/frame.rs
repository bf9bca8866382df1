//! The lines around the data of a chunked body: chunk sizes, the empty line or
//! trailer section behind the last chunk, and the frames that carry data.

use crate::bytes;
use crate::error::{EncodeError, ParseError, Rejection};
use crate::field;
use crate::number;
use crate::text;
use vstd::prelude::*;
use vstd::slice::slice_subrange;

verus! {

/// The frame of the last chunk, without trailers.
pub const LAST_CHUNK: [u8; 5] = [48, 13, 10, 13, 10];

/// The size that a chunk-size line gives: a hexadecimal number in front of any
/// extensions, with white space around it.
pub open spec fn chunk_size(line: Seq<u8>) -> Option<nat> {
    if vstd::utf8::valid_utf8(line) {
        number::number(
            text::trimmed(line.take(bytes::index_of(line, bytes::SEMICOLON))),
            16,
        )
    } else {
        None
    }
}

/// What stands at the place of a chunk-size line.
pub enum SizeLine {
    /// The line has not arrived as a whole.
    Incomplete,
    /// The line gives no size, or is longer than allowed.
    Malformed,
    /// The line gives `size` and ends at `next`.
    Size { size: nat, next: int },
}

/// The chunk-size line that starts at `position`.
pub open spec fn size_line(buffer: Seq<u8>, position: int, max_header_bytes: nat) -> SizeLine {
    match bytes::find(buffer, bytes::crlf(), position) {
        None => if buffer.len() - position > max_header_bytes {
            SizeLine::Malformed
        } else {
            SizeLine::Incomplete
        },
        Some(end) => match chunk_size(buffer.subrange(position, end)) {
            None => SizeLine::Malformed,
            Some(size) => SizeLine::Size { size, next: end + 2 },
        },
    }
}

/// `line` is a trailer field: a name, a colon, and a value.
pub open spec fn is_trailer(line: Seq<u8>) -> bool {
    let colon = bytes::index_of(line, bytes::COLON);
    &&& colon < line.len()
    &&& field::is_name(line.take(colon))
    &&& field::is_value(line.skip(colon + 1))
}

/// Every line of `section` is a trailer field.
pub open spec fn are_trailers(section: Seq<u8>) -> bool {
    &&& vstd::utf8::valid_utf8(section)
    &&& forall|i: int|
        0 <= i < bytes::lines(section).len() ==> is_trailer(#[trigger] bytes::lines(section)[i])
}

/// What stands behind the line of the last chunk.
pub enum Ending {
    /// The body has not arrived as a whole.
    Incomplete,
    /// The trailers are malformed, or longer than allowed.
    Rejected(Rejection),
    /// The body ends at `consumed`.
    Complete { consumed: int },
}

/// The end of a chunked body whose last chunk-size line ends at `position`: an
/// empty line, or trailers and an empty line.
pub open spec fn ending(buffer: Seq<u8>, position: int, max_header_bytes: nat) -> Ending {
    if bytes::occurs_at(buffer, bytes::crlf(), position) {
        Ending::Complete { consumed: position + 2 }
    } else {
        match bytes::find(buffer, bytes::crlf_crlf(), position) {
            None => if buffer.len() - position > max_header_bytes {
                Ending::Rejected(Rejection::headers_too_large())
            } else {
                Ending::Incomplete
            },
            Some(end) => if end - position > max_header_bytes {
                Ending::Rejected(Rejection::headers_too_large())
            } else if are_trailers(buffer.subrange(position, end)) {
                Ending::Complete { consumed: end + 4 }
            } else {
                Ending::Rejected(Rejection::bad_request())
            },
        }
    }
}

/// The frame of one chunk: its size in hexadecimal, and its data.
pub open spec fn chunk_frame(data: Seq<u8>) -> Seq<u8> {
    number::numeral(data.len(), 16) + bytes::crlf() + data + bytes::crlf()
}

/// The frames of chunks, one behind the other.
pub open spec fn chunk_frames(chunks: Seq<Seq<u8>>) -> Seq<u8>
    decreases chunks.len(),
{
    if chunks.len() == 0 {
        Seq::empty()
    } else {
        chunk_frame(chunks[0]) + chunk_frames(chunks.skip(1))
    }
}

/// Appending the frame of one more chunk to the frames of some gives the frames
/// of all.
pub proof fn chunk_frames_append(chunks: Seq<Seq<u8>>, data: Seq<u8>)
    ensures
        chunk_frames(chunks.push(data)) == chunk_frames(chunks) + chunk_frame(data),
    decreases chunks.len(),
{
    let longer = chunks.push(data);
    if chunks.len() == 0 {
        assert(longer.skip(1) =~= chunks);
        assert(chunk_frames(longer) =~= chunk_frames(chunks) + chunk_frame(data));
    } else {
        chunk_frames_append(chunks.skip(1), data);
        assert(longer.skip(1) =~= chunks.skip(1).push(data));
        assert(chunk_frames(longer) =~= chunk_frames(chunks) + chunk_frame(data));
    }
}

/// The frame of a chunk without data is the frame of the last chunk.
pub proof fn empty_chunk_is_the_last()
    ensures
        chunk_frame(Seq::empty()) == LAST_CHUNK@,
{
    assert(chunk_frame(Seq::empty()) =~= LAST_CHUNK@);
}

/// A number in hexadecimal in front of CR LF is a chunk-size line with that
/// size.
pub proof fn lemma_reads_size(buffer: Seq<u8>, position: int, size: nat, max_header_bytes: nat)
    requires
        0 <= position,
        size <= usize::MAX,
        bytes::occurs_at(buffer, number::numeral(size, 16) + bytes::crlf(), position),
    ensures
        size_line(buffer, position, max_header_bytes) == (SizeLine::Size {
            size,
            next: position + number::numeral(size, 16).len() + 2,
        }),
{
    let line = number::numeral(size, 16);
    let end = position + line.len();
    number::lemma_numeral_digits(size, 16);
    bytes::lemma_occurs_parts(buffer, line, bytes::crlf(), position);
    assert forall|i: int| position <= i < end implies !bytes::occurs_at(
        buffer,
        bytes::crlf(),
        i,
    ) by {
        assert(line[i - position] == buffer[i]);
        if bytes::occurs_at(buffer, bytes::crlf(), i) {
            assert(buffer.subrange(i, i + 2)[0] == buffer[i]);
        }
    }
    bytes::lemma_find_is(buffer, bytes::crlf(), position, end);
    text::lemma_ascii_is_utf8(line);
    bytes::lemma_index_of_is(line, bytes::SEMICOLON, line.len() as int);
    assert(line.take(line.len() as int) =~= line);
    number::numeral_reads_back(size, 16);
}

/// A chunk-size line that has arrived as a whole is the same whatever bytes
/// follow.
pub proof fn lemma_size_line_grows(
    received: Seq<u8>,
    buffer: Seq<u8>,
    position: int,
    max_header_bytes: nat,
)
    requires
        0 <= position,
        received.is_prefix_of(buffer),
    ensures
        size_line(received, position, max_header_bytes) matches SizeLine::Size { size, next } ==> {
            &&& position + 2 <= next <= received.len()
            &&& size_line(buffer, position, max_header_bytes) == SizeLine::Size { size, next }
        },
{
    bytes::lemma_find(received, bytes::crlf(), position);
    if let Some(end) = bytes::find(received, bytes::crlf(), position) {
        bytes::lemma_find_grows(received, buffer, bytes::crlf(), position);
        assert(buffer.subrange(position, end) =~= received.subrange(position, end));
    }
}

/// An end that has arrived as a whole is the same whatever bytes follow.
pub proof fn lemma_ending_grows(
    received: Seq<u8>,
    buffer: Seq<u8>,
    position: int,
    max_header_bytes: nat,
)
    requires
        0 <= position,
        received.is_prefix_of(buffer),
    ensures
        ending(received, position, max_header_bytes) is Complete ==> ending(
            buffer,
            position,
            max_header_bytes,
        ) == ending(received, position, max_header_bytes),
{
    if position + 2 <= received.len() {
        assert(buffer.subrange(position, position + 2) =~= received.subrange(
            position,
            position + 2,
        ));
    }
    if !bytes::occurs_at(received, bytes::crlf(), position) {
        bytes::lemma_find(received, bytes::crlf_crlf(), position);
        if let Some(end) = bytes::find(received, bytes::crlf_crlf(), position) {
            bytes::lemma_find_grows(received, buffer, bytes::crlf_crlf(), position);
            assert(buffer.subrange(position, end) =~= received.subrange(position, end));
        }
    }
}

/// A chunk-size line and an end are the same as long as they are there as a
/// whole.
pub proof fn lemma_frames_cut(buffer: Seq<u8>, position: int, max_header_bytes: nat, len: int)
    requires
        0 <= position,
        0 <= len <= buffer.len(),
    ensures
        size_line(buffer, position, max_header_bytes) matches SizeLine::Size { size, next } ==> {
            &&& position + 2 <= next <= buffer.len()
            &&& next <= len ==> size_line(buffer.take(len), position, max_header_bytes)
                == (SizeLine::Size { size, next })
        },
        ending(buffer, position, max_header_bytes) matches Ending::Complete { consumed } ==> {
            &&& position + 2 <= consumed <= buffer.len()
            &&& consumed <= len ==> ending(buffer.take(len), position, max_header_bytes)
                == (Ending::Complete { consumed })
        },
{
    let cut = buffer.take(len);
    bytes::lemma_find(buffer, bytes::crlf(), position);
    bytes::lemma_find(buffer, bytes::crlf_crlf(), position);
    if position + 2 <= len {
        assert(cut.subrange(position, position + 2) =~= buffer.subrange(position, position + 2));
    }
    if let Some(end) = bytes::find(buffer, bytes::crlf(), position) {
        if end + 2 <= len {
            bytes::lemma_find_cut(buffer, bytes::crlf(), position, len);
            assert(cut.subrange(position, end) =~= buffer.subrange(position, end));
        }
    }
    if let Some(end) = bytes::find(buffer, bytes::crlf_crlf(), position) {
        if end + 4 <= len {
            bytes::lemma_find_cut(buffer, bytes::crlf_crlf(), position, len);
            assert(cut.subrange(position, end) =~= buffer.subrange(position, end));
        }
    }
}

/// What is rejected of a line or an end is rejected whatever bytes follow, but
/// for its length while it is incomplete.
pub proof fn lemma_rejections_grow(
    received: Seq<u8>,
    buffer: Seq<u8>,
    position: int,
    max_header_bytes: nat,
)
    requires
        0 <= position,
        received.is_prefix_of(buffer),
        received.len() - position <= max_header_bytes,
    ensures
        size_line(received, position, max_header_bytes) is Malformed ==> size_line(
            buffer,
            position,
            max_header_bytes,
        ) is Malformed,
        ending(received, position, max_header_bytes) is Rejected ==> ending(
            buffer,
            position,
            max_header_bytes,
        ) is Rejected,
{
    bytes::lemma_find(received, bytes::crlf(), position);
    bytes::lemma_find(received, bytes::crlf_crlf(), position);
    if let Some(end) = bytes::find(received, bytes::crlf(), position) {
        bytes::lemma_find_grows(received, buffer, bytes::crlf(), position);
        assert(buffer.subrange(position, end) =~= received.subrange(position, end));
    }
    if let Some(end) = bytes::find(received, bytes::crlf_crlf(), position) {
        bytes::lemma_find_grows(received, buffer, bytes::crlf_crlf(), position);
        assert(buffer.subrange(position, end) =~= received.subrange(position, end));
        assert(buffer.subrange(position, position + 2) =~= received.subrange(
            position,
            position + 2,
        ));
    }
}

/// Dropping bytes in front moves the lines behind them, and nothing else.
pub proof fn lemma_frames_shift(
    buffer: Seq<u8>,
    position: int,
    max_header_bytes: nat,
    count: int,
)
    requires
        0 <= count <= position,
        count <= buffer.len(),
    ensures
        size_line(buffer.skip(count), position - count, max_header_bytes) == (match size_line(
            buffer,
            position,
            max_header_bytes,
        ) {
            SizeLine::Size { size, next } => SizeLine::Size { size, next: next - count },
            line => line,
        }),
        ending(buffer.skip(count), position - count, max_header_bytes) == (match ending(
            buffer,
            position,
            max_header_bytes,
        ) {
            Ending::Complete { consumed } => Ending::Complete { consumed: consumed - count },
            end => end,
        }),
        size_line(buffer, position, max_header_bytes) matches SizeLine::Size { next, .. }
            ==> position < next,
        ending(buffer, position, max_header_bytes) matches Ending::Complete { consumed }
            ==> position < consumed,
{
    let rest = buffer.skip(count);
    bytes::lemma_find_shifts(buffer, bytes::crlf(), position, count);
    bytes::lemma_find_shifts(buffer, bytes::crlf_crlf(), position, count);
    bytes::lemma_find(buffer, bytes::crlf(), position);
    bytes::lemma_find(buffer, bytes::crlf_crlf(), position);
    assert(bytes::occurs_at(rest, bytes::crlf(), position - count) == bytes::occurs_at(
        buffer,
        bytes::crlf(),
        position,
    ));
    if let Some(end) = bytes::find(buffer, bytes::crlf(), position) {
        assert(rest.subrange(position - count, end - count) =~= buffer.subrange(position, end));
    }
    if let Some(end) = bytes::find(buffer, bytes::crlf_crlf(), position) {
        assert(rest.subrange(position - count, end - count) =~= buffer.subrange(position, end));
    }
}

/// Appends one HTTP/1 chunk frame to `output`.
///
/// # Errors
///
/// Never fails today; the result is kept for API stability.
pub fn encode_chunk(output: &mut Vec<u8>, chunk: &[u8]) -> (encoded: Result<(), EncodeError>)
    ensures
        encoded is Ok,
        final(output)@ == old(output)@ + chunk_frame(chunk@),
{
    number::push_hex(output, chunk.len());
    output.extend_from_slice(&[bytes::CR, bytes::LF]);
    output.extend_from_slice(chunk);
    output.extend_from_slice(&[bytes::CR, bytes::LF]);
    assert(output@ =~= old(output)@ + chunk_frame(chunk@));
    Ok(())
}

/// Reads the size in a chunk-size line.
pub fn parse_chunk_size(line: &[u8]) -> (size: Option<usize>)
    ensures
        match size {
            Some(size) => chunk_size(line@) == Some(size as nat),
            None => chunk_size(line@) is None,
        },
{
    match text::utf8_text(line) {
        None => None,
        Some(_) => {
            let size = slice_subrange(line, 0, bytes::position_of(line, bytes::SEMICOLON));
            assert(size@ =~= line@.take(bytes::index_of(line@, bytes::SEMICOLON)));
            number::parse_number(text::trim(size), 16)
        },
    }
}

/// Reads the chunk-size line that starts at `position`: its size and where it
/// ends, or nothing while the line is incomplete.
pub(crate) fn read_size_line(
    buffer: &[u8],
    position: usize,
    max_header_bytes: usize,
) -> (line: Result<Option<(usize, usize)>, ParseError>)
    ensures
        match (line, size_line(buffer@, position as int, max_header_bytes as nat)) {
            (Ok(None), SizeLine::Incomplete) => true,
            (Err(error), SizeLine::Malformed) => error@ == Rejection::bad_request(),
            (Ok(Some(found)), SizeLine::Size { size, next }) => found.0 == size && found.1 == next
                && position + 2 <= next <= buffer@.len(),
            _ => false,
        },
{
    match bytes::find_bytes(buffer, &[bytes::CR, bytes::LF], position) {
        None => {
            if buffer.len() > position && buffer.len() - position > max_header_bytes {
                Err(ParseError::bad_request())
            } else {
                Ok(None)
            }
        },
        Some(end) => match parse_chunk_size(slice_subrange(buffer, position, end)) {
            None => Err(ParseError::bad_request()),
            Some(size) => Ok(Some((size, end + 2))),
        },
    }
}

/// Whether `line` is a trailer field.
fn valid_trailer(line: &[u8]) -> (valid: bool)
    ensures
        valid == is_trailer(line@),
{
    let colon = bytes::position_of(line, bytes::COLON);
    if colon == line.len() {
        return false;
    }
    let name = slice_subrange(line, 0, colon);
    let value = slice_subrange(line, colon + 1, line.len());
    assert(name@ =~= line@.take(colon as int));
    assert(value@ =~= line@.skip(colon + 1));
    field::valid_header(name, value)
}

/// Checks every line of a trailer section.
///
/// # Errors
///
/// Returns a bad-request rejection for anything but trailer fields.
pub(crate) fn validate_trailers(section: &[u8]) -> (valid: Result<(), ParseError>)
    ensures
        match valid {
            Ok(_) => are_trailers(section@),
            Err(error) => !are_trailers(section@) && error@ == Rejection::bad_request(),
        },
{
    if text::utf8_text(section).is_none() {
        return Err(ParseError::bad_request());
    }
    let mut rest = section;
    let ghost mut done: Seq<Seq<u8>> = Seq::empty();
    assert(done + bytes::lines(rest@) =~= bytes::lines(section@));
    loop
        invariant
            vstd::utf8::valid_utf8(section@),
            done + bytes::lines(rest@) == bytes::lines(section@),
            forall|i: int| 0 <= i < done.len() ==> is_trailer(#[trigger] done[i]),
        decreases rest@.len(),
    {
        match bytes::find_bytes(rest, &[bytes::CR, bytes::LF], 0) {
            None => {
                assert(bytes::lines(rest@) =~= seq![rest@]);
                assert(bytes::lines(section@) =~= done.push(rest@));
                assert(bytes::lines(section@)[done.len() as int] == rest@);
                if valid_trailer(rest) {
                    return Ok(());
                }
                return Err(ParseError::bad_request());
            },
            Some(end) => {
                let line = slice_subrange(rest, 0, end);
                proof {
                    assert(line@ =~= rest@.take(end as int));
                    assert(rest@.subrange(end + 2, rest@.len() as int) =~= rest@.skip(end + 2));
                    assert(done + bytes::lines(rest@) =~= done.push(line@) + bytes::lines(
                        rest@.skip(end + 2),
                    ));
                    assert(bytes::lines(section@)[done.len() as int] == line@);
                    done = done.push(line@);
                }
                if !valid_trailer(line) {
                    return Err(ParseError::bad_request());
                }
                rest = slice_subrange(rest, end + 2, rest.len());
            },
        }
    }
}

/// Reads what stands behind the line of the last chunk: where the body ends, or
/// nothing while it is incomplete.
pub(crate) fn read_ending(
    buffer: &[u8],
    position: usize,
    max_header_bytes: usize,
) -> (end: Result<Option<usize>, ParseError>)
    ensures
        match (end, ending(buffer@, position as int, max_header_bytes as nat)) {
            (Ok(None), Ending::Incomplete) => true,
            (Err(error), Ending::Rejected(rejection)) => error@ == rejection,
            (Ok(Some(end)), Ending::Complete { consumed }) => end == consumed && position + 2 <= end
                <= buffer@.len(),
            _ => false,
        },
{
    if bytes::matches_at(buffer, &[bytes::CR, bytes::LF], position) {
        return Ok(Some(position + 2));
    }
    match bytes::find_bytes(buffer, &[bytes::CR, bytes::LF, bytes::CR, bytes::LF], position) {
        None => {
            if buffer.len() > position && buffer.len() - position > max_header_bytes {
                Err(ParseError::headers_too_large())
            } else {
                Ok(None)
            }
        },
        Some(end) => {
            if end - position > max_header_bytes {
                return Err(ParseError::headers_too_large());
            }
            match validate_trailers(slice_subrange(buffer, position, end)) {
                Err(error) => Err(error),
                Ok(_) => Ok(Some(end + 4)),
            }
        },
    }
}

} // verus!
