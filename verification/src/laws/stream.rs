//! Laws of chunked bodies whose data is handed out as it arrives.

use crate::bytes;
use crate::chunk;
use crate::chunk::Progress;
use crate::error::Rejection;
use crate::frame;
use crate::laws;
use crate::limits::Bounds;
use crate::stream;
use crate::stream::{Event, Report, Stream};
use vstd::prelude::*;

verus! {

/// A decoder that stands in front of a size line.
pub open spec fn is_resting(stream: Stream) -> bool {
    !stream.ending && stream.pending is None
}

/// The smaller one of two numbers.
pub open spec fn lesser(left: nat, right: nat) -> nat {
    if left < right {
        left
    } else {
        right
    }
}

/// A new decoder stands in front of the first size line of its body, and has
/// handed out and counted nothing.
pub proof fn new_decoders_have_handed_out_nothing(position: nat, bounds: Bounds)
    ensures
        ({
            let stream = Stream::start(position, bounds);
            &&& is_resting(stream)
            &&& stream.position == position
            &&& stream.body_bytes == 0
            &&& stream.chunks == 0
            &&& stream.bounds == bounds
            &&& stream::in_step(stream, Progress::start(position, bounds))
        }),
{
}

/// Data that is outstanding is handed out as far as it has arrived, all of it at
/// once; where none has, more bytes are needed.
pub proof fn data_is_handed_out_as_it_arrives(stream: Stream, buffer: Seq<u8>, remaining: nat)
    requires
        !stream.ending,
        stream.pending == Some(remaining),
        remaining > 0,
    ensures
        buffer.len() <= stream.position ==> stream.advance(buffer) == (
            stream,
            Report::Ok(Event::NeedMore),
        ),
        buffer.len() > stream.position ==> ({
            let end = lesser(buffer.len(), stream.position + remaining);
            stream.advance(buffer) == (
                Stream {
                    position: end,
                    pending: Some((stream.position + remaining - end) as nat),
                    ..stream
                },
                Report::Ok(Event::Data { start: stream.position, end }),
            )
        }),
{
    reveal(Stream::step);
}

/// Behind the data of a chunk stands a line terminator: it is waited for, and
/// anything else is a bad request. The decoder goes on behind it.
pub proof fn data_ends_in_a_terminator(stream: Stream, buffer: Seq<u8>)
    requires
        !stream.ending,
        stream.pending == Some(0nat),
        stream.position + 2 <= usize::MAX,
    ensures
        buffer.len() < stream.position + 2 ==> stream.advance(buffer) == (
            stream,
            Report::Ok(Event::NeedMore),
        ),
        ({
            let at = stream.position as int;
            &&& buffer.len() >= at + 2 && !(buffer[at] == 13 && buffer[at + 1] == 10)
                ==> stream.advance(buffer) == (stream, Report::Err(Rejection::bad_request()))
            &&& buffer.len() >= at + 2 && buffer[at] == 13 && buffer[at + 1] == 10
                ==> stream.advance(buffer) == (Stream {
                position: stream.position + 2,
                pending: None,
                ..stream
            }).advance(buffer)
        }),
{
    reveal(Stream::step);
    let at = stream.position as int;
    if buffer.len() >= at + 2 {
        assert(buffer.subrange(at, at + 2)[0] == buffer[at]);
        assert(buffer.subrange(at, at + 2)[1] == buffer[at + 1]);
        if buffer[at] == 13 && buffer[at + 1] == 10 {
            assert(buffer.subrange(at, at + 2) =~= bytes::crlf());
            assert(bytes::occurs_at(buffer, bytes::crlf(), at));
            let next = Stream { position: stream.position + 2, pending: None, ..stream };
            assert(stream.step(buffer) == stream::Step::Continue(next));
        }
    }
}

/// A size line within the limits makes the data of its chunk outstanding: it is
/// counted, and handed out from behind the line on.
pub proof fn sizes_make_data_outstanding(
    stream: Stream,
    buffer: Seq<u8>,
    line: Seq<u8>,
    size: nat,
)
    requires
        is_resting(stream),
        laws::chunk::is_unbroken(line),
        frame::chunk_size(line) == Some(size),
        size > 0,
        bytes::occurs_at(buffer, line + seq![13u8, 10u8], stream.position as int),
        stream.body_bytes + size <= stream.bounds.body_bytes,
        stream.chunks < stream.bounds.chunks,
    ensures
        stream.advance(buffer) == (Stream {
            position: stream.position + line.len() + 2,
            pending: Some(size),
            body_bytes: stream.body_bytes + size,
            chunks: stream.chunks + 1,
            ..stream
        }).advance(buffer),
{
    reveal(Stream::step);
    assert(line + seq![13u8, 10u8] + Seq::<u8>::empty() =~= line + seq![13u8, 10u8]);
    laws::chunk::lemma_line(buffer, stream.position as int, line, Seq::empty());
    let sized = Stream {
        position: stream.position + line.len() + 2,
        pending: Some(size),
        body_bytes: stream.body_bytes + size,
        chunks: stream.chunks + 1,
        ..stream
    };
    assert(stream.step(buffer) == stream::Step::Continue(sized));
}

/// A chunk that would make the body longer than allowed is too large and is not
/// counted; one chunk more than allowed is too many.
pub proof fn chunks_beyond_the_limits_are_rejected(
    stream: Stream,
    buffer: Seq<u8>,
    line: Seq<u8>,
    size: nat,
)
    requires
        is_resting(stream),
        laws::chunk::is_unbroken(line),
        frame::chunk_size(line) == Some(size),
        size > 0,
        bytes::occurs_at(buffer, line + seq![13u8, 10u8], stream.position as int),
    ensures
        stream.body_bytes + size > stream.bounds.body_bytes ==> ({
            let (last, report) = stream.advance(buffer);
            &&& report == Report::Err(Rejection::payload_too_large())
            &&& last.body_bytes == stream.body_bytes
        }),
        stream.body_bytes + size <= stream.bounds.body_bytes && stream.chunks
            >= stream.bounds.chunks ==> stream.advance(buffer).1 == Report::Err(
            Rejection::too_many_chunks(),
        ),
{
    reveal(Stream::step);
    assert(line + seq![13u8, 10u8] + Seq::<u8>::empty() =~= line + seq![13u8, 10u8]);
    laws::chunk::lemma_line(buffer, stream.position as int, line, Seq::empty());
}

/// A line that gives no size is a bad request.
pub proof fn lines_without_a_size_are_rejected(stream: Stream, buffer: Seq<u8>, line: Seq<u8>)
    requires
        is_resting(stream),
        laws::chunk::is_unbroken(line),
        frame::chunk_size(line) is None,
        bytes::occurs_at(buffer, line + seq![13u8, 10u8], stream.position as int),
    ensures
        stream.advance(buffer) == (stream, Report::Err(Rejection::bad_request())),
{
    reveal(Stream::step);
    assert(line + seq![13u8, 10u8] + Seq::<u8>::empty() =~= line + seq![13u8, 10u8]);
    laws::chunk::lemma_line(buffer, stream.position as int, line, Seq::empty());
}

/// A line that has not ended is waited for while it is within the limit, and a
/// bad request behind it.
pub proof fn unfinished_lines_are_waited_for(stream: Stream, buffer: Seq<u8>)
    requires
        is_resting(stream),
        forall|i: int|
            stream.position <= i < buffer.len() - 1 ==> !(buffer[i] == 13 && #[trigger] buffer[i
                + 1] == 10),
    ensures
        buffer.len() <= stream.position + stream.bounds.header_bytes ==> stream.advance(buffer) == (
            stream,
            Report::Ok(Event::NeedMore),
        ),
        buffer.len() > stream.position + stream.bounds.header_bytes ==> stream.advance(buffer) == (
            stream,
            Report::Err(Rejection::bad_request()),
        ),
{
    reveal(Stream::step);
    let position = stream.position as int;
    bytes::lemma_find(buffer, bytes::crlf(), position);
    if let Some(at) = bytes::find(buffer, bytes::crlf(), position) {
        assert(buffer.subrange(at, at + 2)[0] == buffer[at]);
        assert(buffer.subrange(at, at + 2)[1] == buffer[at + 1]);
    }
}

/// A size of zero and an empty line end the body. Everything up to there is
/// consumed, and the counts stay.
pub proof fn empty_lines_end_bodies(stream: Stream, buffer: Seq<u8>, line: Seq<u8>)
    requires
        is_resting(stream),
        laws::chunk::is_unbroken(line),
        frame::chunk_size(line) == Some(0nat),
        bytes::occurs_at(
            buffer,
            line + seq![13u8, 10u8] + seq![13u8, 10u8],
            stream.position as int,
        ),
    ensures
        ({
            let consumed = stream.position + line.len() + 4;
            stream.advance(buffer) == (
                Stream { position: consumed, ..stream },
                Report::Ok(Event::Complete { consumed }),
            )
        }),
{
    reveal(Stream::step);
    assert(bytes::crlf() =~= seq![13u8, 10u8]);
    laws::chunk::lemma_line(buffer, stream.position as int, line, seq![13u8, 10u8]);
}

/// Chunks are handed out as their data whatever form their size lines have: with
/// digits of either case, white space, and extensions, as long as each line gives
/// the size of its chunk.
pub proof fn framed_chunks_stream(
    stream: Stream,
    buffer: Seq<u8>,
    lines: Seq<Seq<u8>>,
    chunks: Seq<Seq<u8>>,
    last: Seq<u8>,
)
    requires
        is_resting(stream),
        lines.len() == chunks.len(),
        forall|i: int|
            0 <= i < lines.len() ==> {
                &&& laws::chunk::is_unbroken(#[trigger] lines[i])
                &&& chunks[i].len() > 0
                &&& frame::chunk_size(lines[i]) == Some(chunks[i].len())
            },
        laws::chunk::is_unbroken(last),
        frame::chunk_size(last) == Some(0nat),
        bytes::occurs_at(
            buffer,
            laws::chunk::framed(lines, chunks) + (last + seq![13u8, 10u8] + seq![13u8, 10u8]),
            stream.position as int,
        ),
        stream.body_bytes + chunk::joined(chunks).len() <= stream.bounds.body_bytes,
        stream.chunks + chunks.len() <= stream.bounds.chunks,
        buffer.len() <= usize::MAX,
    ensures
        stream.drain(buffer).1 == chunk::joined(chunks),
        stream.drain(buffer).2 == Report::Ok(
            Event::Complete {
                consumed: stream.position + laws::chunk::framed(lines, chunks).len() + last.len()
                    + 4,
            },
        ),
        stream.drain(buffer).0.body_bytes == stream.body_bytes + chunk::joined(chunks).len(),
{
    let before = Seq::new(stream.body_bytes, |i: int| 0u8);
    let progress = Progress {
        position: stream.position,
        pending: None,
        ending: false,
        body: before,
        chunks: stream.chunks,
        bounds: stream.bounds,
    };
    stream::decoders_agree(stream, progress, buffer);
    laws::chunk::framed_chunks_decode(progress, buffer, lines, chunks, last);
    let data = stream.drain(buffer).1;
    assert(before + data == before + chunk::joined(chunks));
    assert((before + data).skip(before.len() as int) =~= data);
    assert((before + chunk::joined(chunks)).skip(before.len() as int) =~= chunk::joined(chunks));
}

/// A decoder that asks for more bytes has handed out all the data that has
/// arrived: nothing is outstanding, or the buffer ends where it stands.
pub proof fn arrived_data_is_not_held_back(stream: Stream, buffer: Seq<u8>)
    ensures
        stream.advance(buffer).1 == Report::Ok(Event::NeedMore) ==> {
            let (last, _) = stream.advance(buffer);
            last.ending || last.pending is None || last.pending == Some(0nat) || buffer.len()
                <= last.position
        },
        stream.advance(buffer).1 matches Ok(Event::Data { start, end }) ==> {
            let (last, _) = stream.advance(buffer);
            last.pending == Some(0nat) || end == buffer.len()
        },
    decreases buffer.len() - stream.position,
{
    reveal(Stream::step);
    stream::lemma_step_moves(stream, buffer);
    if let stream::Step::Continue(next) = stream.step(buffer) {
        arrived_data_is_not_held_back(next, buffer);
    }
}

/// Discarding bytes in front moves a decoder, and changes nothing else of it.
pub proof fn discarding_keeps_the_counts(stream: Stream, count: nat)
    requires
        count <= stream.position,
    ensures
        ({
            let moved = stream.rebased(count);
            &&& moved.position + count == stream.position
            &&& moved.pending == stream.pending
            &&& moved.ending == stream.ending
            &&& moved.body_bytes == stream.body_bytes
            &&& moved.chunks == stream.chunks
            &&& moved.bounds == stream.bounds
        }),
{
}

} // verus!
