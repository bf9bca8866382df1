//! The decoder that hands out the data of a chunked body as it arrives.

use crate::bytes;
use crate::chunk;
use crate::chunk::Progress;
use crate::error::{ParseError, Rejection};
use crate::frame;
use crate::frame::{Ending, SizeLine};
use crate::limits::{Bounds, Limits};
use crate::position::ByteRange;
use vstd::prelude::*;

verus! {

/// One incremental event from [`StreamingChunkDecoder`].
#[derive(Clone, Copy, Debug, Eq, PartialEq)]
pub enum StreamingChunk {
    /// More receive bytes are required.
    NeedMore,
    /// One decoded data chunk referencing the caller-owned receive buffer.
    Data(ByteRange),
    /// Final chunk and trailers were validated.
    Complete { consumed: usize },
}

/// An event as a mathematical value.
pub enum Event {
    NeedMore,
    Data { start: nat, end: nat },
    Complete { consumed: nat },
}

impl View for StreamingChunk {
    type V = Event;

    open spec fn view(&self) -> Event {
        match *self {
            StreamingChunk::NeedMore => Event::NeedMore,
            StreamingChunk::Data(range) => Event::Data {
                start: range.start as nat,
                end: range.end as nat,
            },
            StreamingChunk::Complete { consumed } => Event::Complete { consumed: consumed as nat },
        }
    }
}

/// What one call of a decoder reports: an event or a rejection.
pub type Report = Result<Event, Rejection>;

/// A report of a decoder as contracts speak of it.
pub open spec fn report(result: Result<StreamingChunk, ParseError>) -> Report {
    match result {
        Ok(event) => Ok(event@),
        Err(error) => Err(error@),
    }
}

/// Where a decoder stands.
pub struct Stream {
    /// The offset of the next byte to read.
    pub position: nat,
    /// How much of the data of the current chunk has not been handed out.
    pub pending: Option<nat>,
    /// The last chunk has been read, and what ends the body has not.
    pub ending: bool,
    /// The sizes of the chunks that have been read, added up.
    pub body_bytes: nat,
    /// The number of chunks whose size has been read.
    pub chunks: nat,
    pub bounds: Bounds,
}

/// What becomes of a decoder in one step.
pub enum Step {
    /// The decoder goes on.
    Continue(Stream),
    /// The call ends.
    Stop(Stream, Report),
}

impl Stream {
    /// A decoder in front of a body that starts at `position`.
    pub open spec fn start(position: nat, bounds: Bounds) -> Stream {
        Stream { position, pending: None, ending: false, body_bytes: 0, chunks: 0, bounds }
    }

    /// How much of the data of the current chunk has not been handed out.
    pub open spec fn outstanding(self) -> nat {
        match self.pending {
            Some(remaining) => remaining,
            None => 0,
        }
    }

    /// The data and the number of chunks are within the configured limits.
    pub open spec fn within_bounds(self) -> bool {
        &&& self.outstanding() <= self.body_bytes <= self.bounds.body_bytes
        &&& self.chunks <= self.bounds.chunks
    }

    /// The step behind the line of the last chunk.
    pub open spec fn finish(self, buffer: Seq<u8>) -> Step {
        match frame::ending(buffer, self.position as int, self.bounds.header_bytes) {
            Ending::Incomplete => Step::Stop(
                Stream { ending: true, ..self },
                Ok(Event::NeedMore),
            ),
            Ending::Rejected(rejection) => Step::Stop(
                Stream { ending: false, ..self },
                Err(rejection),
            ),
            Ending::Complete { consumed } => Step::Stop(
                Stream { position: consumed as nat, ending: false, ..self },
                Ok(Event::Complete { consumed: consumed as nat }),
            ),
        }
    }

    /// The step into the data of a chunk of which `remaining` bytes are left, or
    /// over the line terminator behind it.
    pub open spec fn take_data(self, buffer: Seq<u8>, remaining: nat) -> Step {
        if remaining > 0 {
            if buffer.len() <= self.position {
                Step::Stop(self, Ok(Event::NeedMore))
            } else {
                let end = if buffer.len() - self.position < remaining {
                    buffer.len()
                } else {
                    self.position + remaining
                };
                Step::Stop(
                    Stream {
                        position: end,
                        pending: Some((remaining - (end - self.position)) as nat),
                        ..self
                    },
                    Ok(Event::Data { start: self.position, end }),
                )
            }
        } else if self.position + 2 > usize::MAX {
            Step::Stop(self, Err(Rejection::bad_request()))
        } else if buffer.len() < self.position + 2 {
            Step::Stop(self, Ok(Event::NeedMore))
        } else if !bytes::occurs_at(buffer, bytes::crlf(), self.position as int) {
            Step::Stop(self, Err(Rejection::bad_request()))
        } else {
            Step::Continue(Stream { position: self.position + 2, pending: None, ..self })
        }
    }

    /// The step over a chunk-size line.
    pub open spec fn take_size(self, buffer: Seq<u8>) -> Step {
        match frame::size_line(buffer, self.position as int, self.bounds.header_bytes) {
            SizeLine::Incomplete => Step::Stop(self, Ok(Event::NeedMore)),
            SizeLine::Malformed => Step::Stop(self, Err(Rejection::bad_request())),
            SizeLine::Size { size, next } => {
                let behind = Stream { position: next as nat, ..self };
                let counted = Stream { body_bytes: self.body_bytes + size, ..behind };
                if size == 0 {
                    behind.finish(buffer)
                } else if self.body_bytes + size > self.bounds.body_bytes {
                    Step::Stop(behind, Err(Rejection::payload_too_large()))
                } else if self.chunks >= self.bounds.chunks {
                    Step::Stop(counted, Err(Rejection::too_many_chunks()))
                } else {
                    Step::Continue(
                        Stream { pending: Some(size), chunks: self.chunks + 1, ..counted },
                    )
                }
            },
        }
    }

    /// One step of a decoder.
    #[verifier::opaque]
    pub open spec fn step(self, buffer: Seq<u8>) -> Step {
        if self.ending {
            self.finish(buffer)
        } else {
            match self.pending {
                Some(remaining) => self.take_data(buffer, remaining),
                None => self.take_size(buffer),
            }
        }
    }

    /// What a call of a decoder does: the steps up to the one that ends it.
    pub open spec fn advance(self, buffer: Seq<u8>) -> (Stream, Report)
        decreases buffer.len() - self.position,
    {
        proof {
            lemma_step_moves(self, buffer);
        }
        match self.step(buffer) {
            Step::Continue(next) => next.advance(buffer),
            Step::Stop(last, report) => (last, report),
        }
    }

    /// What calls up to the first that hands out no data do: the data handed out,
    /// one piece behind the other, and the last report.
    pub open spec fn drain(self, buffer: Seq<u8>) -> (Stream, Seq<u8>, Report)
        decreases buffer.len() - self.position,
    {
        proof {
            data_ends_the_consumed_prefix(self, buffer);
        }
        match self.advance(buffer) {
            (next, Ok(Event::Data { start, end })) => {
                let (last, data, report) = next.drain(buffer);
                (last, buffer.subrange(start as int, end as int) + data, report)
            },
            (last, report) => (last, Seq::empty(), report),
        }
    }

    /// A decoder whose caller has discarded `count` bytes in front.
    pub open spec fn rebased(self, count: nat) -> Stream {
        Stream { position: (self.position - count) as nat, ..self }
    }
}

/// A report on a buffer of which `count` bytes in front have been discarded.
pub open spec fn rebased_report(report: Report, count: nat) -> Report {
    match report {
        Ok(Event::Data { start, end }) => Ok(
            Event::Data { start: (start - count) as nat, end: (end - count) as nat },
        ),
        Ok(Event::Complete { consumed }) => Ok(
            Event::Complete { consumed: (consumed - count) as nat },
        ),
        _ => report,
    }
}

/// A decoder that goes on has moved, and not over the end of the buffer.
pub proof fn lemma_step_moves(stream: Stream, buffer: Seq<u8>)
    ensures
        stream.step(buffer) matches Step::Continue(next) ==> stream.position < next.position
            <= buffer.len(),
{
    reveal(Stream::step);
    bytes::lemma_find(buffer, bytes::crlf(), stream.position as int);
}

/// Data that is handed out is not empty, lies in the buffer behind what was
/// consumed before, and ends where the consumed prefix then ends.
pub proof fn data_ends_the_consumed_prefix(stream: Stream, buffer: Seq<u8>)
    ensures
        stream.advance(buffer).1 matches Ok(Event::Data { start, end }) ==> stream.position <= start
            < end == stream.advance(buffer).0.position <= buffer.len(),
    decreases buffer.len() - stream.position,
{
    reveal(Stream::step);
    lemma_step_moves(stream, buffer);
    if let Step::Continue(next) = stream.step(buffer) {
        data_ends_the_consumed_prefix(next, buffer);
    }
}

/// Where a body is complete, it lies in the buffer behind what was consumed
/// before, and ends where the consumed prefix then ends.
pub proof fn completion_ends_the_consumed_prefix(stream: Stream, buffer: Seq<u8>)
    ensures
        stream.advance(buffer).1 matches Ok(Event::Complete { consumed }) ==> stream.position
            < consumed == stream.advance(buffer).0.position <= buffer.len(),
    decreases buffer.len() - stream.position,
{
    reveal(Stream::step);
    let position = stream.position as int;
    let limit = stream.bounds.header_bytes;
    lemma_step_moves(stream, buffer);
    frame::lemma_frames_cut(buffer, position, limit, 0);
    if let SizeLine::Size { size, next } = frame::size_line(buffer, position, limit) {
        frame::lemma_frames_cut(buffer, next, limit, 0);
    }
    if let Step::Continue(next) = stream.step(buffer) {
        completion_ends_the_consumed_prefix(next, buffer);
    }
}

/// What `advance` does with a longer buffer, where `short` is what it does with
/// the bytes `received` so far and `long` what it does with all of them.
spec fn grown(
    received: Seq<u8>,
    buffer: Seq<u8>,
    short: (Stream, Report),
    long: (Stream, Report),
) -> bool {
    match short.1 {
        Ok(Event::NeedMore) => short.0.advance(buffer) == long,
        Ok(Event::Complete { .. }) => long == short,
        Ok(Event::Data { start, end }) => {
            &&& long.1 matches Ok(Event::Data { start: from, end: to })
            &&& from == start < end <= received.len()
            &&& end <= to <= buffer.len()
            &&& end == to ==> long == short
            &&& end < to ==> {
                &&& short.0.advance(received) == (short.0, Report::Ok(Event::NeedMore))
                &&& short.0.advance(buffer) == (
                    long.0,
                    Report::Ok(Event::Data { start: end, end: to }),
                )
            }
        },
        Err(_) => true,
    }
}

proof fn lemma_advance_grows(stream: Stream, received: Seq<u8>, buffer: Seq<u8>)
    requires
        received.is_prefix_of(buffer),
    ensures
        grown(received, buffer, stream.advance(received), stream.advance(buffer)),
    decreases received.len() - stream.position,
{
    let position = stream.position as int;
    lemma_step_moves(stream, received);
    reveal(Stream::step);
    if stream.ending {
        frame::lemma_ending_grows(received, buffer, position, stream.bounds.header_bytes);
    } else {
        match stream.pending {
            Some(remaining) => {
                if remaining == 0 && position + 2 <= received.len() {
                    assert(received.subrange(position, position + 2) =~= buffer.subrange(
                        position,
                        position + 2,
                    ));
                }
            },
            None => {
                frame::lemma_size_line_grows(
                    received,
                    buffer,
                    position,
                    stream.bounds.header_bytes,
                );
                if let SizeLine::Size { size, next } = frame::size_line(
                    received,
                    position,
                    stream.bounds.header_bytes,
                ) {
                    frame::lemma_ending_grows(received, buffer, next, stream.bounds.header_bytes);
                }
            },
        }
    }
    if let Step::Continue(next) = stream.step(received) {
        assert(stream.step(buffer) == Step::Continue(next));
        lemma_advance_grows(next, received, buffer);
    }
}

/// Streaming is incremental: a decoder that has handed out what it got, and then
/// gets more bytes, hands out the rest of what it would have handed out with
/// all the bytes at once, and reports the same at the end.
pub proof fn streaming_is_incremental(stream: Stream, received: Seq<u8>, buffer: Seq<u8>)
    requires
        received.is_prefix_of(buffer),
        stream.drain(received).2 == Report::Ok(Event::NeedMore),
    ensures
        ({
            let (waiting, first, _) = stream.drain(received);
            let (last, second, report) = waiting.drain(buffer);
            stream.drain(buffer) == (last, first + second, report)
        }),
    decreases received.len() - stream.position,
{
    lemma_advance_grows(stream, received, buffer);
    data_ends_the_consumed_prefix(stream, received);
    let (waiting, first, _) = stream.drain(received);
    let (_, second, _) = waiting.drain(buffer);
    match stream.advance(received) {
        (next, Ok(Event::Data { start, end })) => {
            let piece = received.subrange(start as int, end as int);
            assert(piece =~= buffer.subrange(start as int, end as int));
            if let (later, Ok(Event::Data { start: _, end: to })) = stream.advance(buffer) {
                if end == to {
                    streaming_is_incremental(next, received, buffer);
                    assert(first + second =~= piece + (next.drain(received).1 + second));
                } else {
                    assert(first =~= piece);
                    let more = buffer.subrange(end as int, to as int);
                    assert(buffer.subrange(start as int, to as int) =~= piece + more);
                    assert(piece + (more + later.drain(buffer).1) =~= (piece + more)
                        + later.drain(buffer).1);
                }
            }
        },
        _ => {
            assert(first + second =~= second);
        },
    }
}

/// The bytes behind a body do not change how it is decoded.
pub proof fn streamed_body_ignores_later_bytes(
    stream: Stream,
    received: Seq<u8>,
    buffer: Seq<u8>,
)
    requires
        received.is_prefix_of(buffer),
        stream.drain(received).2 matches Ok(Event::Complete { .. }),
    ensures
        stream.drain(buffer) == stream.drain(received),
    decreases received.len() - stream.position,
{
    lemma_advance_grows(stream, received, buffer);
    data_ends_the_consumed_prefix(stream, received);
    if let (next, Ok(Event::Data { start, end })) = stream.advance(received) {
        assert(received.subrange(start as int, end as int) =~= buffer.subrange(
            start as int,
            end as int,
        ));
        streamed_body_ignores_later_bytes(next, received, buffer);
    }
}

/// One step into a cut buffer, where `short` is that step and `long` the same
/// step into the whole buffer: it is the same step, or hands out less data, or
/// waits, or rejects what is rejected in any case or longer than the limit.
spec fn cut_step(stream: Stream, received: Seq<u8>, short: Step, long: Step) -> bool {
    match short {
        Step::Continue(_) => long == short,
        Step::Stop(_, Ok(Event::Complete { .. })) => long == short,
        Step::Stop(last, Ok(Event::NeedMore)) => last.position >= stream.position,
        Step::Stop(last, Ok(Event::Data { start, end })) => {
            &&& long matches Step::Stop(_, Ok(Event::Data { start: from, end: to }))
            &&& start == from == stream.position < end == last.position <= to
            &&& end == to ==> long == short
            &&& end < to ==> end == received.len() && last.step(received) == Step::Stop(
                last,
                Report::Ok(Event::NeedMore),
            )
        },
        Step::Stop(last, Err(_)) => {
            &&& last.position >= stream.position
            &&& received.len() <= last.position + stream.bounds.header_bytes ==> {
                long matches Step::Stop(_, Err(_))
            }
        },
    }
}

proof fn lemma_cut_step(stream: Stream, received: Seq<u8>, buffer: Seq<u8>)
    requires
        received.is_prefix_of(buffer),
    ensures
        cut_step(stream, received, stream.step(received), stream.step(buffer)),
{
    reveal(Stream::step);
    let position = stream.position as int;
    let limit = stream.bounds.header_bytes;
    if position + 2 <= received.len() {
        assert(received.subrange(position, position + 2) =~= buffer.subrange(
            position,
            position + 2,
        ));
    }
    frame::lemma_size_line_grows(received, buffer, position, limit);
    frame::lemma_ending_grows(received, buffer, position, limit);
    if received.len() - position <= limit {
        frame::lemma_rejections_grow(received, buffer, position, limit);
    }
    if let SizeLine::Size { size, next } = frame::size_line(received, position, limit) {
        frame::lemma_ending_grows(received, buffer, next, limit);
        if received.len() - next <= limit {
            frame::lemma_rejections_grow(received, buffer, next, limit);
        }
    }
}

/// A step that is there as a whole is the same without the bytes behind it.
proof fn lemma_whole_step(stream: Stream, buffer: Seq<u8>, len: int)
    requires
        0 <= len <= buffer.len(),
        match stream.step(buffer) {
            Step::Continue(next) => next.position <= len,
            Step::Stop(last, Ok(Event::Data { .. })) => last.position <= len,
            Step::Stop(last, Ok(Event::Complete { .. })) => last.position <= len,
            _ => false,
        },
    ensures
        stream.step(buffer.take(len)) == stream.step(buffer),
{
    reveal(Stream::step);
    let position = stream.position as int;
    let limit = stream.bounds.header_bytes;
    let cut = buffer.take(len);
    if position + 2 <= len {
        assert(cut.subrange(position, position + 2) =~= buffer.subrange(position, position + 2));
    }
    frame::lemma_frames_cut(buffer, position, limit, len);
    if let SizeLine::Size { size, next } = frame::size_line(buffer, position, limit) {
        frame::lemma_frames_cut(buffer, next, limit, len);
    }
}

/// What is drained, step by step.
proof fn lemma_drain_steps(stream: Stream, buffer: Seq<u8>)
    ensures
        match stream.step(buffer) {
            Step::Continue(next) => stream.drain(buffer) == next.drain(buffer),
            Step::Stop(next, Ok(Event::Data { start, end })) => {
                let (last, data, report) = next.drain(buffer);
                stream.drain(buffer) == (
                    last,
                    buffer.subrange(start as int, end as int) + data,
                    report,
                )
            },
            Step::Stop(last, report) => stream.drain(buffer) == (last, Seq::<u8>::empty(), report),
        },
{
}

proof fn lemma_drain_cut(stream: Stream, buffer: Seq<u8>, len: int)
    requires
        stream.drain(buffer).2 matches Ok(Event::Complete { consumed }) && consumed <= len,
    ensures
        stream.drain(buffer).2 matches Ok(Event::Complete { consumed }) && (stream.position
            < consumed <= buffer.len()),
        len <= buffer.len() ==> stream.drain(buffer.take(len)) == stream.drain(buffer),
    decreases buffer.len() - stream.position,
{
    let cut = buffer.take(len);
    lemma_step_moves(stream, buffer);
    completion_ends_the_consumed_prefix(stream, buffer);
    data_ends_the_consumed_prefix(stream, buffer);
    lemma_drain_steps(stream, buffer);
    lemma_drain_steps(stream, cut);
    match stream.step(buffer) {
        Step::Continue(next) => {
            lemma_drain_cut(next, buffer, len);
            if len <= buffer.len() {
                lemma_whole_step(stream, buffer, len);
            }
        },
        Step::Stop(next, Ok(Event::Data { start, end })) => {
            lemma_drain_cut(next, buffer, len);
            if len <= buffer.len() {
                lemma_whole_step(stream, buffer, len);
                assert(cut.subrange(start as int, end as int) =~= buffer.subrange(
                    start as int,
                    end as int,
                ));
            }
        },
        Step::Stop(_, _) => {
            if len <= buffer.len() {
                lemma_whole_step(stream, buffer, len);
            }
        },
    }
}

/// The bytes in front of its end alone decide how a body is handed out, and it
/// does not end in front of them.
pub proof fn streamed_body_rests_on_its_bytes_alone(
    stream: Stream,
    buffer: Seq<u8>,
    other: Seq<u8>,
)
    requires
        stream.drain(buffer).2 matches Ok(Event::Complete { consumed }) && buffer.take(
            consumed as int,
        ).is_prefix_of(other),
    ensures
        stream.drain(buffer).2 matches Ok(Event::Complete { consumed }) && (stream.position
            < consumed <= buffer.len()),
        stream.drain(other) == stream.drain(buffer),
{
    if let Ok(Event::Complete { consumed }) = stream.drain(buffer).2 {
        lemma_drain_cut(stream, buffer, consumed as int);
        streamed_body_ignores_later_bytes(stream, buffer.take(consumed as int), other);
    }
}

/// A body that has not arrived as a whole is waited for, wherever it is cut: the
/// decoder hands out what it has and asks for more bytes, unless a line or the
/// trailers at which it stands are already longer than its limit for heads.
pub proof fn cut_streams_are_waited_for(stream: Stream, buffer: Seq<u8>, arrived: int)
    requires
        stream.drain(buffer).2 matches Ok(Event::Complete { consumed }) && 0 <= arrived < consumed,
    ensures
        ({
            let (last, _, report) = stream.drain(buffer.take(arrived));
            &&& stream.position <= last.position
            &&& arrived <= last.position + stream.bounds.header_bytes ==> report == Report::Ok(
                Event::NeedMore,
            )
            &&& report == Report::Ok(Event::NeedMore) || report is Err
        }),
        arrived <= stream.position + stream.bounds.header_bytes ==> stream.drain(
            buffer.take(arrived),
        ).2 == Report::Ok(Event::NeedMore),
    decreases buffer.len() - stream.position,
{
    let cut = buffer.take(arrived);
    if let Ok(Event::Complete { consumed }) = stream.drain(buffer).2 {
        lemma_drain_cut(stream, buffer, consumed as int);
    }
    lemma_step_moves(stream, buffer);
    data_ends_the_consumed_prefix(stream, buffer);
    lemma_bounds_stay(stream, buffer);
    lemma_drain_steps(stream, buffer);
    lemma_drain_steps(stream, cut);
    lemma_cut_step(stream, cut, buffer);
    match stream.step(cut) {
        Step::Continue(next) => {
            cut_streams_are_waited_for(next, buffer, arrived);
        },
        Step::Stop(next, Ok(Event::Data { start, end })) => {
            if stream.step(buffer) == stream.step(cut) {
                cut_streams_are_waited_for(next, buffer, arrived);
            } else {
                lemma_drain_steps(next, cut);
            }
        },
        Step::Stop(_, Ok(Event::Complete { consumed })) => {
            lemma_drain_cut(stream, cut, consumed as int);
        },
        Step::Stop(_, _) => {},
    }
}

/// No step changes the limits.
proof fn lemma_bounds_stay(stream: Stream, buffer: Seq<u8>)
    ensures
        match stream.step(buffer) {
            Step::Continue(next) => next.bounds == stream.bounds,
            Step::Stop(last, _) => last.bounds == stream.bounds,
        },
{
    reveal(Stream::step);
}

/// No decoder lets more data or more chunks through than its limits allow,
/// whatever it is given, and its limits stay as they are.
pub proof fn streaming_stays_within_bounds(stream: Stream, buffer: Seq<u8>)
    requires
        stream.within_bounds(),
    ensures
        stream.advance(buffer).0.within_bounds(),
        stream.advance(buffer).0.bounds == stream.bounds,
        ({
            let (next, report) = stream.advance(buffer);
            let handed_out = match report {
                Ok(Event::Data { start, end }) => end - start,
                _ => 0,
            };
            handed_out + next.outstanding() - stream.outstanding() <= next.body_bytes
                - stream.body_bytes
        }),
    decreases buffer.len() - stream.position,
{
    reveal(Stream::step);
    lemma_step_moves(stream, buffer);
    if let Step::Continue(next) = stream.step(buffer) {
        streaming_stays_within_bounds(next, buffer);
    }
}

/// A decoder hands out no more data than the chunks it has read hold, and no
/// more than its limits allow.
pub proof fn drained_data_stays_within_bounds(stream: Stream, buffer: Seq<u8>)
    requires
        stream.within_bounds(),
    ensures
        ({
            let (last, data, _) = stream.drain(buffer);
            &&& last.within_bounds()
            &&& last.bounds == stream.bounds
            &&& data.len() + last.outstanding() - stream.outstanding() <= last.body_bytes
                - stream.body_bytes
        }),
    decreases buffer.len() - stream.position,
{
    streaming_stays_within_bounds(stream, buffer);
    data_ends_the_consumed_prefix(stream, buffer);
    if let (next, Ok(Event::Data { .. })) = stream.advance(buffer) {
        drained_data_stays_within_bounds(next, buffer);
    }
}

/// Discarding a consumed prefix changes nothing but the offsets: the decoder
/// does with the rest of the buffer what it would have done with all of it.
/// (A buffer holds fewer than `usize::MAX - 1` bytes.)
pub proof fn discarding_a_prefix_only_moves_offsets(stream: Stream, buffer: Seq<u8>, count: nat)
    requires
        count <= stream.position,
        count <= buffer.len(),
        stream.position + 2 <= usize::MAX,
        buffer.len() + 2 <= usize::MAX,
    ensures
        stream.rebased(count).advance(buffer.skip(count as int)) == (
            stream.advance(buffer).0.rebased(count),
            rebased_report(stream.advance(buffer).1, count),
        ),
    decreases buffer.len() - stream.position,
{
    let position = stream.position as int;
    let rest = buffer.skip(count as int);
    lemma_step_moves(stream, buffer);
    reveal(Stream::step);
    frame::lemma_frames_shift(buffer, position, stream.bounds.header_bytes, count as int);
    bytes::lemma_find_shifts(buffer, bytes::crlf(), position, count as int);
    assert(bytes::occurs_at(rest, bytes::crlf(), position - count) == bytes::occurs_at(
        buffer,
        bytes::crlf(),
        position,
    ));
    if let SizeLine::Size { size, next } = frame::size_line(
        buffer,
        position,
        stream.bounds.header_bytes,
    ) {
        frame::lemma_frames_shift(buffer, next, stream.bounds.header_bytes, count as int);
    }
    if let Step::Continue(next) = stream.step(buffer) {
        assert(stream.rebased(count).step(rest) == Step::Continue(next.rebased(count)));
        discarding_a_prefix_only_moves_offsets(next, buffer, count);
    }
}

/// The two decoders stand at the same place of the same body.
pub open spec fn in_step(stream: Stream, progress: Progress) -> bool {
    &&& stream.position == progress.position
    &&& stream.pending == progress.pending
    &&& stream.pending != Some(0nat)
    &&& stream.ending == progress.ending
    &&& stream.ending ==> stream.pending is None
    &&& stream.body_bytes == progress.body.len() + stream.outstanding()
    &&& stream.chunks == progress.chunks
    &&& stream.bounds == progress.bounds
}

/// The decoders wait at the same place of the same body: what one has handed out
/// since the other had collected `before` is what the other has collected since,
/// and of a chunk that has not arrived as a whole all the data that has.
pub open spec fn wait_alike(
    stream: Stream,
    data: Seq<u8>,
    progress: Progress,
    before: Seq<u8>,
    buffer: Seq<u8>,
) -> bool {
    let whole = Stream {
        position: progress.position,
        pending: progress.pending,
        ..stream
    };
    &&& in_step(whole, progress)
    &&& match progress.pending {
        None => stream == whole && before + data == progress.body,
        Some(size) => {
            &&& stream.position == (if buffer.len() < progress.position {
                progress.position
            } else if buffer.len() < progress.position + size {
                buffer.len()
            } else {
                progress.position + size
            })
            &&& stream.position + stream.outstanding() == progress.position + size
            &&& stream.position <= buffer.len() ==> before + data == progress.body
                + buffer.subrange(progress.position as int, stream.position as int)
            &&& stream.position > buffer.len() ==> before + data == progress.body
        },
    }
}

/// What is drained of a chunk whose data is pending.
proof fn lemma_drain_pending(stream: Stream, buffer: Seq<u8>, size: nat)
    requires
        !stream.ending,
        stream.pending == Some(size),
        size > 0,
    ensures
        ({
            let end = stream.position + size;
            let behind = Stream { position: end + 2, pending: None, ..stream };
            let (last, data, report) = stream.drain(buffer);
            let reached = if buffer.len() < stream.position {
                stream.position
            } else if buffer.len() < end {
                buffer.len()
            } else {
                end
            };
            let waiting = Stream { position: reached, pending: last.pending, ..stream };
            let arrived = if buffer.len() < stream.position {
                Seq::empty()
            } else {
                buffer.subrange(stream.position as int, reached as int)
            };
            if buffer.len() < end {
                &&& report == Report::Ok(Event::NeedMore)
                &&& last == waiting
                &&& last.pending == Some((end - reached) as nat)
                &&& data == arrived
            } else if end + 2 > usize::MAX {
                report == Report::Err(Rejection::bad_request())
            } else if buffer.len() < end + 2 {
                &&& report == Report::Ok(Event::NeedMore)
                &&& last == waiting
                &&& last.pending == Some((end - reached) as nat)
                &&& data == arrived
            } else if !bytes::occurs_at(buffer, bytes::crlf(), end as int) {
                report == Report::Err(Rejection::bad_request())
            } else {
                let (behind_last, behind_data, behind_report) = behind.drain(buffer);
                &&& last == behind_last
                &&& data == buffer.subrange(stream.position as int, end as int) + behind_data
                &&& report == behind_report
            }
        }),
{
    let end = stream.position + size;
    reveal(Stream::step);
    reveal_with_fuel(Stream::drain, 2);
    if buffer.len() > stream.position {
        let reached = if buffer.len() < end {
            buffer.len()
        } else {
            end
        };
        let next = Stream {
            position: reached,
            pending: Some((end - reached) as nat),
            ..stream
        };
        assert(stream.advance(buffer) == (
            next,
            Report::Ok(Event::Data { start: stream.position, end: reached }),
        ));
        if end + 2 <= usize::MAX && end + 2 <= buffer.len() && bytes::occurs_at(
            buffer,
            bytes::crlf(),
            end as int,
        ) {
            let behind = Stream { position: end + 2, pending: None, ..stream };
            assert(next.step(buffer) == Step::Continue(behind));
            lemma_drain_steps(next, buffer);
        }
    }
}

/// The two decoders agree: given the same bytes, one hands out piece by piece
/// the body that the other collects, and they accept, wait, and reject alike.
/// The one exception is a chunk that could not end below `usize::MAX`: the
/// collecting decoder rejects it at once, the other when its data has arrived.
pub proof fn decoders_agree(stream: Stream, progress: Progress, buffer: Seq<u8>)
    requires
        in_step(stream, progress),
    ensures
        ({
            let (last, data, report) = stream.drain(buffer);
            let (end, verdict) = progress.advance(buffer);
            match (report, verdict) {
                (Ok(Event::Complete { consumed }), Ok(Some(decoded))) => {
                    &&& decoded.consumed == consumed
                    &&& decoded.body == progress.body + data
                    &&& last.body_bytes == decoded.body.len()
                },
                (Ok(Event::NeedMore), Ok(None)) => {
                    wait_alike(last, data, end, progress.body, buffer)
                },
                (Err(left), Err(right)) => left == right,
                (Ok(Event::NeedMore), Err(rejection)) => {
                    &&& rejection == Rejection::bad_request()
                    &&& end.pending matches Some(size)
                    &&& end.position + size + 2 > usize::MAX
                },
                _ => false,
            }
        }),
    decreases buffer.len() - progress.position,
{
    reveal(Stream::step);
    chunk::lemma_step_moves(progress, buffer);
    match progress.step(buffer) {
        chunk::Step::Continue(further) => match progress.pending {
            Some(size) => {
                lemma_drain_pending(stream, buffer, size);
                let next = Stream {
                    position: stream.position + size + 2,
                    pending: None,
                    ..stream
                };
                decoders_agree(next, further, buffer);
                let data = stream.drain(buffer).1;
                assert(progress.body + data =~= further.body + next.drain(buffer).1);
            },
            None => {
                let next = Stream {
                    position: further.position,
                    pending: further.pending,
                    chunks: further.chunks,
                    body_bytes: stream.body_bytes + further.pending->0,
                    ..stream
                };
                assert(stream.step(buffer) == Step::Continue(next));
                lemma_drain_steps(stream, buffer);
                decoders_agree(next, further, buffer);
            },
        },
        chunk::Step::Stop(_, verdict) => {
            if !progress.ending {
                if let Some(size) = progress.pending {
                    lemma_drain_pending(stream, buffer, size);
                } else {
                    assert(stream.step(buffer) is Stop);
                }
            }
            if let Ok(Some(decoded)) = verdict {
                assert(progress.body + stream.drain(buffer).1 =~= progress.body);
            }
        },
    }
}

/// Streaming gives back what encoding wrote: of the frames of chunks, none of
/// them empty, and the frame of the last chunk, the data of the chunks is
/// handed out, and the body ends behind the last frame.
pub proof fn encoded_chunks_stream(stream: Stream, buffer: Seq<u8>, chunks: Seq<Seq<u8>>)
    requires
        !stream.ending,
        stream.pending is None,
        forall|i: int| 0 <= i < chunks.len() ==> (#[trigger] chunks[i]).len() > 0,
        stream.body_bytes + chunk::joined(chunks).len() <= stream.bounds.body_bytes,
        stream.chunks + chunks.len() <= stream.bounds.chunks,
        bytes::occurs_at(
            buffer,
            frame::chunk_frames(chunks) + frame::LAST_CHUNK@,
            stream.position as int,
        ),
        buffer.len() <= usize::MAX,
    ensures
        stream.drain(buffer).1 == chunk::joined(chunks),
        stream.drain(buffer).2 == Report::Ok(
            Event::Complete {
                consumed: stream.position + frame::chunk_frames(chunks).len() + 5,
            },
        ),
        stream.drain(buffer).0.body_bytes == stream.body_bytes + chunk::joined(chunks).len(),
{
    let before = Seq::new(stream.body_bytes, |i: int| 0u8);
    let progress = Progress {
        position: stream.position,
        pending: None,
        ending: false,
        body: before,
        chunks: stream.chunks,
        bounds: stream.bounds,
    };
    decoders_agree(stream, progress, buffer);
    chunk::encoded_chunks_decode(progress, buffer, chunks);
    let data = stream.drain(buffer).1;
    assert(before + data == before + chunk::joined(chunks));
    assert((before + data).skip(before.len() as int) =~= data);
    assert((before + chunk::joined(chunks)).skip(before.len() as int) =~= chunk::joined(chunks));
}

/// Zero-aggregate incremental chunked decoder for streaming request bodies.
///
/// Unlike [`ChunkDecoder`](crate::chunk::ChunkDecoder), this decoder never builds
/// a complete body. Each returned range can be copied into a bounded transport
/// channel and released before reading the next network chunk.
#[derive(Debug)]
pub struct StreamingChunkDecoder {
    position: usize,
    pending_size: Option<usize>,
    ending: bool,
    body_bytes: usize,
    chunks: usize,
    limits: Limits,
}

impl View for StreamingChunkDecoder {
    type V = Stream;

    closed spec fn view(&self) -> Stream {
        Stream {
            position: self.position as nat,
            pending: match self.pending_size {
                Some(size) => Some(size as nat),
                None => None,
            },
            ending: self.ending,
            body_bytes: self.body_bytes as nat,
            chunks: self.chunks as nat,
            bounds: self.limits@,
        }
    }
}

impl StreamingChunkDecoder {
    /// A decoder for the body that starts at `position` of the receive buffer.
    #[must_use]
    pub fn new(position: usize, limits: Limits) -> (decoder: Self)
        ensures
            decoder@ == Stream::start(position as nat, limits@),
    {
        StreamingChunkDecoder {
            position,
            pending_size: None,
            ending: false,
            body_bytes: 0,
            chunks: 0,
            limits,
        }
    }

    /// Reads what stands behind the line of the last chunk.
    fn finish(&mut self, buffer: &[u8]) -> (event: Result<StreamingChunk, ParseError>)
        ensures
            old(self)@.finish(buffer@) == Step::Stop(final(self)@, report(event)),
    {
        self.ending = false;
        match frame::read_ending(buffer, self.position, self.limits.header_bytes()) {
            Err(error) => Err(error),
            Ok(None) => {
                self.ending = true;
                Ok(StreamingChunk::NeedMore)
            },
            Ok(Some(consumed)) => {
                self.position = consumed;
                Ok(StreamingChunk::Complete { consumed })
            },
        }
    }

    /// Advances by at most one decoded data chunk.
    ///
    /// # Errors
    ///
    /// Returns a bounded protocol rejection for malformed chunks/trailers or
    /// configured body and chunk-count limit violations.
    pub fn advance(&mut self, buffer: &[u8]) -> (event: Result<StreamingChunk, ParseError>)
        ensures
            old(self)@.advance(buffer@) == (final(self)@, report(event)),
    {
        loop
            invariant
                self@.advance(buffer@) == old(self)@.advance(buffer@),
            decreases buffer@.len() - self@.position,
        {
            proof {
                reveal(Stream::step);
                lemma_step_moves(self@, buffer@);
            }
            if self.ending {
                return self.finish(buffer);
            }
            if let Some(remaining) = self.pending_size {
                if remaining > 0 {
                    let received = buffer.len().saturating_sub(self.position);
                    if received == 0 {
                        return Ok(StreamingChunk::NeedMore);
                    }
                    let available = if received < remaining {
                        received
                    } else {
                        remaining
                    };
                    let data = ByteRange { start: self.position, end: self.position + available };
                    self.position = data.end;
                    self.pending_size = Some(remaining - available);
                    return Ok(StreamingChunk::Data(data));
                }
                let chunk_end = match self.position.checked_add(2) {
                    None => return Err(ParseError::bad_request()),
                    Some(chunk_end) => chunk_end,
                };
                if buffer.len() < chunk_end {
                    return Ok(StreamingChunk::NeedMore);
                }
                if !bytes::matches_at(buffer, &[bytes::CR, bytes::LF], self.position) {
                    return Err(ParseError::bad_request());
                }
                self.position = chunk_end;
                self.pending_size = None;
                continue;
            }
            let (size, next) = match frame::read_size_line(
                buffer,
                self.position,
                self.limits.header_bytes(),
            ) {
                Err(error) => return Err(error),
                Ok(None) => return Ok(StreamingChunk::NeedMore),
                Ok(Some(line)) => line,
            };
            self.position = next;
            if size == 0 {
                return self.finish(buffer);
            }
            if size > self.limits.body_bytes().saturating_sub(self.body_bytes) {
                return Err(ParseError::payload_too_large());
            }
            self.body_bytes = self.body_bytes + size;
            if self.chunks >= self.limits.chunks() {
                return Err(ParseError::too_many_chunks());
            }
            self.chunks = self.chunks + 1;
            self.pending_size = Some(size);
        }
    }

    /// The sizes of the chunks read so far, added up.
    #[must_use]
    pub fn body_bytes(&self) -> (bytes: usize)
        ensures
            bytes == self@.body_bytes,
    {
        self.body_bytes
    }

    /// Wire prefix fully consumed by emitted events.
    #[must_use]
    pub fn consumed_prefix(&self) -> (bytes: usize)
        ensures
            bytes == self@.position,
    {
        self.position
    }

    /// Rebases decoder offsets after the caller discards a consumed prefix of at
    /// most [`Self::consumed_prefix`] bytes.
    pub fn discard_prefix(&mut self, bytes: usize)
        requires
            bytes <= old(self)@.position,
        ensures
            final(self)@ == old(self)@.rebased(bytes as nat),
    {
        self.position = self.position - bytes;
    }
}

} // verus!
