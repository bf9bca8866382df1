//! The decoder that collects a chunked body.

use crate::bytes;
use crate::error;
use crate::error::{ParseError, Rejection};
use crate::frame;
use crate::frame::{Ending, SizeLine};
use crate::limits::{Bounds, Limits};
use crate::number;
use vstd::prelude::*;
use vstd::slice::slice_subrange;

verus! {

/// Complete decoded chunked body and total consumed wire bytes.
#[derive(Debug, Eq, PartialEq)]
pub struct DecodedChunkedBody {
    pub consumed: usize,
    pub body: Vec<u8>,
}

/// A decoded body as a mathematical value.
#[verifier::ext_equal]
pub struct Decoded {
    pub consumed: nat,
    pub body: Seq<u8>,
}

impl View for DecodedChunkedBody {
    type V = Decoded;

    open spec fn view(&self) -> Decoded {
        Decoded { consumed: self.consumed as nat, body: self.body@ }
    }
}

/// What one call of a decoder reports: a body, that more bytes are needed, or a
/// rejection.
pub type Verdict = Result<Option<Decoded>, Rejection>;

/// Where a decoder stands.
#[verifier::ext_equal]
pub struct Progress {
    /// The offset of the next byte to read.
    pub position: nat,
    /// The size of a chunk whose data has not arrived as a whole.
    pub pending: Option<nat>,
    /// The last chunk has been read, and what ends the body has not.
    pub ending: bool,
    /// The data of the chunks that have been read.
    pub body: Seq<u8>,
    /// The number of chunks whose size has been read.
    pub chunks: nat,
    pub bounds: Bounds,
}

/// What becomes of a decoder in one step.
pub enum Step {
    /// The decoder goes on.
    Continue(Progress),
    /// The call ends.
    Stop(Progress, Verdict),
}

impl Progress {
    /// A decoder in front of a body that starts at `position`.
    pub open spec fn start(position: nat, bounds: Bounds) -> Progress {
        Progress {
            position,
            pending: None,
            ending: false,
            body: Seq::empty(),
            chunks: 0,
            bounds,
        }
    }

    /// The body and the number of chunks are within the configured limits.
    pub open spec fn within_bounds(self) -> bool {
        &&& self.body.len() + (match self.pending {
            Some(size) => size,
            None => 0,
        }) <= self.bounds.body_bytes
        &&& self.chunks <= self.bounds.chunks
    }

    /// The step behind the line of the last chunk.
    pub open spec fn finish(self, buffer: Seq<u8>) -> Step {
        match frame::ending(buffer, self.position as int, self.bounds.header_bytes) {
            Ending::Incomplete => Step::Stop(Progress { ending: true, ..self }, Ok(None)),
            Ending::Rejected(rejection) => Step::Stop(
                Progress { ending: false, ..self },
                Err(rejection),
            ),
            Ending::Complete { consumed } => Step::Stop(
                Progress { ending: false, body: Seq::empty(), ..self },
                Ok(Some(Decoded { consumed: consumed as nat, body: self.body })),
            ),
        }
    }

    /// The step over the data of a chunk of `size` bytes.
    pub open spec fn take_data(self, buffer: Seq<u8>, size: nat) -> Step {
        let end = self.position + size;
        if end + 2 > usize::MAX {
            Step::Stop(self, Err(Rejection::bad_request()))
        } else if buffer.len() < end + 2 {
            Step::Stop(self, Ok(None))
        } else if !bytes::occurs_at(buffer, bytes::crlf(), end as int) {
            Step::Stop(self, Err(Rejection::bad_request()))
        } else {
            Step::Continue(
                Progress {
                    position: end + 2,
                    pending: None,
                    body: self.body + buffer.subrange(self.position as int, end as int),
                    ..self
                },
            )
        }
    }

    /// The step over a chunk-size line.
    pub open spec fn take_size(self, buffer: Seq<u8>) -> Step {
        match frame::size_line(buffer, self.position as int, self.bounds.header_bytes) {
            SizeLine::Incomplete => Step::Stop(self, Ok(None)),
            SizeLine::Malformed => Step::Stop(self, Err(Rejection::bad_request())),
            SizeLine::Size { size, next } => {
                let behind = Progress { position: next as nat, ..self };
                if size == 0 {
                    behind.finish(buffer)
                } else if self.body.len() + size > self.bounds.body_bytes {
                    Step::Stop(behind, Err(Rejection::payload_too_large()))
                } else if self.chunks >= self.bounds.chunks {
                    Step::Stop(behind, Err(Rejection::too_many_chunks()))
                } else {
                    Step::Continue(
                        Progress { pending: Some(size), chunks: self.chunks + 1, ..behind },
                    )
                }
            },
        }
    }

    /// One step of a decoder.
    pub open spec fn step(self, buffer: Seq<u8>) -> Step {
        if self.ending {
            self.finish(buffer)
        } else {
            match self.pending {
                Some(size) => self.take_data(buffer, size),
                None => self.take_size(buffer),
            }
        }
    }

    /// What a call of a decoder does: the steps up to the one that ends it.
    pub open spec fn advance(self, buffer: Seq<u8>) -> (Progress, Verdict)
        decreases buffer.len() - self.position,
    {
        proof {
            lemma_step_moves(self, buffer);
        }
        match self.step(buffer) {
            Step::Continue(next) => next.advance(buffer),
            Step::Stop(last, verdict) => (last, verdict),
        }
    }
}

/// A decoder that goes on has moved, and not over the end of the buffer.
pub proof fn lemma_step_moves(progress: Progress, buffer: Seq<u8>)
    ensures
        progress.step(buffer) matches Step::Continue(next) ==> progress.position < next.position
            <= buffer.len(),
{
    bytes::lemma_find(buffer, bytes::crlf(), progress.position as int);
}

/// A step that goes on, or that ends with a body, is the same whatever bytes
/// follow.
proof fn lemma_step_grows(progress: Progress, received: Seq<u8>, buffer: Seq<u8>)
    requires
        received.is_prefix_of(buffer),
    ensures
        match progress.step(received) {
            Step::Continue(_) => progress.step(buffer) == progress.step(received),
            Step::Stop(last, Ok(Some(_))) => progress.step(buffer) == progress.step(received),
            Step::Stop(last, Ok(None)) => match progress.step(buffer) {
                Step::Continue(next) => last == progress,
                Step::Stop(_, _) => last.step(buffer) == progress.step(buffer),
            },
            Step::Stop(_, Err(_)) => true,
        },
{
    let position = progress.position as int;
    if progress.ending {
        frame::lemma_ending_grows(received, buffer, position, progress.bounds.header_bytes);
    } else {
        match progress.pending {
            Some(size) => {
                let end = position + size;
                if end + 2 <= received.len() {
                    assert(received.subrange(end, end + 2) =~= buffer.subrange(end, end + 2));
                    assert(received.subrange(position, end) =~= buffer.subrange(position, end));
                }
            },
            None => {
                frame::lemma_size_line_grows(
                    received,
                    buffer,
                    position,
                    progress.bounds.header_bytes,
                );
                if let SizeLine::Size { size, next } = frame::size_line(
                    received,
                    position,
                    progress.bounds.header_bytes,
                ) {
                    frame::lemma_ending_grows(received, buffer, next, progress.bounds.header_bytes);
                }
            },
        }
    }
}

/// Decoding is incremental: a decoder that has asked for more bytes and then
/// gets them does what it would have done with all the bytes at once.
pub proof fn decoding_is_incremental(progress: Progress, received: Seq<u8>, buffer: Seq<u8>)
    requires
        received.is_prefix_of(buffer),
        progress.advance(received).1 == Verdict::Ok(None),
    ensures
        progress.advance(received).0.advance(buffer) == progress.advance(buffer),
    decreases received.len() - progress.position,
{
    lemma_step_moves(progress, received);
    lemma_step_grows(progress, received, buffer);
    if let Step::Continue(next) = progress.step(received) {
        decoding_is_incremental(next, received, buffer);
    }
}

/// The bytes behind a body do not change how it is decoded.
pub proof fn decoded_body_ignores_later_bytes(
    progress: Progress,
    received: Seq<u8>,
    buffer: Seq<u8>,
)
    requires
        received.is_prefix_of(buffer),
        progress.advance(received).1 matches Ok(Some(_)),
    ensures
        progress.advance(buffer) == progress.advance(received),
    decreases received.len() - progress.position,
{
    lemma_step_moves(progress, received);
    lemma_step_grows(progress, received, buffer);
    if let Step::Continue(next) = progress.step(received) {
        decoded_body_ignores_later_bytes(next, received, buffer);
    }
}

/// What is rejected in one step is rejected whatever bytes follow, but for the
/// length of a line or of trailers that are incomplete.
proof fn lemma_rejected_step_grows(progress: Progress, received: Seq<u8>, buffer: Seq<u8>)
    requires
        received.is_prefix_of(buffer),
    ensures
        progress.step(received) matches Step::Stop(last, Err(_)) ==> {
            ||| progress.step(buffer) matches Step::Stop(_, Err(_))
            ||| received.len() > last.position + progress.bounds.header_bytes
        },
        progress.step(received) matches Step::Stop(last, _) ==> last.position >= progress.position
            && last.bounds == progress.bounds,
{
    let position = progress.position as int;
    let limit = progress.bounds.header_bytes;
    if !progress.ending {
        if let Some(size) = progress.pending {
            let end = position + size;
            if end + 2 <= received.len() {
                assert(received.subrange(end, end + 2) =~= buffer.subrange(end, end + 2));
            }
        }
    }
    frame::lemma_size_line_grows(received, buffer, position, limit);
    if received.len() - position <= limit {
        frame::lemma_rejections_grow(received, buffer, position, limit);
    }
    if let SizeLine::Size { size, next } = frame::size_line(received, position, limit) {
        if received.len() - next <= limit {
            frame::lemma_rejections_grow(received, buffer, next, limit);
        }
    }
}

/// The bytes in front of its end alone decide how a body is decoded, and it does
/// not end in front of them.
pub proof fn decoded_body_rests_on_its_bytes_alone(
    progress: Progress,
    buffer: Seq<u8>,
    other: Seq<u8>,
)
    requires
        progress.advance(buffer).1 matches Ok(Some(decoded)) && buffer.take(
            decoded.consumed as int,
        ).is_prefix_of(other),
    ensures
        progress.advance(buffer).1 matches Ok(Some(decoded)) && progress.position < decoded.consumed
            <= buffer.len(),
        progress.advance(other) == progress.advance(buffer),
{
    let consumed = progress.advance(buffer).1->Ok_0->0.consumed as int;
    lemma_body_cut(progress, buffer, consumed);
    decoded_body_ignores_later_bytes(progress, buffer.take(consumed), other);
}

proof fn lemma_body_cut(progress: Progress, buffer: Seq<u8>, len: int)
    requires
        progress.advance(buffer).1 matches Ok(Some(decoded)) && decoded.consumed <= len,
    ensures
        progress.advance(buffer).1 matches Ok(Some(decoded)) && progress.position < decoded.consumed
            <= buffer.len(),
        len <= buffer.len() ==> progress.advance(buffer.take(len)) == progress.advance(buffer),
    decreases buffer.len() - progress.position,
{
    let position = progress.position as int;
    let limit = progress.bounds.header_bytes;
    lemma_step_moves(progress, buffer);
    frame::lemma_frames_cut(buffer, position, limit, 0);
    if let SizeLine::Size { size, next } = frame::size_line(buffer, position, limit) {
        frame::lemma_frames_cut(buffer, next, limit, 0);
    }
    if let Step::Continue(next) = progress.step(buffer) {
        lemma_body_cut(next, buffer, len);
    }
    if len <= buffer.len() {
        frame::lemma_frames_cut(buffer, position, limit, len);
        if let SizeLine::Size { size, next } = frame::size_line(buffer, position, limit) {
            frame::lemma_frames_cut(buffer, next, limit, len);
        }
        if !progress.ending {
            if let Some(size) = progress.pending {
                let cut = buffer.take(len);
                let end = position + size;
                if end + 2 <= len {
                    assert(cut.subrange(end, end + 2) =~= buffer.subrange(end, end + 2));
                    assert(cut.subrange(position, end) =~= buffer.subrange(position, end));
                }
            }
        }
        assert(progress.step(buffer.take(len)) == progress.step(buffer));
    }
}

/// A body that has not arrived as a whole is waited for, wherever it is cut: the
/// decoder asks for more bytes, unless a line or the trailers at which it stands
/// are already longer than its limit for heads.
pub proof fn cut_bodies_are_waited_for(progress: Progress, buffer: Seq<u8>, arrived: int)
    requires
        progress.advance(buffer).1 matches Ok(Some(decoded)) && 0 <= arrived < decoded.consumed,
    ensures
        ({
            let (last, verdict) = progress.advance(buffer.take(arrived));
            &&& progress.position <= last.position
            &&& arrived <= last.position + progress.bounds.header_bytes ==> verdict
                == Verdict::Ok(None)
            &&& verdict == Verdict::Ok(None) || verdict is Err
        }),
        arrived <= progress.position + progress.bounds.header_bytes ==> progress.advance(
            buffer.take(arrived),
        ).1 == Verdict::Ok(None),
    decreases buffer.len() - progress.position,
{
    let cut = buffer.take(arrived);
    let limit = progress.bounds.header_bytes;
    lemma_body_cut(progress, buffer, progress.advance(buffer).1->Ok_0->0.consumed as int);
    lemma_step_moves(progress, buffer);
    lemma_step_moves(progress, cut);
    lemma_step_grows(progress, cut, buffer);
    lemma_rejected_step_grows(progress, cut, buffer);
    match progress.step(cut) {
        Step::Continue(next) => {
            cut_bodies_are_waited_for(next, buffer, arrived);
            assert(next.bounds == progress.bounds);
        },
        Step::Stop(last, verdict) => {
            if let Ok(Some(decoded)) = verdict {
                lemma_body_cut(progress, cut, decoded.consumed as int);
            }
            if let Err(_) = verdict {
                if arrived <= last.position + limit {
                    assert(progress.step(buffer) matches Step::Stop(_, Err(_)));
                }
            }
        },
    }
}

/// No decoder collects more bytes or counts more chunks than its limits allow,
/// whatever it is given, and its limits stay as they are.
pub proof fn decoding_stays_within_bounds(progress: Progress, buffer: Seq<u8>)
    requires
        progress.within_bounds(),
    ensures
        progress.advance(buffer).0.within_bounds(),
        progress.advance(buffer).0.bounds == progress.bounds,
        progress.advance(buffer).1 matches Ok(Some(decoded)) ==> decoded.body.len()
            <= progress.bounds.body_bytes,
    decreases buffer.len() - progress.position,
{
    lemma_step_moves(progress, buffer);
    if let Step::Continue(next) = progress.step(buffer) {
        decoding_stays_within_bounds(next, buffer);
    }
}

/// The data of chunks, one behind the other.
pub open spec fn joined(chunks: Seq<Seq<u8>>) -> Seq<u8>
    decreases chunks.len(),
{
    if chunks.len() == 0 {
        Seq::empty()
    } else {
        chunks[0] + joined(chunks.skip(1))
    }
}

/// Decoding gives back what encoding wrote: the frames of chunks, none of them
/// empty, and the frame of the last chunk are decoded to the data of the
/// chunks, and the body ends behind the last frame.
pub proof fn encoded_chunks_decode(progress: Progress, buffer: Seq<u8>, chunks: Seq<Seq<u8>>)
    requires
        !progress.ending,
        progress.pending is None,
        forall|i: int| 0 <= i < chunks.len() ==> (#[trigger] chunks[i]).len() > 0,
        progress.body.len() + joined(chunks).len() <= progress.bounds.body_bytes,
        progress.chunks + chunks.len() <= progress.bounds.chunks,
        bytes::occurs_at(
            buffer,
            frame::chunk_frames(chunks) + frame::LAST_CHUNK@,
            progress.position as int,
        ),
        buffer.len() <= usize::MAX,
    ensures
        progress.advance(buffer).1 == Verdict::Ok(
            Some(
                Decoded {
                    consumed: progress.position + frame::chunk_frames(chunks).len() + 5,
                    body: progress.body + joined(chunks),
                },
            ),
        ),
    decreases chunks.len(),
{
    let position = progress.position as int;
    let last = frame::LAST_CHUNK@;
    if chunks.len() == 0 {
        let zero = number::numeral(0, 16) + bytes::crlf();
        assert(frame::chunk_frames(chunks) + last =~= zero + bytes::crlf());
        bytes::lemma_occurs_parts(buffer, zero, bytes::crlf(), position);
        frame::lemma_reads_size(buffer, position, 0, progress.bounds.header_bytes);
        assert(progress.body + joined(chunks) =~= progress.body);
    } else {
        let data = chunks[0];
        let rest = chunks.skip(1);
        let line = number::numeral(data.len(), 16) + bytes::crlf();
        let remaining = frame::chunk_frames(rest) + last;
        assert(frame::chunk_frames(chunks) + last =~= line + (data + (bytes::crlf() + remaining)));
        let start = position + line.len();
        let end = start + data.len();
        bytes::lemma_occurs_parts(buffer, line, data + (bytes::crlf() + remaining), position);
        bytes::lemma_occurs_parts(buffer, data, bytes::crlf() + remaining, start);
        bytes::lemma_occurs_parts(buffer, bytes::crlf(), remaining, end);
        frame::lemma_reads_size(buffer, position, data.len(), progress.bounds.header_bytes);
        let sized = Progress {
            position: start as nat,
            pending: Some(data.len()),
            chunks: progress.chunks + 1,
            ..progress
        };
        assert(progress.step(buffer) == Step::Continue(sized));
        let next = Progress {
            position: (end + 2) as nat,
            pending: None,
            body: progress.body + data,
            ..sized
        };
        assert(sized.step(buffer) == Step::Continue(next));
        assert(progress.advance(buffer) == sized.advance(buffer));
        encoded_chunks_decode(next, buffer, rest);
        assert(next.body + joined(rest) =~= progress.body + joined(chunks));
    }
}

/// Incremental decoder for a chunked request body and optional trailers.
#[derive(Debug)]
pub struct ChunkDecoder {
    position: usize,
    pending_size: Option<usize>,
    ending: bool,
    body: Vec<u8>,
    chunks: usize,
    limits: Limits,
}

impl View for ChunkDecoder {
    type V = Progress;

    closed spec fn view(&self) -> Progress {
        Progress {
            position: self.position as nat,
            pending: match self.pending_size {
                Some(size) => Some(size as nat),
                None => None,
            },
            ending: self.ending,
            body: self.body@,
            chunks: self.chunks as nat,
            bounds: self.limits@,
        }
    }
}

impl ChunkDecoder {
    /// A decoder for the body that starts at `position` of the receive buffer.
    #[must_use]
    pub fn new(position: usize, limits: Limits) -> (decoder: Self)
        ensures
            decoder@ == Progress::start(position as nat, limits@),
    {
        ChunkDecoder {
            position,
            pending_size: None,
            ending: false,
            body: Vec::new(),
            chunks: 0,
            limits,
        }
    }

    /// Reads what stands behind the line of the last chunk.
    fn finish(&mut self, buffer: &[u8]) -> (verdict: Result<
        Option<DecodedChunkedBody>,
        ParseError,
    >)
        ensures
            old(self)@.finish(buffer@) == Step::Stop(final(self)@, error::parsed(verdict)),
    {
        self.ending = false;
        match frame::read_ending(buffer, self.position, self.limits.header_bytes()) {
            Err(error) => Err(error),
            Ok(None) => {
                self.ending = true;
                Ok(None)
            },
            Ok(Some(consumed)) => {
                let mut body: Vec<u8> = Vec::new();
                std::mem::swap(&mut body, &mut self.body);
                Ok(Some(DecodedChunkedBody { consumed, body }))
            },
        }
    }

    /// Advances decoding over the caller's accumulated receive buffer.
    ///
    /// # Errors
    ///
    /// Returns a protocol rejection for malformed chunks/trailers or configured
    /// body, trailer, and chunk-count limit violations.
    pub fn advance(&mut self, buffer: &[u8]) -> (verdict: Result<
        Option<DecodedChunkedBody>,
        ParseError,
    >)
        ensures
            old(self)@.advance(buffer@) == (final(self)@, error::parsed(verdict)),
    {
        loop
            invariant
                self@.advance(buffer@) == old(self)@.advance(buffer@),
            decreases buffer@.len() - self@.position,
        {
            proof {
                lemma_step_moves(self@, buffer@);
            }
            if self.ending {
                return self.finish(buffer);
            }
            if let Some(size) = self.pending_size {
                let end = match self.position.checked_add(size) {
                    None => return Err(ParseError::bad_request()),
                    Some(end) => end,
                };
                let chunk_end = match end.checked_add(2) {
                    None => return Err(ParseError::bad_request()),
                    Some(chunk_end) => chunk_end,
                };
                if buffer.len() < chunk_end {
                    return Ok(None);
                }
                if !bytes::matches_at(buffer, &[bytes::CR, bytes::LF], end) {
                    return Err(ParseError::bad_request());
                }
                let ghost before = self@;
                self.body.extend_from_slice(slice_subrange(buffer, self.position, end));
                assert(self.body@ =~= before.body + buffer@.subrange(
                    before.position as int,
                    end as int,
                ));
                self.position = chunk_end;
                self.pending_size = None;
                continue;
            }
            let (size, next) = match frame::read_size_line(
                buffer,
                self.position,
                self.limits.header_bytes(),
            ) {
                Err(error) => return Err(error),
                Ok(None) => return Ok(None),
                Ok(Some(line)) => line,
            };
            self.position = next;
            if size == 0 {
                return self.finish(buffer);
            }
            if size > self.limits.body_bytes().saturating_sub(self.body.len()) {
                return Err(ParseError::payload_too_large());
            }
            if self.chunks >= self.limits.chunks() {
                return Err(ParseError::too_many_chunks());
            }
            self.chunks = self.chunks + 1;
            self.pending_size = Some(size);
        }
    }
}

} // verus!
