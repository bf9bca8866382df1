//! Laws of chunked bodies.

use crate::bytes;
use crate::chunk;
use crate::chunk::{Decoded, Progress, Verdict};
use crate::error::Rejection;
use crate::field;
use crate::frame;
use crate::laws;
use crate::limits::Bounds;
use crate::number;
use crate::text;
use vstd::prelude::*;

verus! {

/// The texts are the same but for the case of ASCII letters.
pub open spec fn same_letters(left: Seq<u8>, right: Seq<u8>) -> bool {
    &&& left.len() == right.len()
    &&& forall|i: int|
        0 <= i < left.len() ==> laws::text::same_letter(#[trigger] left[i], right[i])
}

proof fn lemma_part_of_same_letters(left: Seq<u8>, right: Seq<u8>, from: int, to: int)
    requires
        same_letters(left, right),
        0 <= from <= to <= left.len(),
    ensures
        same_letters(left.subrange(from, to), right.subrange(from, to)),
{
    let a = left.subrange(from, to);
    let b = right.subrange(from, to);
    assert forall|i: int| 0 <= i < a.len() implies laws::text::same_letter(
        #[trigger] a[i],
        b[i],
    ) by {
        assert(laws::text::same_letter(left[from + i], right[from + i]));
    }
}

/// The case of ASCII letters does not matter to UTF-8.
proof fn lemma_utf8_ignores_case(left: Seq<u8>, right: Seq<u8>)
    requires
        same_letters(left, right),
        vstd::utf8::valid_utf8(left),
    ensures
        vstd::utf8::valid_utf8(right),
    decreases left.len(),
{
    broadcast use vstd::utf8::utf8_byte_ranges_bitwise;

    if left.len() > 0 {
        assert(laws::text::same_letter(left[0], right[0]));
        if left[0] >= 128 {
            assert(left[0] == right[0]);
        }
        if left.len() > 1 {
            assert(laws::text::same_letter(left[1], right[1]));
        }
        if left.len() > 2 {
            assert(laws::text::same_letter(left[2], right[2]));
        }
        if left.len() > 3 {
            assert(laws::text::same_letter(left[3], right[3]));
        }
        let n = vstd::utf8::length_of_first_scalar(left);
        assert(vstd::utf8::valid_first_scalar(right));
        assert(vstd::utf8::length_of_first_scalar(right) == n);
        lemma_part_of_same_letters(left, right, n, left.len() as int);
        lemma_utf8_ignores_case(
            vstd::utf8::pop_first_scalar(left),
            vstd::utf8::pop_first_scalar(right),
        );
    }
}

proof fn lemma_trim_start_ignores_case(left: Seq<u8>, right: Seq<u8>)
    requires
        same_letters(left, right),
    ensures
        same_letters(text::trim_start(left), text::trim_start(right)),
    decreases left.len(),
{
    if left.len() > 0 {
        assert(laws::text::same_letter(left[0], right[0]));
    }
    if left.len() > 1 {
        assert(laws::text::same_letter(left[1], right[1]));
    }
    if left.len() > 2 {
        assert(laws::text::same_letter(left[2], right[2]));
    }
    let space = text::leading_space(left);
    assert(text::leading_space(right) == space);
    if space > 0 {
        lemma_part_of_same_letters(left, right, space, left.len() as int);
        assert(left.skip(space) =~= left.subrange(space, left.len() as int));
        assert(right.skip(space) =~= right.subrange(space, right.len() as int));
        lemma_trim_start_ignores_case(left.skip(space), right.skip(space));
    }
}

proof fn lemma_trim_end_ignores_case(left: Seq<u8>, right: Seq<u8>)
    requires
        same_letters(left, right),
    ensures
        same_letters(text::trim_end(left), text::trim_end(right)),
    decreases left.len(),
{
    let n = left.len() as int;
    if n > 0 {
        assert(laws::text::same_letter(left[n - 1], right[n - 1]));
    }
    if n > 1 {
        assert(laws::text::same_letter(left[n - 2], right[n - 2]));
    }
    if n > 2 {
        assert(laws::text::same_letter(left[n - 3], right[n - 3]));
    }
    let space = text::trailing_space(left);
    assert(text::trailing_space(right) == space);
    if space > 0 {
        lemma_part_of_same_letters(left, right, 0, n - space);
        assert(left.take(n - space) =~= left.subrange(0, n - space));
        assert(right.take(n - space) =~= right.subrange(0, n - space));
        lemma_trim_end_ignores_case(left.take(n - space), right.take(n - space));
    }
}

/// The case of its letters does not change the size that a line gives.
pub proof fn sizes_ignore_case(line: Seq<u8>, other: Seq<u8>)
    requires
        bytes::same_ignoring_case(line, other),
    ensures
        frame::chunk_size(line) == frame::chunk_size(other),
{
    laws::text::case_is_all_that_is_ignored(line, other);
    laws::text::case_is_all_that_is_ignored(other, line);
    assert(same_letters(line, other));
    assert(same_letters(other, line)) by {
        assert forall|i: int| 0 <= i < other.len() implies laws::text::same_letter(
            #[trigger] other[i],
            line[i],
        ) by {
            assert(laws::text::same_letter(line[i], other[i]));
        }
    }
    if vstd::utf8::valid_utf8(line) {
        lemma_utf8_ignores_case(line, other);
    }
    if vstd::utf8::valid_utf8(other) {
        lemma_utf8_ignores_case(other, line);
    }
    let cut = bytes::index_of(line, 59);
    bytes::lemma_index_of(line, 59);
    assert forall|i: int| 0 <= i < cut implies other[i] != 59 by {
        assert(laws::text::same_letter(line[i], other[i]));
    }
    if cut < line.len() {
        assert(laws::text::same_letter(line[cut], other[cut]));
    }
    bytes::lemma_index_of_is(other, 59, cut);
    lemma_part_of_same_letters(line, other, 0, cut);
    assert(line.take(cut) =~= line.subrange(0, cut));
    assert(other.take(cut) =~= other.subrange(0, cut));
    lemma_trim_start_ignores_case(line.take(cut), other.take(cut));
    lemma_trim_end_ignores_case(
        text::trim_start(line.take(cut)),
        text::trim_start(other.take(cut)),
    );
    laws::number::numbers_ignore_case(
        text::trimmed(line.take(cut)),
        text::trimmed(other.take(cut)),
        16,
    );
}

/// A hexadecimal number, in digits of either case, is a size line that gives it.
pub proof fn hexadecimal_numbers_are_sizes(digits: Seq<u8>)
    requires
        forall|i: int|
            0 <= i < digits.len() ==> {
                let byte = #[trigger] digits[i];
                48 <= byte <= 57 || 65 <= byte <= 70 || 97 <= byte <= 102
            },
    ensures
        frame::chunk_size(digits) == number::number(digits, 16),
        digits.len() > 0 && number::digits_value(digits, 16) <= usize::MAX ==> frame::chunk_size(
            digits,
        ) == Some(number::digits_value(digits, 16)),
{
    text::lemma_ascii_is_utf8(digits);
    bytes::lemma_index_of_is(digits, 59, digits.len() as int);
    assert(digits.take(digits.len() as int) =~= digits);
    assert(text::trimmed(digits) == digits);
}

/// What stands behind a semicolon does not change the size that a line gives, as
/// long as it is text.
pub proof fn extensions_do_not_change_sizes(line: Seq<u8>, extension: Seq<u8>)
    requires
        !line.contains(59u8),
        vstd::utf8::valid_utf8(line),
        vstd::utf8::valid_utf8(extension),
    ensures
        frame::chunk_size(line + seq![59u8] + extension) == frame::chunk_size(line),
{
    let longer = line + seq![59u8] + extension;
    let cut = line.len() as int;
    text::lemma_ascii_is_utf8(seq![59u8]);
    vstd::utf8::valid_utf8_concat(line, seq![59u8]);
    vstd::utf8::valid_utf8_concat(line + seq![59u8], extension);
    assert forall|i: int| 0 <= i < cut implies line[i] != 59 && longer[i] != 59 by {
        assert(line.contains(line[i]));
    }
    bytes::lemma_index_of_is(longer, 59, cut);
    bytes::lemma_index_of_is(line, 59, cut);
    assert(longer.take(cut) =~= line);
    assert(line.take(cut) =~= line);
}

/// White space around a size does not change it: of a text without semicolons
/// that neither starts nor ends in white space, with any white space around it,
/// the size is the hexadecimal number that the text is.
pub proof fn sizes_are_padded_numbers(front: Seq<char>, core: Seq<char>, back: Seq<char>)
    requires
        laws::text::is_blank(front),
        laws::text::is_blank(back),
        core.len() > 0 ==> !text::is_white_space(core[0]) && !text::is_white_space(core.last()),
        !(vstd::utf8::encode_utf8(front) + vstd::utf8::encode_utf8(core)
            + vstd::utf8::encode_utf8(back)).contains(59u8),
    ensures
        frame::chunk_size(
            vstd::utf8::encode_utf8(front) + vstd::utf8::encode_utf8(core)
                + vstd::utf8::encode_utf8(back),
        ) == number::number(vstd::utf8::encode_utf8(core), 16),
{
    let line = vstd::utf8::encode_utf8(front) + vstd::utf8::encode_utf8(core)
        + vstd::utf8::encode_utf8(back);
    laws::text::trimming_leaves_the_text(front, core, back);
    vstd::utf8::encode_utf8_valid_utf8(front);
    vstd::utf8::encode_utf8_valid_utf8(core);
    vstd::utf8::encode_utf8_valid_utf8(back);
    vstd::utf8::valid_utf8_concat(vstd::utf8::encode_utf8(front), vstd::utf8::encode_utf8(core));
    vstd::utf8::valid_utf8_concat(
        vstd::utf8::encode_utf8(front) + vstd::utf8::encode_utf8(core),
        vstd::utf8::encode_utf8(back),
    );
    assert forall|i: int| 0 <= i < line.len() implies line[i] != 59 by {
        assert(line.contains(line[i]));
    }
    bytes::lemma_index_of_is(line, 59, line.len() as int);
    assert(line.take(line.len() as int) =~= line);
}

/// What is no text gives no size.
pub proof fn sizes_are_text(line: Seq<u8>)
    requires
        !vstd::utf8::valid_utf8(line),
    ensures
        frame::chunk_size(line) is None,
{
}

/// A line terminator parts trailers: there are trailers on both sides exactly
/// where there are trailers as a whole.
pub proof fn terminators_part_trailers(first: Seq<u8>, second: Seq<u8>)
    requires
        vstd::utf8::valid_utf8(first),
        vstd::utf8::valid_utf8(second),
    ensures
        frame::are_trailers(first + seq![13u8, 10u8] + second) <==> frame::are_trailers(first)
            && frame::are_trailers(second),
{
    let whole = first + seq![13u8, 10u8] + second;
    text::lemma_ascii_is_utf8(seq![13u8, 10u8]);
    vstd::utf8::valid_utf8_concat(first, seq![13u8, 10u8]);
    vstd::utf8::valid_utf8_concat(first + seq![13u8, 10u8], second);
    laws::text::terminators_part_lines(first, second);
    let a = bytes::lines(first);
    let b = bytes::lines(second);
    let all = bytes::lines(whole);
    assert(forall|i: int| 0 <= i < a.len() ==> #[trigger] a[i] == all[i]);
    if frame::are_trailers(whole) {
        assert forall|i: int| 0 <= i < b.len() implies frame::is_trailer(#[trigger] b[i]) by {
            assert(frame::is_trailer(all[a.len() + i]));
        }
    }
    if frame::are_trailers(first) && frame::are_trailers(second) {
        assert forall|i: int| 0 <= i < all.len() implies frame::is_trailer(#[trigger] all[i]) by {
            if i < a.len() {
                assert(frame::is_trailer(a[i]));
            } else {
                assert(frame::is_trailer(b[i - a.len()]));
            }
        }
    }
}

/// A line is a trailer exactly where it is a valid name, a colon, and a valid
/// value, all of it text.
pub proof fn trailers_are_names_and_values(line: Seq<u8>, name: Seq<u8>, value: Seq<u8>)
    requires
        forall|i: int|
            0 <= i < line.len() - 1 ==> !(line[i] == 13 && #[trigger] line[i + 1] == 10),
    ensures
        line == name + seq![58u8] + value && field::is_name(name) ==> (frame::are_trailers(line)
            <==> field::is_value(value) && vstd::utf8::valid_utf8(line)),
        !line.contains(58u8) ==> !frame::are_trailers(line),
        line == name + seq![58u8] + value && !name.contains(58u8) && !field::is_name(name)
            ==> !frame::are_trailers(line),
{
    laws::text::terminators_part_lines(line, Seq::empty());
    assert(bytes::lines(line)[0] == line);
    bytes::lemma_index_of(line, 58);
    let colon = bytes::index_of(line, 58);
    if line == name + seq![58u8] + value && (field::is_name(name) || !name.contains(58u8)) {
        assert forall|i: int| 0 <= i < name.len() implies line[i] != 58 by {
            assert(line[i] == name[i]);
            assert(name.contains(name[i]));
            if field::is_name(name) {
                assert(field::name_byte(name[i]));
            }
        }
        bytes::lemma_index_of_is(line, 58, name.len() as int);
        assert(line.take(name.len() as int) =~= name);
        assert(line.skip(name.len() as int + 1) =~= value);
        if frame::is_trailer(line) {
            assert forall|i: int| 0 <= i < bytes::lines(line).len() implies frame::is_trailer(
                #[trigger] bytes::lines(line)[i],
            ) by {}
        }
    }
    if !line.contains(58u8) && colon < line.len() {
        assert(line[colon] == 58);
    }
    if frame::are_trailers(line) {
        assert(frame::is_trailer(bytes::lines(line)[0]));
    }
}

/// No line terminator stands in `line`.
pub open spec fn is_unbroken(line: Seq<u8>) -> bool {
    forall|i: int| 0 <= i < line.len() - 1 ==> !(line[i] == 13 && #[trigger] line[i + 1] == 10)
}

/// A decoder that stands in front of a size line.
pub open spec fn is_resting(progress: Progress) -> bool {
    !progress.ending && progress.pending is None
}

pub(crate) proof fn lemma_line(buffer: Seq<u8>, position: int, line: Seq<u8>, rest: Seq<u8>)
    requires
        0 <= position,
        is_unbroken(line),
        bytes::occurs_at(buffer, line + seq![13u8, 10u8] + rest, position),
    ensures
        bytes::find(buffer, bytes::crlf(), position) == Some(position + line.len()),
        buffer.subrange(position, position + line.len()) == line,
        bytes::occurs_at(buffer, rest, position + line.len() + 2),
        position + line.len() + 2 + rest.len() <= buffer.len(),
{
    let crlf = bytes::crlf();
    assert(crlf =~= seq![13u8, 10u8]);
    let end = position + line.len();
    assert(line + crlf + rest =~= line + (crlf + rest));
    bytes::lemma_occurs_parts(buffer, line, crlf + rest, position);
    bytes::lemma_occurs_parts(buffer, crlf, rest, end);
    assert(buffer.subrange(end, end + 2)[0] == buffer[end]);
    assert forall|i: int| position <= i < end implies !bytes::occurs_at(buffer, crlf, i) by {
        if bytes::occurs_at(buffer, crlf, i) {
            assert(buffer.subrange(i, i + 2)[0] == buffer[i]);
            assert(buffer.subrange(i, i + 2)[1] == buffer[i + 1]);
            let at = i - position;
            assert(line[at] == buffer[i]);
            if at + 1 < line.len() {
                assert(line[at + 1] == buffer[i + 1]);
            }
        }
    }
    bytes::lemma_find_is(buffer, crlf, position, end);
}

/// A new decoder stands in front of the first size line of its body, and has
/// collected and counted nothing.
pub proof fn new_decoders_have_collected_nothing(position: nat, bounds: Bounds)
    ensures
        ({
            let progress = Progress::start(position, bounds);
            &&& is_resting(progress)
            &&& progress.position == position
            &&& progress.body.len() == 0
            &&& progress.chunks == 0
            &&& progress.bounds == bounds
        }),
{
}

/// A chunk is taken as a whole: a size line, as many bytes of data, and a line
/// terminator, within the limits, add the data to the body, and the decoder goes
/// on behind them.
pub proof fn chunks_are_taken(
    progress: Progress,
    buffer: Seq<u8>,
    line: Seq<u8>,
    data: Seq<u8>,
)
    requires
        is_resting(progress),
        is_unbroken(line),
        frame::chunk_size(line) == Some(data.len()),
        data.len() > 0,
        bytes::occurs_at(
            buffer,
            line + seq![13u8, 10u8] + (data + seq![13u8, 10u8]),
            progress.position as int,
        ),
        progress.body.len() + data.len() <= progress.bounds.body_bytes,
        progress.chunks < progress.bounds.chunks,
        buffer.len() <= usize::MAX,
    ensures
        progress.advance(buffer) == (Progress {
            position: progress.position + line.len() + 2 + data.len() + 2,
            body: progress.body + data,
            chunks: progress.chunks + 1,
            ..progress
        }).advance(buffer),
{
    let position = progress.position as int;
    let start = position + line.len() + 2;
    let end = start + data.len();
    assert(bytes::crlf() =~= seq![13u8, 10u8]);
    lemma_line(buffer, position, line, data + seq![13u8, 10u8]);
    bytes::lemma_occurs_parts(buffer, data, seq![13u8, 10u8], start);
    let sized = Progress {
        position: start as nat,
        pending: Some(data.len()),
        chunks: progress.chunks + 1,
        ..progress
    };
    assert(progress.step(buffer) == chunk::Step::Continue(sized));
    let next = Progress {
        position: (end + 2) as nat,
        pending: None,
        body: progress.body + data,
        ..sized
    };
    assert(sized.step(buffer) == chunk::Step::Continue(next));
    assert(progress.advance(buffer) == sized.advance(buffer));
    assert(next == Progress {
        position: progress.position + line.len() + 2 + data.len() + 2,
        body: progress.body + data,
        chunks: progress.chunks + 1,
        ..progress
    });
}

/// A line that gives no size is a bad request.
pub proof fn lines_without_a_size_are_rejected(
    progress: Progress,
    buffer: Seq<u8>,
    line: Seq<u8>,
)
    requires
        is_resting(progress),
        is_unbroken(line),
        frame::chunk_size(line) is None,
        bytes::occurs_at(buffer, line + seq![13u8, 10u8], progress.position as int),
    ensures
        progress.advance(buffer) == (progress, Verdict::Err(Rejection::bad_request())),
{
    assert(line + seq![13u8, 10u8] + Seq::<u8>::empty() =~= line + seq![13u8, 10u8]);
    lemma_line(buffer, progress.position as int, line, Seq::empty());
}

/// A line that has not ended is waited for while it is within the limit, and a
/// bad request behind it.
pub proof fn unfinished_lines_are_waited_for(progress: Progress, buffer: Seq<u8>)
    requires
        is_resting(progress),
        forall|i: int|
            progress.position <= i < buffer.len() - 1 ==> !(buffer[i] == 13 && #[trigger] buffer[i
                + 1] == 10),
    ensures
        buffer.len() <= progress.position + progress.bounds.header_bytes ==> progress.advance(
            buffer,
        ) == (progress, Verdict::Ok(None)),
        buffer.len() > progress.position + progress.bounds.header_bytes ==> progress.advance(buffer)
            == (progress, Verdict::Err(Rejection::bad_request())),
{
    let position = progress.position as int;
    bytes::lemma_find(buffer, bytes::crlf(), position);
    if let Some(at) = bytes::find(buffer, bytes::crlf(), position) {
        assert(buffer.subrange(at, at + 2)[0] == buffer[at]);
        assert(buffer.subrange(at, at + 2)[1] == buffer[at + 1]);
    }
}

/// A chunk that would make the body longer than allowed is too large, and one
/// chunk more than allowed is too many.
pub proof fn chunks_beyond_the_limits_are_rejected(
    progress: Progress,
    buffer: Seq<u8>,
    line: Seq<u8>,
    size: nat,
)
    requires
        is_resting(progress),
        is_unbroken(line),
        frame::chunk_size(line) == Some(size),
        size > 0,
        bytes::occurs_at(buffer, line + seq![13u8, 10u8], progress.position as int),
    ensures
        ({
            let behind = Progress { position: progress.position + line.len() + 2, ..progress };
            &&& progress.body.len() + size > progress.bounds.body_bytes ==> progress.advance(buffer)
                == (behind, Verdict::Err(Rejection::payload_too_large()))
            &&& progress.body.len() + size <= progress.bounds.body_bytes && progress.chunks
                >= progress.bounds.chunks ==> progress.advance(buffer) == (
                behind,
                Verdict::Err(Rejection::too_many_chunks()),
            )
        }),
{
    assert(line + seq![13u8, 10u8] + Seq::<u8>::empty() =~= line + seq![13u8, 10u8]);
    lemma_line(buffer, progress.position as int, line, Seq::empty());
}

/// Data that has not arrived with its line terminator is waited for; data that
/// ends in anything else is a bad request.
pub proof fn data_ends_in_a_terminator(
    progress: Progress,
    buffer: Seq<u8>,
    line: Seq<u8>,
    size: nat,
)
    requires
        is_resting(progress),
        is_unbroken(line),
        frame::chunk_size(line) == Some(size),
        size > 0,
        bytes::occurs_at(buffer, line + seq![13u8, 10u8], progress.position as int),
        progress.body.len() + size <= progress.bounds.body_bytes,
        progress.chunks < progress.bounds.chunks,
        progress.position + line.len() + 2 + size + 2 <= usize::MAX,
    ensures
        ({
            let end = progress.position as int + line.len() + 2 + size;
            let sized = Progress {
                position: progress.position + line.len() + 2,
                pending: Some(size),
                chunks: progress.chunks + 1,
                ..progress
            };
            &&& buffer.len() < end + 2 ==> progress.advance(buffer) == (sized, Verdict::Ok(None))
            &&& buffer.len() >= end + 2 && !(buffer[end] == 13 && buffer[end + 1] == 10)
                ==> progress.advance(buffer) == (sized, Verdict::Err(Rejection::bad_request()))
        }),
{
    let end = progress.position as int + line.len() + 2 + size;
    assert(line + seq![13u8, 10u8] + Seq::<u8>::empty() =~= line + seq![13u8, 10u8]);
    lemma_line(buffer, progress.position as int, line, Seq::empty());
    let sized = Progress {
        position: progress.position + line.len() + 2,
        pending: Some(size),
        chunks: progress.chunks + 1,
        ..progress
    };
    assert(progress.step(buffer) == chunk::Step::Continue(sized));
    assert(progress.advance(buffer) == sized.advance(buffer));
    if buffer.len() >= end + 2 && bytes::occurs_at(buffer, bytes::crlf(), end) {
        assert(buffer.subrange(end, end + 2)[0] == buffer[end]);
        assert(buffer.subrange(end, end + 2)[1] == buffer[end + 1]);
    }
}

/// A chunk whose end has no offset is a bad request.
pub proof fn endless_chunks_are_rejected(
    progress: Progress,
    buffer: Seq<u8>,
    line: Seq<u8>,
    size: nat,
)
    requires
        is_resting(progress),
        is_unbroken(line),
        frame::chunk_size(line) == Some(size),
        bytes::occurs_at(buffer, line + seq![13u8, 10u8], progress.position as int),
        0 < size <= progress.bounds.body_bytes - progress.body.len(),
        progress.chunks < progress.bounds.chunks,
        progress.position + line.len() + 2 + size + 2 > usize::MAX,
    ensures
        progress.advance(buffer).1 == Verdict::Err(Rejection::bad_request()),
{
    assert(line + seq![13u8, 10u8] + Seq::<u8>::empty() =~= line + seq![13u8, 10u8]);
    lemma_line(buffer, progress.position as int, line, Seq::empty());
    let sized = Progress {
        position: progress.position + line.len() + 2,
        pending: Some(size),
        chunks: progress.chunks + 1,
        ..progress
    };
    assert(progress.step(buffer) == chunk::Step::Continue(sized));
    assert(progress.advance(buffer) == sized.advance(buffer));
}

/// A size of zero and an empty line end the body: it is what was collected.
pub proof fn empty_lines_end_bodies(progress: Progress, buffer: Seq<u8>, line: Seq<u8>)
    requires
        is_resting(progress),
        is_unbroken(line),
        frame::chunk_size(line) == Some(0nat),
        bytes::occurs_at(
            buffer,
            line + seq![13u8, 10u8] + seq![13u8, 10u8],
            progress.position as int,
        ),
    ensures
        progress.advance(buffer) == (
            Progress {
                position: progress.position + line.len() + 2,
                body: Seq::empty(),
                ..progress
            },
            Verdict::Ok(
                Some(
                    Decoded { consumed: progress.position + line.len() + 4, body: progress.body },
                ),
            ),
        ),
{
    assert(bytes::crlf() =~= seq![13u8, 10u8]);
    lemma_line(buffer, progress.position as int, line, seq![13u8, 10u8]);
}

/// A size of zero and a section that ends in an empty line end the body, where the
/// section is trailers within the limit; a longer one is too large, and anything
/// else is a bad request.
pub proof fn trailers_end_bodies(
    progress: Progress,
    buffer: Seq<u8>,
    line: Seq<u8>,
    section: Seq<u8>,
)
    requires
        is_resting(progress),
        is_unbroken(line),
        frame::chunk_size(line) == Some(0nat),
        bytes::occurs_at(
            buffer,
            line + seq![13u8, 10u8] + (section + seq![13u8, 10u8, 13u8, 10u8]),
            progress.position as int,
        ),
        section.len() > 0,
        !(section.len() >= 2 && section[0] == 13 && section[1] == 10),
        forall|i: int|
            0 <= i < section.len() ==> !bytes::occurs_at(
                section + seq![13u8, 10u8, 13u8, 10u8],
                seq![13u8, 10u8, 13u8, 10u8],
                i,
            ),
    ensures
        section.len() > progress.bounds.header_bytes ==> progress.advance(buffer).1
            == Verdict::Err(Rejection::headers_too_large()),
        section.len() <= progress.bounds.header_bytes && frame::are_trailers(section)
            ==> progress.advance(buffer).1 == Verdict::Ok(
            Some(
                Decoded {
                    consumed: progress.position + line.len() + 2 + section.len() + 4,
                    body: progress.body,
                },
            ),
        ),
        section.len() <= progress.bounds.header_bytes && !frame::are_trailers(section)
            ==> progress.advance(buffer).1 == Verdict::Err(Rejection::bad_request()),
{
    let blank = seq![13u8, 10u8, 13u8, 10u8];
    let position = progress.position as int + line.len() + 2;
    let end = position + section.len();
    assert(bytes::crlf_crlf() =~= blank);
    lemma_line(buffer, progress.position as int, line, section + blank);
    bytes::lemma_occurs_parts(buffer, section, blank, position);
    let whole = section + blank;
    assert forall|i: int| 0 <= i < whole.len() implies #[trigger] whole[i] == buffer[position
        + i] by {
        assert(buffer.subrange(position, position + whole.len())[i] == buffer[position + i]);
    }
    assert forall|i: int| position <= i < end implies !bytes::occurs_at(buffer, blank, i) by {
        if bytes::occurs_at(buffer, blank, i) {
            let at = i - position;
            assert(whole.subrange(at, at + 4) =~= buffer.subrange(i, i + 4));
            assert(bytes::occurs_at(whole, blank, at));
        }
    }
    bytes::lemma_find_is(buffer, blank, position, end);
    if bytes::occurs_at(buffer, bytes::crlf(), position) {
        assert(buffer.subrange(position, position + 2)[0] == buffer[position]);
        assert(buffer.subrange(position, position + 2)[1] == buffer[position + 1]);
        assert(whole[0] == buffer[position]);
        assert(whole[1] == buffer[position + 1]);
        assert(whole[0] == section[0]);
        if section.len() == 1 {
            assert(whole[1] == 13);
        }
    }
    assert(buffer.subrange(position, end) == section);
}

/// What has not ended behind a size of zero is waited for while it is within the
/// limit, and too large behind it.
pub proof fn unfinished_trailers_are_waited_for(
    progress: Progress,
    buffer: Seq<u8>,
    line: Seq<u8>,
)
    requires
        is_resting(progress),
        is_unbroken(line),
        frame::chunk_size(line) == Some(0nat),
        bytes::occurs_at(buffer, line + seq![13u8, 10u8], progress.position as int),
        !bytes::occurs_at(buffer, seq![13u8, 10u8], progress.position as int + line.len() + 2),
        forall|i: int|
            progress.position + line.len() + 2 <= i ==> !bytes::occurs_at(
                buffer,
                seq![13u8, 10u8, 13u8, 10u8],
                i,
            ),
    ensures
        ({
            let position = progress.position + line.len() + 2;
            let behind = Progress { position, ..progress };
            &&& buffer.len() <= position + progress.bounds.header_bytes ==> progress.advance(buffer)
                == (Progress { ending: true, ..behind }, Verdict::Ok(None))
            &&& buffer.len() > position + progress.bounds.header_bytes ==> progress.advance(buffer)
                == (behind, Verdict::Err(Rejection::headers_too_large()))
        }),
{
    assert(bytes::crlf() =~= seq![13u8, 10u8]);
    assert(bytes::crlf_crlf() =~= seq![13u8, 10u8, 13u8, 10u8]);
    assert(line + seq![13u8, 10u8] + Seq::<u8>::empty() =~= line + seq![13u8, 10u8]);
    lemma_line(buffer, progress.position as int, line, Seq::empty());
    bytes::lemma_find(buffer, bytes::crlf_crlf(), progress.position as int + line.len() + 2);
}

/// A frame is the size of its data, in upper-case hexadecimal and as short as can
/// be, a line terminator, the data, and a line terminator.
pub proof fn frames_are_spelled_out(data: Seq<u8>)
    ensures
        frame::chunk_frame(data) == number::numeral(data.len(), 16) + seq![13u8, 10u8] + data
            + seq![13u8, 10u8],
{
    assert(bytes::crlf() =~= seq![13u8, 10u8]);
}

/// Size lines with data, one behind the other.
pub open spec fn framed(lines: Seq<Seq<u8>>, chunks: Seq<Seq<u8>>) -> Seq<u8>
    decreases lines.len(),
{
    if lines.len() == 0 || chunks.len() == 0 {
        Seq::empty()
    } else {
        lines[0] + seq![13u8, 10u8] + (chunks[0] + seq![13u8, 10u8]) + framed(
            lines.skip(1),
            chunks.skip(1),
        )
    }
}

/// Chunks decode to their data whatever form their size lines have: with digits of
/// either case, white space, and extensions, as long as each line gives the size
/// of its chunk.
pub proof fn framed_chunks_decode(
    progress: Progress,
    buffer: Seq<u8>,
    lines: Seq<Seq<u8>>,
    chunks: Seq<Seq<u8>>,
    last: Seq<u8>,
)
    requires
        is_resting(progress),
        lines.len() == chunks.len(),
        forall|i: int|
            0 <= i < lines.len() ==> {
                &&& is_unbroken(#[trigger] lines[i])
                &&& chunks[i].len() > 0
                &&& frame::chunk_size(lines[i]) == Some(chunks[i].len())
            },
        is_unbroken(last),
        frame::chunk_size(last) == Some(0nat),
        bytes::occurs_at(
            buffer,
            framed(lines, chunks) + (last + seq![13u8, 10u8] + seq![13u8, 10u8]),
            progress.position as int,
        ),
        progress.body.len() + chunk::joined(chunks).len() <= progress.bounds.body_bytes,
        progress.chunks + chunks.len() <= progress.bounds.chunks,
        buffer.len() <= usize::MAX,
    ensures
        progress.advance(buffer).1 == Verdict::Ok(
            Some(
                Decoded {
                    consumed: progress.position + framed(lines, chunks).len() + last.len() + 4,
                    body: progress.body + chunk::joined(chunks),
                },
            ),
        ),
    decreases lines.len(),
{
    let end = last + seq![13u8, 10u8] + seq![13u8, 10u8];
    let position = progress.position as int;
    if lines.len() == 0 {
        assert(framed(lines, chunks) + end =~= end);
        empty_lines_end_bodies(progress, buffer, last);
        assert(progress.body + chunk::joined(chunks) =~= progress.body);
    } else {
        let line = lines[0];
        let data = chunks[0];
        let first = line + seq![13u8, 10u8] + (data + seq![13u8, 10u8]);
        let rest = framed(lines.skip(1), chunks.skip(1));
        assert(framed(lines, chunks) + end =~= first + (rest + end));
        bytes::lemma_occurs_parts(buffer, first, rest + end, position);
        assert(is_unbroken(lines[0]));
        chunks_are_taken(progress, buffer, line, data);
        let next = Progress {
            position: progress.position + line.len() + 2 + data.len() + 2,
            body: progress.body + data,
            chunks: progress.chunks + 1,
            ..progress
        };
        assert forall|i: int| 0 <= i < lines.skip(1).len() implies {
            &&& is_unbroken(#[trigger] lines.skip(1)[i])
            &&& chunks.skip(1)[i].len() > 0
            &&& frame::chunk_size(lines.skip(1)[i]) == Some(chunks.skip(1)[i].len())
        } by {
            assert(is_unbroken(lines[i + 1]));
        }
        framed_chunks_decode(next, buffer, lines.skip(1), chunks.skip(1), last);
        assert(next.body + chunk::joined(chunks.skip(1)) =~= progress.body + chunk::joined(chunks));
    }
}

} // verus!
