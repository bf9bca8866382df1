//! Laws of request heads.

use crate::bytes;
use crate::error::Rejection;
use crate::field::Field;
use crate::head;
use crate::head::{BodyFraming, Head};
use crate::laws;
use crate::limits::Bounds;
use crate::method::Method;
use crate::number;
use crate::position::HeaderPosition;
use crate::scan::{Extent, HeadParts, HeaderExtent, Scan};
use crate::text;
use vstd::prelude::*;
use vstd::string::StringSliceAdditionalSpecFns;

verus! {

/// The field has the name `name`, up to case.
pub open spec fn is_called(field: Field, name: Seq<u8>) -> bool {
    bytes::same_ignoring_case(field.name, name)
}

/// A content length is a decimal number with white space around it: of a text
/// that neither starts nor ends in white space, with any white space around it, it
/// is the number that the text is.
pub proof fn content_lengths_are_padded_numbers(
    front: Seq<char>,
    core: Seq<char>,
    back: Seq<char>,
)
    requires
        laws::text::is_blank(front),
        laws::text::is_blank(back),
        core.len() > 0 ==> !text::is_white_space(core[0]) && !text::is_white_space(core.last()),
    ensures
        head::content_length(
            vstd::utf8::encode_utf8(front) + vstd::utf8::encode_utf8(core)
                + vstd::utf8::encode_utf8(back),
        ) == number::number(vstd::utf8::encode_utf8(core), 10),
{
    laws::text::trimming_leaves_the_text(front, core, back);
    vstd::utf8::encode_utf8_valid_utf8(front);
    vstd::utf8::encode_utf8_valid_utf8(core);
    vstd::utf8::encode_utf8_valid_utf8(back);
    vstd::utf8::valid_utf8_concat(vstd::utf8::encode_utf8(front), vstd::utf8::encode_utf8(core));
    vstd::utf8::valid_utf8_concat(
        vstd::utf8::encode_utf8(front) + vstd::utf8::encode_utf8(core),
        vstd::utf8::encode_utf8(back),
    );
}

/// What is no text is no content length.
pub proof fn content_lengths_are_text(value: Seq<u8>)
    requires
        !vstd::utf8::valid_utf8(value),
    ensures
        head::content_length(value) is None,
{
}

/// A comma ends one transfer coding and starts the next; of a value without
/// commas the text, trimmed, is the only coding, and blank text is none.
pub proof fn commas_part_codings(first: Seq<u8>, second: Seq<u8>)
    ensures
        head::listed_codings(first + seq![44u8] + second) == head::listed_codings(first)
            + head::listed_codings(second),
        !first.contains(44u8) && text::trimmed(first).len() > 0 ==> head::listed_codings(first)
            == seq![text::trimmed(first)],
        !first.contains(44u8) && text::trimmed(first).len() == 0 ==> head::listed_codings(first)
            == Seq::<Seq<u8>>::empty(),
{
    reveal(Seq::filter);
    laws::text::commas_part_lists(first, second);
    let nonempty = |coding: Seq<u8>| coding.len() > 0;
    Seq::filter_distributes_over_add(
        text::list_elements(first),
        text::list_elements(second),
        nonempty,
    );
    if !first.contains(44u8) {
        let only = seq![text::trimmed(first)];
        assert(only.drop_last() =~= Seq::<Seq<u8>>::empty());
        assert(only.last() == text::trimmed(first));
        assert(Seq::<Seq<u8>>::empty().filter(nonempty).len() == 0);
        if text::trimmed(first).len() > 0 {
            assert(head::listed_codings(first) =~= only);
        } else {
            assert(head::listed_codings(first) =~= Seq::<Seq<u8>>::empty());
        }
    }
}

/// The codings of a request are those of its transfer-encoding headers, one
/// header behind the other.
pub proof fn codings_add_up(before: Seq<Field>, field: Field, after: Seq<Field>)
    ensures
        head::codings(before + after) == head::codings(before) + head::codings(after),
        is_called(field, "transfer-encoding".spec_bytes()) ==> head::codings(seq![field])
            == head::listed_codings(field.value),
        !is_called(field, "transfer-encoding".spec_bytes()) ==> head::codings(seq![field])
            == Seq::<Seq<u8>>::empty(),
    decreases after.len(),
{
    reveal_with_fuel(head::codings, 2);
    assert(seq![field].drop_last() =~= Seq::<Field>::empty());
    assert(seq![field].last() == field);
    assert(head::codings(Seq::empty()) + head::listed_codings(field.value)
        =~= head::listed_codings(field.value));
    if after.len() == 0 {
        assert(before + after =~= before);
        assert(head::codings(before) + head::codings(after) =~= head::codings(before));
    } else {
        codings_add_up(before, field, after.drop_last());
        assert((before + after).drop_last() =~= before + after.drop_last());
        assert(head::codings(before + after) =~= head::codings(before) + head::codings(after));
    }
}

/// Every list that matters to framing is text.
pub open spec fn lists_are_readable(fields: Seq<Field>) -> bool {
    forall|i: int|
        0 <= i < fields.len() && (is_called(
            #[trigger] fields[i],
            "transfer-encoding".spec_bytes(),
        ) || is_called(fields[i], "connection".spec_bytes())) ==> vstd::utf8::valid_utf8(
            fields[i].value,
        )
}

/// The header at `i` declares the length that its value gives, if it gives one.
pub open spec fn declares_at(fields: Seq<Field>, i: int) -> bool {
    0 <= i < fields.len() && is_called(fields[i], "content-length".spec_bytes())
}

/// No header declares a length.
pub open spec fn declares_none(fields: Seq<Field>) -> bool {
    forall|i: int| !declares_at(fields, i)
}

proof fn lemma_declares(fields: Seq<Field>)
    ensures
        head::declares_length(fields) <==> !declares_none(fields),
        head::lists_are_text(fields) <==> lists_are_readable(fields),
        declares_none(fields) ==> head::lengths_are(fields, 0),
{
    if head::declares_length(fields) {
        let i = choose|i: int|
            0 <= i < fields.len() && (#[trigger] fields[i]).is_named(
                crate::field::content_length_name(),
            );
        assert(declares_at(fields, i));
    }
    if !declares_none(fields) {
        let i = choose|i: int| declares_at(fields, i);
        assert(fields[i].is_named(crate::field::content_length_name()));
    }
    if declares_none(fields) {
        assert forall|i: int|
            0 <= i < fields.len() && (#[trigger] fields[i]).is_named(
                crate::field::content_length_name(),
            ) implies head::content_length(fields[i].value) == Some(0nat) by {
            assert(declares_at(fields, i));
        }
    }
}

/// Without a coding, the length that every content-length header gives frames
/// the body, whatever else the request says; without such a header there is none.
pub proof fn lengths_frame_bodies(fields: Seq<Field>, at: int, length: nat)
    requires
        lists_are_readable(fields),
        head::codings(fields).len() == 0,
        forall|i: int|
            declares_at(fields, i) ==> head::content_length((#[trigger] fields[i]).value) == Some(
                length,
            ),
    ensures
        declares_at(fields, at) ==> head::framing(fields) == Result::<BodyFraming, Rejection>::Ok(
            BodyFraming::ContentLength(length as usize),
        ) && length <= usize::MAX,
        declares_none(fields) ==> head::framing(fields) == Result::<BodyFraming, Rejection>::Ok(
            BodyFraming::ContentLength(0),
        ),
{
    lemma_declares(fields);
    if declares_at(fields, at) {
        assert forall|i: int|
            0 <= i < fields.len() && (#[trigger] fields[i]).is_named(
                crate::field::content_length_name(),
            ) implies head::content_length(fields[i].value) == Some(length) by {
            assert(declares_at(fields, i));
        }
        assert(head::lengths_are(fields, length));
        let chosen = choose|length: nat| head::lengths_are(fields, length);
        assert(head::content_length(fields[at].value) == Some(chosen));
        assert(!declares_none(fields));
    }
}

/// Without a declared length, the chunked coding alone frames the body in chunks;
/// any other codings are unsupported.
pub proof fn codings_frame_bodies(fields: Seq<Field>)
    requires
        lists_are_readable(fields),
        declares_none(fields),
        head::codings(fields).len() > 0,
    ensures
        head::codings(fields).len() == 1 && bytes::same_ignoring_case(
            head::codings(fields)[0],
            "chunked".spec_bytes(),
        ) ==> head::framing(fields) == Result::<BodyFraming, Rejection>::Ok(BodyFraming::Chunked),
        !(head::codings(fields).len() == 1 && bytes::same_ignoring_case(
            head::codings(fields)[0],
            "chunked".spec_bytes(),
        )) ==> head::framing(fields) == Result::<BodyFraming, Rejection>::Err(
            Rejection::unsupported_transfer_encoding(),
        ),
{
    lemma_declares(fields);
}

/// A list that is no text, a length that is none, two lengths that differ, and a
/// length beside a coding are bad requests.
pub proof fn bad_framing_is_rejected(fields: Seq<Field>, i: int, j: int)
    requires
        ({
            ||| !lists_are_readable(fields)
            ||| declares_at(fields, i) && head::content_length(fields[i].value) is None
            ||| declares_at(fields, i) && declares_at(fields, j) && head::content_length(
                fields[i].value,
            ) != head::content_length(fields[j].value)
            ||| declares_at(fields, i) && head::codings(fields).len() > 0
        }),
    ensures
        head::framing(fields) == Result::<BodyFraming, Rejection>::Err(Rejection::bad_request()),
{
    lemma_declares(fields);
    assert forall|length: nat|
        head::lengths_are(fields, length) && lists_are_readable(fields) implies declares_at(
        fields,
        i,
    ) && head::codings(fields).len() > 0 by {
        if declares_at(fields, i) {
            assert(fields[i].is_named(crate::field::content_length_name()));
        }
        if declares_at(fields, j) {
            assert(fields[j].is_named(crate::field::content_length_name()));
        }
    }
}

/// Headers with any other name do not change how a body is framed.
pub proof fn other_headers_do_not_frame(before: Seq<Field>, other: Field, after: Seq<Field>)
    requires
        !is_called(other, "content-length".spec_bytes()),
        !is_called(other, "transfer-encoding".spec_bytes()),
        !is_called(other, "connection".spec_bytes()),
    ensures
        head::framing(before + seq![other] + after) == head::framing(before + after),
{
    let with = before + seq![other] + after;
    let without = before + after;
    codings_add_up(before + seq![other], other, after);
    codings_add_up(before, other, seq![other]);
    codings_add_up(before, other, after);
    assert(head::codings(before) + Seq::<Seq<u8>>::empty() =~= head::codings(before));
    lemma_declares(with);
    lemma_declares(without);
    let n = before.len() as int;
    assert(with[n] == other);
    assert forall|i: int| 0 <= i < without.len() implies {
        &&& i < n ==> #[trigger] without[i] == with[i]
        &&& i >= n ==> without[i] == with[i + 1]
    } by {}
    assert forall|i: int| 0 <= i < with.len() && i != n implies {
        &&& i < n ==> #[trigger] with[i] == without[i]
        &&& i > n ==> with[i] == without[i - 1]
    } by {}
    assert forall|length: nat| head::lengths_are(with, length) == #[trigger] head::lengths_are(
        without,
        length,
    ) by {}
    assert(head::lists_are_text(with) == head::lists_are_text(without));
    assert(head::declares_length(with) == head::declares_length(without)) by {
        if head::declares_length(with) {
            let i = choose|i: int|
                0 <= i < with.len() && (#[trigger] with[i]).is_named(
                    crate::field::content_length_name(),
                );
            assert(i != n);
            let j = if i < n {
                i
            } else {
                i - 1
            };
            assert(without[j] == with[i]);
        }
        if head::declares_length(without) {
            let i = choose|i: int|
                0 <= i < without.len() && (#[trigger] without[i]).is_named(
                    crate::field::content_length_name(),
                );
            let j = if i < n {
                i
            } else {
                i + 1
            };
            assert(with[j] == without[i]);
        }
    }
    if exists|length: nat| head::lengths_are(with, length) {
        let length = choose|length: nat| head::lengths_are(with, length);
        assert(head::lengths_are(without, length));
        if head::declares_length(with) {
            let i = choose|i: int|
                0 <= i < with.len() && (#[trigger] with[i]).is_named(
                    crate::field::content_length_name(),
                );
            let j = if i < n {
                i
            } else {
                i - 1
            };
            assert(without[j] == with[i]);
            let other_length = choose|length: nat| head::lengths_are(without, length);
            assert(head::content_length(with[i].value) == Some(length));
            assert(head::content_length(without[j].value) == Some(other_length));
        }
    }
    if exists|length: nat| head::lengths_are(without, length) {
        let length = choose|length: nat| head::lengths_are(without, length);
        assert(head::lengths_are(with, length));
    }
}

/// The bytes of a part.
pub open spec fn part(buffer: Seq<u8>, extent: Extent) -> Seq<u8> {
    buffer.subrange(extent.start, extent.start + extent.len)
}

/// The headers of a split by their names and values.
pub open spec fn split_fields(buffer: Seq<u8>, headers: Seq<HeaderExtent>) -> Seq<Field> {
    Seq::new(
        headers.len(),
        |i: int|
            Field { name: part(buffer, headers[i].name), value: part(buffer, headers[i].value) },
    )
}

/// The headers of a head by their names and values.
pub open spec fn head_fields(buffer: Seq<u8>, headers: Seq<HeaderPosition>) -> Seq<Field> {
    Seq::new(
        headers.len(),
        |i: int|
            Field {
                name: buffer.subrange(headers[i].name.start as int, headers[i].name.end as int),
                value: buffer.subrange(headers[i].value.start as int, headers[i].value.end as int),
            },
    )
}

/// The part lies in the buffer.
pub open spec fn lies_within(extent: Extent, buffer: Seq<u8>) -> bool {
    0 <= extent.start && extent.start + extent.len <= buffer.len()
}

/// All names and values lie in the buffer.
pub open spec fn lie_within(headers: Seq<HeaderExtent>, buffer: Seq<u8>) -> bool {
    forall|i: int|
        0 <= i < headers.len() ==> lies_within((#[trigger] headers[i]).name, buffer)
            && lies_within(headers[i].value, buffer)
}

/// A connection header lists `option`.
pub open spec fn says(fields: Seq<Field>, option: Seq<u8>) -> bool {
    exists|i: int|
        0 <= i < fields.len() && is_called(#[trigger] fields[i], "connection".spec_bytes())
            && text::lists(fields[i].value, option)
}

/// A complete split whose parts are all there and in the buffer, within the
/// limits, with a known method and with headers that frame a body, is a request
/// head: the method that has the token, whatever it is, the place of the path, the
/// places of the headers in their order, the framing that the headers declare, and
/// a connection that stays open unless a header says `close`, for HTTP/1.0 only if
/// one says `keep-alive`.
pub proof fn heads_are_what_their_parts_say(
    buffer: Seq<u8>,
    bounds: Bounds,
    parts: HeadParts,
    method: Method,
    body: BodyFraming,
)
    requires
        buffer.len() <= usize::MAX,
        parts.head_bytes <= bounds.header_bytes,
        parts.method == Some(method.token()),
        parts.path matches Some(path) && lies_within(path, buffer),
        parts.version is Some,
        lie_within(parts.headers, buffer),
        head::framing(split_fields(buffer, parts.headers)) == Result::<BodyFraming, Rejection>::Ok(
            body,
        ),
        body matches BodyFraming::ContentLength(length) ==> length <= bounds.body_bytes,
    ensures
        ({
            let parsed = head::head_of(buffer, bounds, Scan::Complete(parts));
            let fields = split_fields(buffer, parts.headers);
            &&& parsed matches Ok(Some(found))
            &&& found.method == method
            &&& found.target.start == parts.path->0.start
            &&& found.target.end == parts.path->0.start + parts.path->0.len
            &&& found.head_bytes == parts.head_bytes
            &&& found.body == body
            &&& found.keep_alive <==> !says(fields, "close".spec_bytes()) && (parts.version
                == Some(1u8) || says(fields, "keep-alive".spec_bytes()))
            &&& found.headers.len() == parts.headers.len()
            &&& forall|i: int|
                0 <= i < found.headers.len() ==> {
                    let header = #[trigger] found.headers[i];
                    &&& header.name.start == parts.headers[i].name.start
                    &&& header.name.end == parts.headers[i].name.start + parts.headers[i].name.len
                    &&& header.value.start == parts.headers[i].value.start
                    &&& header.value.end == parts.headers[i].value.start
                        + parts.headers[i].value.len
                }
        }),
{
    crate::method::tokens_name_their_methods(method);
    assert(split_fields(buffer, parts.headers) =~= head::fields(buffer, parts.headers));
    let fields = split_fields(buffer, parts.headers);
    lemma_says(fields, "close".spec_bytes());
    lemma_says(fields, "keep-alive".spec_bytes());
    assert(head::headers_within(parts.headers, buffer.len())) by {
        assert forall|i: int| 0 <= i < parts.headers.len() implies (
        #[trigger] parts.headers[i]).name.within(buffer.len()) && parts.headers[i].value.within(
            buffer.len(),
        ) by {
            assert(lies_within(parts.headers[i].name, buffer));
        }
    }
    assert forall|i: int| 0 <= i < parts.headers.len() implies lies_within(
        (#[trigger] parts.headers[i]).name,
        buffer,
    ) && lies_within(parts.headers[i].value, buffer) by {}
}

proof fn lemma_says(fields: Seq<Field>, option: Seq<u8>)
    ensures
        says(fields, option) <==> head::has_connection_option(fields, option),
{
    if says(fields, option) {
        let i = choose|i: int|
            0 <= i < fields.len() && is_called(#[trigger] fields[i], "connection".spec_bytes())
                && text::lists(fields[i].value, option);
        assert(fields[i].is_named(crate::field::connection_name()));
    }
    if head::has_connection_option(fields, option) {
        let i = choose|i: int|
            0 <= i < fields.len() && (#[trigger] fields[i]).is_named(
                crate::field::connection_name(),
            ) && text::lists(fields[i].value, option);
        assert(is_called(fields[i], "connection".spec_bytes()));
    }
}

/// There is no head, for this reason.
pub open spec fn refused(rejection: Rejection) -> Result<Option<Head>, Rejection> {
    Err(rejection)
}

/// A split is rejected for the first of these that holds: a head that is too
/// large, a method that is missing or unknown, a part that is missing or outside
/// of the buffer, headers that do not frame a body, a length above the limit.
pub proof fn splits_are_rejected(
    buffer: Seq<u8>,
    bounds: Bounds,
    parts: HeadParts,
    method: Method,
)
    ensures
        ({
            let parsed = head::head_of(buffer, bounds, Scan::Complete(parts));
            let framed = head::framing(split_fields(buffer, parts.headers));
            let fits = parts.head_bytes <= bounds.header_bytes;
            let known = parts.method == Some(method.token());
            let placed = parts.path is Some && lies_within(parts.path->0, buffer)
                && parts.version is Some && lie_within(parts.headers, buffer);
            &&& !fits ==> parsed == refused(Rejection::headers_too_large())
            &&& fits && parts.method is None ==> parsed == refused(Rejection::bad_request())
            &&& fits && parts.method is Some && (forall|other: Method|
                #[trigger] other.token() != parts.method->0) ==> parsed == refused(
                Rejection::method_not_allowed(),
            )
            &&& fits && known && !placed ==> parsed == refused(Rejection::bad_request())
            &&& fits && known && placed ==> (framed matches Err(rejection) ==> parsed == refused(
                rejection,
            ))
            &&& fits && known && placed ==> (framed matches Ok(BodyFraming::ContentLength(length))
                && length > bounds.body_bytes ==> parsed == refused(
                Rejection::payload_too_large(),
            ))
        }),
{
    crate::method::tokens_name_their_methods(method);
    if let Some(token) = parts.method {
        crate::method::methods_have_the_tokens_that_name_them(token);
    }
    assert(split_fields(buffer, parts.headers) =~= head::fields(buffer, parts.headers));
    if lie_within(parts.headers, buffer) {
        assert forall|i: int| 0 <= i < parts.headers.len() implies (
        #[trigger] parts.headers[i]).name.within(buffer.len()) && parts.headers[i].value.within(
            buffer.len(),
        ) by {
            assert(lies_within(parts.headers[i].name, buffer));
        }
    } else {
        let i = choose|i: int|
            0 <= i < parts.headers.len() && !(lies_within(
                (#[trigger] parts.headers[i]).name,
                buffer,
            ) && lies_within(parts.headers[i].value, buffer));
        assert(!(parts.headers[i].name.within(buffer.len()) && parts.headers[i].value.within(
            buffer.len(),
        )));
    }
}

/// An unfinished head is waited for while it is within the limit and too large
/// behind it; too many headers are too large, and anything else is malformed.
pub proof fn unfinished_heads(buffer: Seq<u8>, bounds: Bounds)
    ensures
        buffer.len() <= bounds.header_bytes ==> head::head_of(buffer, bounds, Scan::Partial)
            == Result::<Option<Head>, Rejection>::Ok(None),
        buffer.len() > bounds.header_bytes ==> head::head_of(buffer, bounds, Scan::Partial)
            == refused(Rejection::headers_too_large()),
        head::head_of(buffer, bounds, Scan::TooManyHeaders) == refused(
            Rejection::headers_too_large(),
        ),
        head::head_of(buffer, bounds, Scan::Malformed) == refused(Rejection::bad_request()),
{
}

/// The method plays no part in anything but itself: two splits that differ only
/// in the methods, both known, give the same framing, the same positions, and the
/// same word on the connection, or the same rejection.
pub proof fn methods_play_no_part(
    buffer: Seq<u8>,
    bounds: Bounds,
    parts: HeadParts,
    first: Method,
    second: Method,
)
    ensures
        ({
            let left = head::head_of(
                buffer,
                bounds,
                Scan::Complete(HeadParts { method: Some(first.token()), ..parts }),
            );
            let right = head::head_of(
                buffer,
                bounds,
                Scan::Complete(HeadParts { method: Some(second.token()), ..parts }),
            );
            match (left, right) {
                (Ok(Some(left)), Ok(Some(right))) => {
                    &&& left.method == first
                    &&& right.method == second
                    &&& left.target == right.target
                    &&& left.headers == right.headers
                    &&& left.head_bytes == right.head_bytes
                    &&& left.body == right.body
                    &&& left.keep_alive == right.keep_alive
                },
                (Err(left), Err(right)) => left == right,
                _ => false,
            }
        }),
{
    crate::method::tokens_name_their_methods(first);
    crate::method::tokens_name_their_methods(second);
}

/// A head that was parsed has the framing that its own headers declare, as they
/// are read back from the buffer through their positions, whatever its method.
pub proof fn heads_have_the_framing_of_their_headers(
    buffer: Seq<u8>,
    bounds: Bounds,
    scan: Scan,
)
    requires
        buffer.len() <= usize::MAX,
    ensures
        head::head_of(buffer, bounds, scan) matches Ok(Some(found)) ==> head::framing(
            head_fields(buffer, found.headers),
        ) == Result::<BodyFraming, Rejection>::Ok(found.body),
{
    if let Ok(Some(found)) = head::head_of(buffer, bounds, scan) {
        if let Scan::Complete(parts) = scan {
            assert forall|i: int| 0 <= i < parts.headers.len() implies (
            #[trigger] parts.headers[i]).name.within(buffer.len())
                && parts.headers[i].value.within(buffer.len()) by {}
            assert(head_fields(buffer, found.headers) =~= head::fields(buffer, parts.headers));
        }
    }
}

/// In a head that was parsed, a content-length header is a length that frames the
/// body, and a transfer-encoding header that says `chunked` means chunks: whatever
/// the method, the length is the number given, and no such header goes unheard.
pub proof fn declared_framing_is_kept(buffer: Seq<u8>, bounds: Bounds, scan: Scan, i: int)
    requires
        buffer.len() <= usize::MAX,
    ensures
        head::head_of(buffer, bounds, scan) matches Ok(Some(found)) ==> {
            let fields = head_fields(buffer, found.headers);
            &&& declares_at(fields, i) ==> (found.body matches BodyFraming::ContentLength(length)
                && head::content_length(fields[i].value) == Some(length as nat))
            &&& 0 <= i < fields.len() && is_called(fields[i], "transfer-encoding".spec_bytes())
                && head::listed_codings(fields[i].value).len() > 0 ==> found.body
                == BodyFraming::Chunked
            &&& found.body == BodyFraming::Chunked ==> declares_none(fields) && head::codings(
                fields,
            ).len() == 1 && bytes::same_ignoring_case(
                head::codings(fields)[0],
                "chunked".spec_bytes(),
            )
            &&& declares_none(fields) && head::codings(fields).len() == 0 ==> found.body
                == BodyFraming::ContentLength(0)
        },
{
    heads_have_the_framing_of_their_headers(buffer, bounds, scan);
    if let Ok(Some(found)) = head::head_of(buffer, bounds, scan) {
        let fields = head_fields(buffer, found.headers);
        lemma_declares(fields);
        let length = choose|length: nat| head::lengths_are(fields, length);
        if declares_at(fields, i) {
            assert(fields[i].is_named(crate::field::content_length_name()));
            assert(head::content_length(fields[i].value) == Some(length));
            assert(!declares_none(fields));
        }
        if 0 <= i < fields.len() && is_called(fields[i], "transfer-encoding".spec_bytes()) {
            let front = fields.take(i);
            let rest = fields.skip(i + 1);
            assert(fields =~= front + seq![fields[i]] + rest);
            codings_add_up(front + seq![fields[i]], fields[i], rest);
            codings_add_up(front, fields[i], seq![fields[i]]);
        }
    }
}

} // verus!
