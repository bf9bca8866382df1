//! Response heads.

use crate::bytes;
use crate::error::EncodeError;
use crate::field;
use crate::field::Field;
use crate::line;
use crate::number;
use crate::status;
use vstd::prelude::*;
use vstd::string::StringSliceAdditionalSpecFns;

verus! {

/// A status line, without its terminator.
pub open spec fn status_text(status: u16) -> Seq<u8> {
    "HTTP/1.1 ".spec_bytes() + number::numeral(status as nat, 10) + " ".spec_bytes()
        + vstd::utf8::encode_utf8(status::reason(status))
}

/// A header line, without its terminator.
pub open spec fn field_text(field: Field) -> Seq<u8> {
    field.name + ": ".spec_bytes() + field.value
}

/// Names and values of headers.
pub open spec fn fields_of(headers: Seq<(&str, &str)>) -> Seq<Field> {
    headers.map_values(
        |header: (&str, &str)|
            Field { name: header.0.spec_bytes(), value: header.1.spec_bytes() },
    )
}

/// Fields that frame a message or rule its connection.
pub open spec fn frames_response(field: Field) -> bool {
    ||| field.is_named(field::connection_name())
    ||| field.is_named(field::content_length_name())
    ||| field.is_named(field::transfer_encoding_name())
}

/// Fields that frame a body.
pub open spec fn frames_body(field: Field) -> bool {
    ||| field.is_named(field::content_length_name())
    ||| field.is_named(field::transfer_encoding_name())
}

/// The fields that are not dropped.
pub open spec fn kept(fields: Seq<Field>, dropped: spec_fn(Field) -> bool) -> Seq<Field> {
    fields.filter(|field: Field| !dropped(field))
}

/// The number of fields in front of the first that is neither dropped nor valid.
pub open spec fn accepted(fields: Seq<Field>, dropped: spec_fn(Field) -> bool) -> int
    decreases fields.len(),
{
    if fields.len() == 0 || !(dropped(fields[0]) || fields[0].is_valid()) {
        0
    } else {
        1 + accepted(fields.skip(1), dropped)
    }
}

/// The header lines of fields.
pub open spec fn field_lines(fields: Seq<Field>) -> Seq<Seq<u8>> {
    fields.map_values(|field: Field| field_text(field))
}

/// One of the fields has the name `name`.
pub open spec fn has_field(fields: Seq<Field>, name: Seq<u8>) -> bool {
    exists|i: int| 0 <= i < fields.len() && (#[trigger] fields[i]).is_named(name)
}

/// What an encoder appends, and what it returns.
#[verifier::ext_equal]
pub struct Encoding {
    pub written: Seq<u8>,
    pub result: Result<(), EncodeError>,
}

/// The line that frames the body of a response.
pub open spec fn framing_lines(content_length: Option<u64>, chunked: bool) -> Seq<Seq<u8>> {
    match content_length {
        Some(length) => seq![
            "content-length: ".spec_bytes() + number::numeral(length as nat, 10),
        ],
        None => if chunked {
            seq!["transfer-encoding: chunked".spec_bytes()]
        } else {
            Seq::empty()
        },
    }
}

/// The line that dates a response.
pub open spec fn date_text(date: Seq<u8>) -> Seq<u8> {
    field_text(Field { name: "date".spec_bytes(), value: date })
}

/// The lines that an encoder adds to the headers of a response: the line for the
/// body, a date unless there is one, and word that the connection closes.
pub open spec fn added_lines(
    has_date: bool,
    content_length: Option<u64>,
    chunked: bool,
    keep_alive: bool,
    date: Seq<u8>,
) -> Seq<Seq<u8>> {
    let framed = framing_lines(content_length, chunked);
    let dated = if has_date {
        framed
    } else {
        framed.push(date_text(date))
    };
    if keep_alive {
        dated
    } else {
        dated.push("connection: close".spec_bytes())
    }
}

/// What follows the headers of a response: the lines that the encoder adds and
/// the empty line. Where a date is needed and cannot stand in a header, only the
/// line for the body is written.
pub open spec fn tail(
    has_date: bool,
    content_length: Option<u64>,
    chunked: bool,
    keep_alive: bool,
    date: Seq<u8>,
) -> Encoding {
    if has_date || field::is_value(date) {
        let lines = added_lines(has_date, content_length, chunked, keep_alive, date);
        Encoding { written: line::terminated(lines) + bytes::crlf(), result: Ok(()) }
    } else {
        Encoding {
            written: line::terminated(framing_lines(content_length, chunked)),
            result: Err(EncodeError::InvalidDate),
        }
    }
}

/// `first`, and then what `second` says.
pub open spec fn followed(first: Seq<u8>, second: Encoding) -> Encoding {
    Encoding { written: first + second.written, result: second.result }
}

/// The headers of a response that are sent: those that frame nothing.
pub open spec fn sent(fields: Seq<Field>) -> Seq<Field> {
    kept(fields, |field: Field| frames_response(field))
}

/// The number of headers of a response in front of the first that must not be
/// sent.
pub open spec fn sendable(fields: Seq<Field>) -> int {
    accepted(fields, |field: Field| frames_response(field))
}

/// The name of the field that dates a message.
pub open spec fn date_name() -> Seq<u8> {
    "date".spec_bytes()
}

/// The head of a response: its status line and the headers that frame nothing,
/// up to the first that is invalid, and what the encoder adds.
pub open spec fn response_head(
    status: u16,
    fields: Seq<Field>,
    content_length: Option<u64>,
    chunked: bool,
    keep_alive: bool,
    date: Seq<u8>,
) -> Encoding {
    let lines = seq![status_text(status)] + field_lines(sent(fields.take(sendable(fields))));
    if sendable(fields) < fields.len() {
        Encoding { written: line::terminated(lines), result: Err(EncodeError::InvalidHeader) }
    } else {
        followed(
            line::terminated(lines),
            tail(
                has_field(sent(fields), date_name()),
                content_length,
                chunked,
                keep_alive,
                date,
            ),
        )
    }
}

/// Headers that have been validated and encoded.
pub struct Prepared {
    /// The header lines.
    pub encoded: Seq<u8>,
    /// One of the headers is a date.
    pub has_date: bool,
}

/// The encoding of valid headers.
pub open spec fn prepared(fields: Seq<Field>) -> Prepared {
    Prepared {
        encoded: line::terminated(field_lines(sent(fields))),
        has_date: has_field(sent(fields), date_name()),
    }
}

/// The head of a response with headers that have been encoded.
pub open spec fn prepared_head(
    status: u16,
    headers: Prepared,
    content_length: Option<u64>,
    chunked: bool,
    keep_alive: bool,
    date: Seq<u8>,
) -> Encoding {
    followed(
        line::terminated(seq![status_text(status)]) + headers.encoded,
        tail(headers.has_date, content_length, chunked, keep_alive, date),
    )
}

/// Preparing headers once and encoding them later gives what encoding them
/// directly gives.
pub proof fn prepared_headers_match_the_validating_path(
    status: u16,
    fields: Seq<Field>,
    content_length: Option<u64>,
    chunked: bool,
    keep_alive: bool,
    date: Seq<u8>,
)
    requires
        sendable(fields) == fields.len(),
    ensures
        prepared_head(status, prepared(fields), content_length, chunked, keep_alive, date)
            == response_head(status, fields, content_length, chunked, keep_alive, date),
{
    assert(fields.take(fields.len() as int) =~= fields);
    line::lemma_terminated_adds(seq![status_text(status)], field_lines(sent(fields)));
}

/// A date among the headers takes the place of the generated one: the latter
/// does not matter at all.
pub proof fn caller_date_suppresses_the_generated_date(
    status: u16,
    fields: Seq<Field>,
    content_length: Option<u64>,
    chunked: bool,
    keep_alive: bool,
    date: Seq<u8>,
    other_date: Seq<u8>,
)
    requires
        has_field(sent(fields), date_name()),
    ensures
        response_head(status, fields, content_length, chunked, keep_alive, date) == response_head(
            status,
            fields,
            content_length,
            chunked,
            keep_alive,
            other_date,
        ),
{
}

/// The fields in front of the first that is refused are dropped or valid, and
/// that one is neither.
pub proof fn lemma_accepted(fields: Seq<Field>, dropped: spec_fn(Field) -> bool)
    ensures
        0 <= accepted(fields, dropped) <= fields.len(),
        forall|i: int|
            0 <= i < accepted(fields, dropped) ==> dropped(#[trigger] fields[i])
                || fields[i].is_valid(),
        accepted(fields, dropped) < fields.len() ==> !dropped(fields[accepted(fields, dropped)])
            && !fields[accepted(fields, dropped)].is_valid(),
    decreases fields.len(),
{
    if fields.len() > 0 && (dropped(fields[0]) || fields[0].is_valid()) {
        lemma_accepted(fields.skip(1), dropped);
        let count = accepted(fields, dropped);
        assert forall|i: int| 0 <= i < count implies dropped(#[trigger] fields[i])
            || fields[i].is_valid() by {
            if i > 0 {
                assert(fields.skip(1)[i - 1] == fields[i]);
            }
        }
    }
}

/// The number of accepted fields is the number in front of the first that is
/// refused.
pub proof fn lemma_accepted_is(fields: Seq<Field>, dropped: spec_fn(Field) -> bool, count: int)
    requires
        0 <= count <= fields.len(),
        forall|i: int|
            0 <= i < count ==> dropped(#[trigger] fields[i]) || fields[i].is_valid(),
        count < fields.len() ==> !dropped(fields[count]) && !fields[count].is_valid(),
    ensures
        accepted(fields, dropped) == count,
{
    lemma_accepted(fields, dropped);
}

/// Where the fields are dropped or valid, those that are kept are valid and
/// would be kept again.
pub proof fn lemma_kept_are_valid(fields: Seq<Field>, dropped: spec_fn(Field) -> bool)
    requires
        forall|i: int|
            0 <= i < fields.len() ==> dropped(#[trigger] fields[i]) || fields[i].is_valid(),
    ensures
        forall|i: int|
            0 <= i < kept(fields, dropped).len() ==> (#[trigger] kept(
                fields,
                dropped,
            )[i]).is_valid() && !dropped(kept(fields, dropped)[i]),
    decreases fields.len(),
{
    reveal(Seq::filter);
    if fields.len() > 0 {
        let front = fields.drop_last();
        assert forall|i: int| 0 <= i < front.len() implies dropped(#[trigger] front[i])
            || front[i].is_valid() by {
            assert(front[i] == fields[i]);
        }
        lemma_kept_are_valid(front, dropped);
        assert(dropped(fields[fields.len() - 1]) || fields[fields.len() - 1].is_valid());
        let all = kept(fields, dropped);
        assert forall|i: int| 0 <= i < all.len() implies (#[trigger] all[i]).is_valid() && !dropped(
            all[i],
        ) by {
            if i < kept(front, dropped).len() {
                assert(all[i] == kept(front, dropped)[i]);
            }
        }
    }
}

/// Fields none of which is dropped are all kept.
proof fn lemma_all_kept(fields: Seq<Field>, dropped: spec_fn(Field) -> bool)
    requires
        forall|i: int| 0 <= i < fields.len() ==> !dropped(#[trigger] fields[i]),
    ensures
        kept(fields, dropped) == fields,
    decreases fields.len(),
{
    reveal(Seq::filter);
    if fields.len() > 0 {
        let front = fields.drop_last();
        assert forall|i: int| 0 <= i < front.len() implies !dropped(#[trigger] front[i]) by {
            assert(front[i] == fields[i]);
        }
        lemma_all_kept(front, dropped);
        assert(!dropped(fields[fields.len() - 1]));
        assert(front.push(fields.last()) =~= fields);
    }
}

/// The first field of those that are kept, where it is the first of all.
proof fn lemma_first_kept(fields: Seq<Field>, dropped: spec_fn(Field) -> bool)
    requires
        fields.len() > 0,
        !dropped(fields[0]),
    ensures
        kept(fields, dropped).len() > 0,
        kept(fields, dropped)[0] == fields[0],
    decreases fields.len(),
{
    reveal(Seq::filter);
    if fields.len() > 1 {
        lemma_first_kept(fields.drop_last(), dropped);
    } else {
        assert(fields.drop_last().filter(|field: Field| !dropped(field)).len() == 0);
    }
}

/// Framing fields among the headers of a response change nothing: the head is
/// the one of the other headers alone.
pub proof fn framing_fields_are_filtered(
    status: u16,
    fields: Seq<Field>,
    content_length: Option<u64>,
    chunked: bool,
    keep_alive: bool,
    date: Seq<u8>,
)
    ensures
        response_head(status, sent(fields), content_length, chunked, keep_alive, date)
            == response_head(status, fields, content_length, chunked, keep_alive, date),
{
    let dropped = |field: Field| frames_response(field);
    let count = sendable(fields);
    lemma_accepted(fields, dropped);
    let front = fields.take(count);
    let rest = fields.skip(count);
    assert(fields =~= front + rest);
    Seq::filter_distributes_over_add(front, rest, |field: Field| !dropped(field));
    assert(sent(fields) == sent(front) + sent(rest));
    assert forall|i: int| 0 <= i < front.len() implies dropped(#[trigger] front[i])
        || front[i].is_valid() by {
        assert(front[i] == fields[i]);
    }
    lemma_kept_are_valid(front, dropped);
    lemma_all_kept(sent(front), dropped);
    let sent_count = sent(front).len() as int;
    if count < fields.len() {
        assert(rest[0] == fields[count]);
        lemma_first_kept(rest, dropped);
        assert(sent(fields)[sent_count] == fields[count]);
    } else {
        reveal(Seq::filter);
        assert(rest.len() == 0);
        assert(sent(rest).len() == 0);
    }
    assert forall|i: int| 0 <= i < sent_count implies dropped(#[trigger] sent(fields)[i])
        || sent(fields)[i].is_valid() by {
        assert(sent(fields)[i] == sent(front)[i]);
    }
    lemma_accepted_is(sent(fields), dropped, sent_count);
    assert(sent(fields).take(sent_count) =~= sent(front));
    if count == fields.len() {
        assert(front =~= fields);
        assert(sent(fields) =~= sent(front));
    }
}

/// No header that is sent frames a message or rules its connection: the lines
/// that do are the encoder's own.
pub proof fn sent_headers_frame_nothing(fields: Seq<Field>, i: int)
    requires
        0 <= i < sent(fields).len(),
    ensures
        !frames_response(sent(fields)[i]),
{
    fields.lemma_filter_pred(|field: Field| !(|field: Field| frames_response(field))(field), i);
}

/// The lines of the head of a response, without their terminators.
pub open spec fn head_lines(
    status: u16,
    fields: Seq<Field>,
    content_length: Option<u64>,
    chunked: bool,
    keep_alive: bool,
    date: Seq<u8>,
) -> Seq<Seq<u8>> {
    seq![status_text(status)] + field_lines(sent(fields)) + added_lines(
        has_field(sent(fields), date_name()),
        content_length,
        chunked,
        keep_alive,
        date,
    )
}

/// A valid field makes up a line.
pub proof fn lemma_field_is_line(field: Field)
    requires
        field.is_valid(),
    ensures
        line::is_line(field_text(field)),
{
    reveal_strlit(": ");
    line::lemma_printable_is_line(": "@);
    let separator = ": ".spec_bytes();
    let text = field_text(field);
    assert forall|i: int| 0 <= i < text.len() implies #[trigger] text[i] != bytes::CR && text[i]
        != bytes::LF by {
        let value_start = field.name.len() + separator.len();
        if i < field.name.len() {
            assert(text[i] == field.name[i]);
        } else if i < value_start {
            assert(text[i] == separator[i - field.name.len()]);
        } else {
            assert(text[i] == field.value[i - value_start]);
        }
    }
}

/// Two lines without a terminator between them make up one.
proof fn lemma_lines_join(first: Seq<u8>, second: Seq<u8>)
    requires
        line::is_line(first),
        line::is_line(second),
    ensures
        line::is_line(first + second),
{
    let text = first + second;
    assert forall|i: int| 0 <= i < text.len() implies #[trigger] text[i] != bytes::CR && text[i]
        != bytes::LF by {
        if i < first.len() {
            assert(text[i] == first[i]);
        } else {
            assert(text[i] == second[i - first.len()]);
        }
    }
}

/// A number makes up a line.
proof fn lemma_numeral_is_line(value: nat)
    ensures
        line::is_line(number::numeral(value, 10)),
{
    number::lemma_numeral_digits(value, 10);
    let text = number::numeral(value, 10);
    assert forall|i: int| 0 <= i < text.len() implies #[trigger] text[i] != bytes::CR && text[i]
        != bytes::LF by {
        assert(48 <= text[i]);
    }
}

proof fn lemma_status_is_line(status: u16)
    ensures
        line::is_line(status_text(status)),
{
    reveal_strlit("HTTP/1.1 ");
    reveal_strlit(" ");
    line::lemma_printable_is_line("HTTP/1.1 "@);
    line::lemma_printable_is_line(" "@);
    status::lemma_reason_is_printable(status);
    line::lemma_printable_is_line(status::reason(status));
    lemma_numeral_is_line(status as nat);
    let version = "HTTP/1.1 ".spec_bytes();
    let number = number::numeral(status as nat, 10);
    lemma_lines_join(version, number);
    lemma_lines_join(version + number, " ".spec_bytes());
    lemma_lines_join(
        version + number + " ".spec_bytes(),
        vstd::utf8::encode_utf8(status::reason(status)),
    );
}

pub proof fn lemma_date_is_line(date: Seq<u8>)
    requires
        field::is_value(date),
    ensures
        line::is_line(date_text(date)),
{
    reveal_strlit("date");
    vstd::utf8::is_ascii_chars_encode_utf8("date"@);
    let name = "date".spec_bytes();
    assert(name =~= seq![100u8, 97u8, 116u8, 101u8]);
    lemma_field_is_line(Field { name, value: date });
}

proof fn lemma_added_are_lines(
    has_date: bool,
    content_length: Option<u64>,
    chunked: bool,
    keep_alive: bool,
    date: Seq<u8>,
)
    requires
        has_date || field::is_value(date),
    ensures
        ({
            let lines = added_lines(has_date, content_length, chunked, keep_alive, date);
            forall|i: int| 0 <= i < lines.len() ==> line::is_line(#[trigger] lines[i])
        }),
{
    reveal_strlit("content-length: ");
    reveal_strlit("transfer-encoding: chunked");
    reveal_strlit("connection: close");
    line::lemma_printable_is_line("content-length: "@);
    line::lemma_printable_is_line("transfer-encoding: chunked"@);
    line::lemma_printable_is_line("connection: close"@);
    if let Some(length) = content_length {
        lemma_numeral_is_line(length as nat);
        lemma_lines_join("content-length: ".spec_bytes(), number::numeral(length as nat, 10));
    }
    if !has_date {
        lemma_date_is_line(date);
    }
}

/// No header can smuggle in another, or end the head: the lines of an encoded
/// head are the status line, one line for each header that is sent, the lines
/// that the encoder adds, and the empty line that ends it.
pub proof fn heads_hold_no_injected_lines(
    status: u16,
    fields: Seq<Field>,
    content_length: Option<u64>,
    chunked: bool,
    keep_alive: bool,
    date: Seq<u8>,
)
    requires
        response_head(status, fields, content_length, chunked, keep_alive, date).result is Ok,
    ensures
        ({
            let lines = head_lines(status, fields, content_length, chunked, keep_alive, date);
            let written = response_head(
                status,
                fields,
                content_length,
                chunked,
                keep_alive,
                date,
            ).written;
            &&& forall|i: int| 0 <= i < lines.len() ==> line::is_line(#[trigger] lines[i])
            &&& written == line::terminated(lines) + bytes::crlf()
            &&& bytes::lines(written) == lines + seq![Seq::<u8>::empty(), Seq::<u8>::empty()]
        }),
{
    let dropped = |field: Field| frames_response(field);
    lemma_accepted(fields, dropped);
    assert(fields.take(fields.len() as int) =~= fields);
    lemma_kept_are_valid(fields, dropped);
    let has_date = has_field(sent(fields), date_name());
    let front = seq![status_text(status)] + field_lines(sent(fields));
    let added = added_lines(has_date, content_length, chunked, keep_alive, date);
    let lines = front + added;
    lemma_status_is_line(status);
    lemma_added_are_lines(has_date, content_length, chunked, keep_alive, date);
    assert forall|i: int| 0 <= i < lines.len() implies line::is_line(#[trigger] lines[i]) by {
        if 0 < i < front.len() {
            lemma_field_is_line(sent(fields)[i - 1]);
        } else if i >= front.len() {
            assert(lines[i] == added[i - front.len()]);
        }
    }
    line::lemma_terminated_adds(front, added);
    let written = line::terminated(lines) + bytes::crlf();
    assert(line::terminated(front) + (line::terminated(added) + bytes::crlf()) =~= written);
    line::terminated_lines_read_back(lines, bytes::crlf());
    line::lemma_empty_lines();
}

/// Appends the status line of a response.
fn push_status_line(output: &mut Vec<u8>, status: u16)
    ensures
        final(output)@ == old(output)@ + line::terminated(seq![status_text(status)]),
{
    output.extend_from_slice("HTTP/1.1 ".as_bytes());
    number::push_decimal(output, status as u64);
    output.extend_from_slice(" ".as_bytes());
    line::push_line(output, status::reason_phrase(status).as_bytes());
    proof {
        line::lemma_one_line(status_text(status));
    }
    assert(output@ =~= old(output)@ + line::terminated(seq![status_text(status)]));
}

/// Appends a header line.
pub(crate) fn push_header(output: &mut Vec<u8>, name: &[u8], value: &[u8])
    ensures
        final(output)@ == old(output)@ + (field_text(Field { name: name@, value: value@ })
            + bytes::crlf()),
{
    output.extend_from_slice(name);
    output.extend_from_slice(": ".as_bytes());
    line::push_line(output, value);
    assert(output@ =~= old(output)@ + (field_text(Field { name: name@, value: value@ })
        + bytes::crlf()));
}

/// Appends the line that gives the length of a body.
fn push_content_length_line(output: &mut Vec<u8>, length: u64)
    ensures
        final(output)@ == old(output)@ + ("content-length: ".spec_bytes() + number::numeral(
            length as nat,
            10,
        ) + bytes::crlf()),
{
    output.extend_from_slice("content-length: ".as_bytes());
    number::push_decimal(output, length);
    output.extend_from_slice(&[bytes::CR, bytes::LF]);
    assert(output@ =~= old(output)@ + ("content-length: ".spec_bytes() + number::numeral(
        length as nat,
        10,
    ) + bytes::crlf()));
}

/// Appends the line that frames the body of a response, if there is one.
fn push_framing_line(output: &mut Vec<u8>, content_length: Option<u64>, chunked: bool)
    ensures
        final(output)@ == old(output)@ + line::terminated(framing_lines(content_length, chunked)),
{
    let ghost lines = framing_lines(content_length, chunked);
    proof {
        if lines.len() > 0 {
            line::lemma_one_line(lines[0]);
            assert(lines =~= seq![lines[0]]);
        }
    }
    if let Some(length) = content_length {
        push_content_length_line(output, length);
    } else if chunked {
        line::push_line(output, "transfer-encoding: chunked".as_bytes());
    }
    assert(output@ =~= old(output)@ + line::terminated(lines));
}

/// One line more, terminated like the others.
proof fn lemma_one_more_line(before: Seq<u8>, lines: Seq<Seq<u8>>, last: Seq<u8>)
    ensures
        before + line::terminated(lines) + (last + bytes::crlf()) == before + line::terminated(
            lines.push(last),
        ),
{
    assert(lines.push(last).drop_last() =~= lines);
    assert(before + line::terminated(lines) + (last + bytes::crlf()) =~= before
        + line::terminated(lines.push(last)));
}

/// Appends what follows the headers of a response.
///
/// # Errors
///
/// Returns an error for a date that is needed and cannot stand in a header.
fn push_framing_tail(
    output: &mut Vec<u8>,
    content_length: Option<u64>,
    chunked: bool,
    keep_alive: bool,
    date: &str,
    has_date: bool,
) -> (encoded: Result<(), EncodeError>)
    ensures
        ({
            let wanted = tail(has_date, content_length, chunked, keep_alive, date.spec_bytes());
            &&& final(output)@ == old(output)@ + wanted.written
            &&& encoded == wanted.result
        }),
{
    let ghost before = output@;
    let ghost mut lines = framing_lines(content_length, chunked);
    push_framing_line(output, content_length, chunked);
    if !has_date {
        if !field::valid_header_value(date.as_bytes()) {
            return Err(EncodeError::InvalidDate);
        }
        push_header(output, "date".as_bytes(), date.as_bytes());
        proof {
            lemma_one_more_line(before, lines, date_text(date.spec_bytes()));
            lines = lines.push(date_text(date.spec_bytes()));
        }
    }
    if !keep_alive {
        line::push_line(output, "connection: close".as_bytes());
        proof {
            lemma_one_more_line(before, lines, "connection: close".spec_bytes());
            lines = lines.push("connection: close".spec_bytes());
        }
    }
    assert(output@ == before + line::terminated(lines));
    output.extend_from_slice(&[bytes::CR, bytes::LF]);
    assert(output@ =~= before + (line::terminated(lines) + bytes::crlf()));
    Ok(())
}

/// One more field is dropped, or sent behind the others.
pub proof fn lemma_one_more_kept(fields: Seq<Field>, dropped: spec_fn(Field) -> bool, i: int)
    requires
        0 <= i < fields.len(),
    ensures
        ({
            let so_far = kept(fields.take(i), dropped);
            &&& kept(fields.take(i + 1), dropped) == if dropped(fields[i]) {
                so_far
            } else {
                so_far.push(fields[i])
            }
            &&& line::terminated(field_lines(so_far.push(fields[i]))) == line::terminated(
                field_lines(so_far),
            ) + (field_text(fields[i]) + bytes::crlf())
        }),
        forall|name: Seq<u8>| #[trigger]
            has_field(kept(fields.take(i), dropped).push(fields[i]), name) == (has_field(
                kept(fields.take(i), dropped),
                name,
            ) || fields[i].is_named(name)),
{
    reveal(Seq::filter);
    let so_far = kept(fields.take(i), dropped);
    let more = so_far.push(fields[i]);
    assert(fields.take(i + 1).drop_last() =~= fields.take(i));
    assert(field_lines(more).drop_last() =~= field_lines(so_far));
    assert(field_lines(more).last() == field_text(fields[i]));
    assert(line::terminated(field_lines(more)) =~= line::terminated(field_lines(so_far)) + (
    field_text(fields[i]) + bytes::crlf()));
    assert forall|name: Seq<u8>| #[trigger]
        has_field(more, name) == (has_field(so_far, name) || fields[i].is_named(name)) by {
        if has_field(so_far, name) {
            let j = choose|j: int| 0 <= j < so_far.len() && (#[trigger] so_far[j]).is_named(name);
            assert(more[j].is_named(name));
        }
        assert(more[so_far.len() as int] == fields[i]);
    }
}

/// Whether a header would frame a response or rule its connection.
fn is_framing_header(name: &[u8]) -> (framing: bool)
    ensures
        forall|value: Seq<u8>| framing == frames_response((Field { name: name@, value })),
{
    bytes::eq_ignore_ascii_case(name, "connection".as_bytes()) || bytes::eq_ignore_ascii_case(
        name,
        "content-length".as_bytes(),
    ) || bytes::eq_ignore_ascii_case(name, "transfer-encoding".as_bytes())
}

/// Appends the headers of a response that frame nothing, and tells whether one
/// of them is a date.
///
/// # Errors
///
/// Returns an error for unsafe header names or values.
fn push_headers(output: &mut Vec<u8>, headers: &[(&str, &str)]) -> (has_date: Result<
    bool,
    EncodeError,
>)
    ensures
        ({
            let fields = fields_of(headers@);
            let count = sendable(fields);
            &&& 0 <= count <= fields.len()
            &&& final(output)@ == old(output)@ + line::terminated(
                field_lines(sent(fields.take(count))),
            )
            &&& match has_date {
                Ok(has_date) => {
                    &&& count == fields.len()
                    &&& has_date == has_field(sent(fields), date_name())
                },
                Err(error) => count < fields.len() && error == EncodeError::InvalidHeader,
            }
        }),
{
    let ghost fields = fields_of(headers@);
    let ghost dropped = |field: Field| frames_response(field);
    let mut has_date = false;
    proof {
        reveal(Seq::filter);
        assert(field_lines(sent(fields.take(0))) =~= Seq::<Seq<u8>>::empty());
        assert(output@ =~= old(output)@ + line::terminated(field_lines(sent(fields.take(0)))));
    }
    for i in 0..headers.len()
        invariant
            fields == fields_of(headers@),
            dropped == (|field: Field| frames_response(field)),
            forall|j: int|
                0 <= j < i ==> dropped(#[trigger] fields[j]) || fields[j].is_valid(),
            output@ == old(output)@ + line::terminated(field_lines(sent(fields.take(i as int)))),
            has_date == has_field(sent(fields.take(i as int)), date_name()),
    {
        let name = headers[i].0.as_bytes();
        let value = headers[i].1.as_bytes();
        proof {
            assert(fields[i as int] == (Field { name: name@, value: value@ }));
            lemma_one_more_kept(fields, dropped, i as int);
        }
        if !is_framing_header(name) {
            if !field::valid_header(name, value) {
                proof {
                    lemma_accepted_is(fields, dropped, i as int);
                }
                return Err(EncodeError::InvalidHeader);
            }
            has_date = has_date || bytes::eq_ignore_ascii_case(name, "date".as_bytes());
            push_header(output, name, value);
            assert(output@ =~= old(output)@ + line::terminated(
                field_lines(sent(fields.take(i + 1))),
            ));
        }
    }
    proof {
        lemma_accepted_is(fields, dropped, fields.len() as int);
        assert(fields.take(fields.len() as int) =~= fields);
    }
    Ok(has_date)
}

/// Encodes an HTTP/1 response head while filtering caller-supplied framing
/// fields. The adapter remains responsible for writing buffered/streaming body
/// bytes and chunk terminators.
///
/// # Errors
///
/// Returns an error for unsafe header names, values, or date.
pub fn encode_response_head(
    output: &mut Vec<u8>,
    status: u16,
    headers: &[(&str, &str)],
    content_length: Option<u64>,
    chunked: bool,
    keep_alive: bool,
    date: &str,
) -> (encoded: Result<(), EncodeError>)
    ensures
        ({
            let wanted = response_head(
                status,
                fields_of(headers@),
                content_length,
                chunked,
                keep_alive,
                date.spec_bytes(),
            );
            &&& final(output)@ == old(output)@ + wanted.written
            &&& encoded == wanted.result
        }),
{
    let ghost fields = fields_of(headers@);
    let ghost before = output@;
    let ghost status_line = seq![status_text(status)];
    let ghost header_lines = field_lines(sent(fields.take(sendable(fields))));
    proof {
        line::lemma_terminated_adds(status_line, header_lines);
    }
    push_status_line(output, status);
    let pushed = push_headers(output, headers);
    assert(output@ =~= before + line::terminated(status_line + header_lines));
    let ghost so_far = output@;
    match pushed {
        Err(error) => Err(error),
        Ok(has_date) => {
            let encoded = push_framing_tail(
                output,
                content_length,
                chunked,
                keep_alive,
                date,
                has_date,
            );
            proof {
                assert(fields.take(fields.len() as int) =~= fields);
                let end = tail(has_date, content_length, chunked, keep_alive, date.spec_bytes());
                let lines = status_line + header_lines;
                assert(so_far + end.written =~= before + (line::terminated(lines) + end.written));
            }
            encoded
        },
    }
}

/// Response headers validated and encoded once for reuse across responses.
///
/// [`encode_response_head`] re-validates every header on every call, which is
/// the right default for uncontrolled input. When the same header set is sent
/// many times, prepare it once and encode each response with
/// [`encode_response_head_prepared`].
#[derive(Debug)]
pub struct PreparedHeaders {
    encoded: Vec<u8>,
    has_date: bool,
}

impl View for PreparedHeaders {
    type V = Prepared;

    closed spec fn view(&self) -> Prepared {
        Prepared { encoded: self.encoded@, has_date: self.has_date }
    }
}

impl Clone for PreparedHeaders {
    fn clone(&self) -> (copy: Self)
        ensures
            copy@ == self@,
    {
        let mut encoded: Vec<u8> = Vec::new();
        encoded.extend_from_slice(self.encoded.as_slice());
        assert(encoded@ =~= self.encoded@);
        PreparedHeaders { encoded, has_date: self.has_date }
    }
}

impl PreparedHeaders {
    /// Validates response headers once, filtering caller-supplied framing
    /// fields exactly like [`encode_response_head`].
    ///
    /// # Errors
    ///
    /// Returns an error for unsafe header names/values.
    pub fn new(headers: &[(&str, &str)]) -> (prepared_headers: Result<Self, EncodeError>)
        ensures
            ({
                let fields = fields_of(headers@);
                match prepared_headers {
                    Ok(headers) => sendable(fields) == fields.len() && headers@ == prepared(fields),
                    Err(error) => {
                        &&& sendable(fields) < fields.len()
                        &&& error == EncodeError::InvalidHeader
                    },
                }
            }),
    {
        let ghost fields = fields_of(headers@);
        let mut encoded: Vec<u8> = Vec::new();
        match push_headers(&mut encoded, headers) {
            Err(error) => Err(error),
            Ok(has_date) => {
                assert(fields.take(fields.len() as int) =~= fields);
                assert(encoded@ =~= line::terminated(field_lines(sent(fields))));
                Ok(PreparedHeaders { encoded, has_date })
            },
        }
    }
}

/// Encodes an HTTP/1 response head from pre-validated headers.
///
/// Framing behavior matches [`encode_response_head`]; per-header validation
/// was already paid once in [`PreparedHeaders::new`].
///
/// # Errors
///
/// Returns an error for an unsafe `date` value.
pub fn encode_response_head_prepared(
    output: &mut Vec<u8>,
    status: u16,
    headers: &PreparedHeaders,
    content_length: Option<u64>,
    chunked: bool,
    keep_alive: bool,
    date: &str,
) -> (encoded: Result<(), EncodeError>)
    ensures
        ({
            let wanted = prepared_head(
                status,
                headers@,
                content_length,
                chunked,
                keep_alive,
                date.spec_bytes(),
            );
            &&& final(output)@ == old(output)@ + wanted.written
            &&& encoded == wanted.result
        }),
{
    let ghost before = output@;
    let ghost head = line::terminated(seq![status_text(status)]) + headers.encoded@;
    push_status_line(output, status);
    output.extend_from_slice(headers.encoded.as_slice());
    assert(output@ =~= before + head);
    let encoded = push_framing_tail(
        output,
        content_length,
        chunked,
        keep_alive,
        date,
        headers.has_date,
    );
    proof {
        let end = tail(headers.has_date, content_length, chunked, keep_alive, date.spec_bytes());
        assert(before + head + end.written =~= before + (head + end.written));
    }
    encoded
}

} // verus!
