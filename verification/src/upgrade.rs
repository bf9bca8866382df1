//! Responses that switch protocols.

use crate::bytes;
use crate::error::EncodeError;
use crate::field;
use crate::field::Field;
use crate::line;
use crate::response;
use crate::response::Encoding;
use crate::text;
use vstd::prelude::*;
use vstd::string::StringSliceAdditionalSpecFns;

verus! {

/// The status line of a response that switches protocols, without its
/// terminator.
pub open spec fn switching_text() -> Seq<u8> {
    "HTTP/1.1 101 Switching Protocols".spec_bytes()
}

/// The headers of an upgrade response that are sent: those that frame no body.
pub open spec fn sent(fields: Seq<Field>) -> Seq<Field> {
    response::kept(fields, |field: Field| response::frames_body(field))
}

/// The number of headers of an upgrade response in front of the first that must
/// not be sent.
pub open spec fn sendable(fields: Seq<Field>) -> int {
    response::accepted(fields, |field: Field| response::frames_body(field))
}

/// The field is a connection header that lists `upgrade`.
pub open spec fn asks_upgrade(field: Field) -> bool {
    field.is_named(field::connection_name()) && text::lists(field.value, "upgrade".spec_bytes())
}

/// The field is an upgrade header that names a protocol.
pub open spec fn names_protocol(field: Field) -> bool {
    field.is_named("upgrade".spec_bytes()) && text::trimmed(field.value).len() > 0
}

/// One of the fields asks for an upgrade of the connection.
pub open spec fn upgrade_asked(fields: Seq<Field>) -> bool {
    exists|i: int| 0 <= i < fields.len() && asks_upgrade(#[trigger] fields[i])
}

/// One of the fields names the protocol to switch to.
pub open spec fn protocol_named(fields: Seq<Field>) -> bool {
    exists|i: int| 0 <= i < fields.len() && names_protocol(#[trigger] fields[i])
}

/// The fields hold both headers that switching protocols takes.
pub open spec fn switches(fields: Seq<Field>) -> bool {
    upgrade_asked(fields) && protocol_named(fields)
}

/// One more field adds to what the others say.
proof fn lemma_one_more_field(so_far: Seq<Field>, field: Field)
    ensures
        upgrade_asked(so_far.push(field)) == (upgrade_asked(so_far) || asks_upgrade(field)),
        protocol_named(so_far.push(field)) == (protocol_named(so_far) || names_protocol(field)),
{
    let more = so_far.push(field);
    assert(more[so_far.len() as int] == field);
    if upgrade_asked(so_far) {
        let i = choose|i: int| 0 <= i < so_far.len() && asks_upgrade(#[trigger] so_far[i]);
        assert(asks_upgrade(more[i]));
    }
    if protocol_named(so_far) {
        let i = choose|i: int| 0 <= i < so_far.len() && names_protocol(#[trigger] so_far[i]);
        assert(names_protocol(more[i]));
    }
}

/// The lines of the head of an upgrade response, without their terminators: the
/// status line, the headers that are sent, and a date unless there is one.
pub open spec fn head_lines(fields: Seq<Field>, date: Seq<u8>) -> Seq<Seq<u8>> {
    let lines = seq![switching_text()] + response::field_lines(sent(fields));
    if response::has_field(sent(fields), response::date_name()) {
        lines
    } else {
        lines.push(response::date_text(date))
    }
}

/// The head of an upgrade response: its status line and the headers that frame
/// no body, up to the first that is invalid, a date unless there is one, and the
/// empty line.
pub open spec fn upgrade_head(fields: Seq<Field>, date: Seq<u8>) -> Encoding {
    let lines = seq![switching_text()] + response::field_lines(sent(fields.take(sendable(fields))));
    if sendable(fields) < fields.len() {
        Encoding {
            written: line::terminated(lines),
            result: Err(EncodeError::InvalidUpgradeHeader),
        }
    } else if !switches(sent(fields)) {
        Encoding { written: line::terminated(lines), result: Err(EncodeError::MissingUpgrade) }
    } else if !response::has_field(sent(fields), response::date_name()) && !field::is_value(date) {
        Encoding { written: line::terminated(lines), result: Err(EncodeError::InvalidDate) }
    } else {
        Encoding {
            written: line::terminated(head_lines(fields, date)) + bytes::crlf(),
            result: Ok(()),
        }
    }
}

/// Nothing in an upgrade response frames a body.
pub proof fn upgrade_heads_frame_no_body(fields: Seq<Field>, i: int)
    requires
        0 <= i < sent(fields).len(),
    ensures
        !sent(fields)[i].is_named(field::content_length_name()),
        !sent(fields)[i].is_named(field::transfer_encoding_name()),
{
    fields.lemma_filter_pred(
        |field: Field| !(|field: Field| response::frames_body(field))(field),
        i,
    );
}

/// No header can smuggle in another, or end the head: the lines of an encoded
/// head are the status line, one line for each header that is sent, perhaps a
/// date, and the empty line that ends it.
pub proof fn upgrade_heads_hold_no_injected_lines(fields: Seq<Field>, date: Seq<u8>)
    requires
        upgrade_head(fields, date).result is Ok,
    ensures
        forall|i: int|
            0 <= i < head_lines(fields, date).len() ==> line::is_line(
                #[trigger] head_lines(fields, date)[i],
            ),
        bytes::lines(upgrade_head(fields, date).written) == head_lines(fields, date) + seq![
            Seq::<u8>::empty(),
            Seq::<u8>::empty(),
        ],
{
    let dropped = |field: Field| response::frames_body(field);
    response::lemma_accepted(fields, dropped);
    response::lemma_kept_are_valid(fields, dropped);
    reveal_strlit("HTTP/1.1 101 Switching Protocols");
    line::lemma_printable_is_line("HTTP/1.1 101 Switching Protocols"@);
    let lines = head_lines(fields, date);
    let headers = sent(fields);
    assert forall|i: int| 0 <= i < lines.len() implies line::is_line(#[trigger] lines[i]) by {
        if 0 < i <= headers.len() {
            response::lemma_field_is_line(headers[i - 1]);
        } else if i > headers.len() {
            response::lemma_date_is_line(date);
        }
    }
    line::terminated_lines_read_back(lines, bytes::crlf());
    line::lemma_empty_lines();
}

/// Whether the header asks for an upgrade of the connection.
fn is_upgrade_request(name: &[u8], value: &[u8]) -> (asks: bool)
    ensures
        asks == asks_upgrade(Field { name: name@, value: value@ }),
{
    bytes::eq_ignore_ascii_case(name, "connection".as_bytes()) && text::has_element(
        value,
        "upgrade".as_bytes(),
    )
}

/// Whether the header names the protocol to switch to.
fn is_protocol(name: &[u8], value: &[u8]) -> (named: bool)
    ensures
        named == names_protocol(Field { name: name@, value: value@ }),
{
    bytes::eq_ignore_ascii_case(name, "upgrade".as_bytes()) && text::trim(value).len() > 0
}

/// Encodes a `101 Switching Protocols` response without HTTP body framing.
///
/// # Errors
///
/// Returns an error unless safe `Connection: Upgrade` and `Upgrade` headers are
/// present.
pub fn encode_upgrade_response(
    output: &mut Vec<u8>,
    headers: &[(&str, &str)],
    date: &str,
) -> (encoded: Result<(), EncodeError>)
    ensures
        ({
            let wanted = upgrade_head(response::fields_of(headers@), date.spec_bytes());
            &&& final(output)@ == old(output)@ + wanted.written
            &&& encoded == wanted.result
        }),
{
    let ghost before = output@;
    let ghost fields = response::fields_of(headers@);
    let ghost dropped = |field: Field| response::frames_body(field);
    let ghost first = seq![switching_text()];
    line::push_line(output, "HTTP/1.1 101 Switching Protocols".as_bytes());
    let mut has_connection_upgrade = false;
    let mut has_upgrade = false;
    let mut has_date = false;
    proof {
        reveal(Seq::filter);
        line::lemma_one_line(switching_text());
        assert(first + response::field_lines(sent(fields.take(0))) =~= first);
    }
    for i in 0..headers.len()
        invariant
            fields == response::fields_of(headers@),
            dropped == (|field: Field| response::frames_body(field)),
            first == seq![switching_text()],
            before == old(output)@,
            forall|j: int|
                0 <= j < i ==> dropped(#[trigger] fields[j]) || fields[j].is_valid(),
            output@ == before + line::terminated(
                first + response::field_lines(sent(fields.take(i as int))),
            ),
            has_date == response::has_field(sent(fields.take(i as int)), response::date_name()),
            has_connection_upgrade == upgrade_asked(sent(fields.take(i as int))),
            has_upgrade == protocol_named(sent(fields.take(i as int))),
    {
        let name = headers[i].0.as_bytes();
        let value = headers[i].1.as_bytes();
        let ghost field = fields[i as int];
        let ghost so_far = sent(fields.take(i as int));
        let ghost more = sent(fields.take(i + 1));
        proof {
            assert(field == (Field { name: name@, value: value@ }));
            response::lemma_one_more_kept(fields, dropped, i as int);
        }
        if !(bytes::eq_ignore_ascii_case(name, "content-length".as_bytes())
            || bytes::eq_ignore_ascii_case(name, "transfer-encoding".as_bytes())) {
            if !field::valid_header(name, value) {
                proof {
                    response::lemma_accepted_is(fields, dropped, i as int);
                }
                return Err(EncodeError::InvalidUpgradeHeader);
            }
            has_connection_upgrade = has_connection_upgrade || is_upgrade_request(name, value);
            has_upgrade = has_upgrade || is_protocol(name, value);
            has_date = has_date || bytes::eq_ignore_ascii_case(name, "date".as_bytes());
            response::push_header(output, name, value);
            proof {
                lemma_one_more_field(so_far, field);
                line::lemma_terminated_adds(first, response::field_lines(so_far));
                line::lemma_terminated_adds(first, response::field_lines(more));
                assert(output@ =~= before + line::terminated(first + response::field_lines(more)));
            }
        }
    }
    proof {
        response::lemma_accepted_is(fields, dropped, fields.len() as int);
        assert(fields.take(fields.len() as int) =~= fields);
    }
    if !has_connection_upgrade || !has_upgrade {
        return Err(EncodeError::MissingUpgrade);
    }
    let ghost lines = head_lines(fields, date.spec_bytes());
    if !has_date {
        if !field::valid_header_value(date.as_bytes()) {
            return Err(EncodeError::InvalidDate);
        }
        response::push_header(output, "date".as_bytes(), date.as_bytes());
        assert(lines.drop_last() =~= first + response::field_lines(sent(fields)));
        assert(lines.last() == response::date_text(date.spec_bytes()));
    }
    assert(output@ =~= before + line::terminated(lines));
    output.extend_from_slice(&[bytes::CR, bytes::LF]);
    assert(output@ =~= before + (line::terminated(lines) + bytes::crlf()));
    Ok(())
}

} // verus!
