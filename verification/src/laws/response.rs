//! Laws of response heads.

use crate::bytes;
use crate::error::EncodeError;
use crate::field;
use crate::field::Field;
use crate::line;
use crate::number;
use crate::response;
use crate::status;
use crate::text;
use crate::upgrade;
use vstd::prelude::*;
use vstd::string::StringSliceAdditionalSpecFns;

verus! {

/// The names of the headers that a caller does not get to send: `content-length`
/// and `transfer-encoding`, and `connection` in any response but an upgrade.
pub open spec fn is_left_out(name: Seq<u8>, upgrade: bool) -> bool {
    ||| bytes::same_ignoring_case(name, "content-length".spec_bytes())
    ||| bytes::same_ignoring_case(name, "transfer-encoding".spec_bytes())
    ||| !upgrade && bytes::same_ignoring_case(name, "connection".spec_bytes())
}

/// A header may be sent, or is left out.
pub open spec fn is_harmless(field: Field, upgrade: bool) -> bool {
    is_left_out(field.name, upgrade) || (field::is_name(field.name) && field::is_value(field.value))
}

/// All headers may be sent or are left out.
pub open spec fn all_harmless(fields: Seq<Field>, upgrade: bool) -> bool {
    forall|i: int| 0 <= i < fields.len() ==> is_harmless(#[trigger] fields[i], upgrade)
}

/// One of the headers is a date.
pub open spec fn brings_date(fields: Seq<Field>) -> bool {
    exists|i: int|
        0 <= i < fields.len() && bytes::same_ignoring_case(
            (#[trigger] fields[i]).name,
            "date".spec_bytes(),
        )
}

/// The line of a header.
pub open spec fn spelled_line(field: Field) -> Seq<u8> {
    field.name + seq![58u8, 32u8] + field.value + seq![13u8, 10u8]
}

/// The lines of the headers that are sent, in the order given.
pub open spec fn spelled(fields: Seq<Field>, upgrade: bool) -> Seq<u8>
    decreases fields.len(),
{
    if fields.len() == 0 {
        Seq::empty()
    } else if is_left_out(fields[0].name, upgrade) {
        spelled(fields.skip(1), upgrade)
    } else {
        spelled_line(fields[0]) + spelled(fields.skip(1), upgrade)
    }
}

/// The status line of a response.
pub open spec fn spelled_status(status: u16) -> Seq<u8> {
    "HTTP/1.1 ".spec_bytes() + number::numeral(status as nat, 10) + seq![32u8]
        + vstd::utf8::encode_utf8(status::reason(status)) + seq![13u8, 10u8]
}

/// The line for the body: its length, if that is known, or else its coding, if it
/// is chunked.
pub open spec fn spelled_framing(content_length: Option<u64>, chunked: bool) -> Seq<u8> {
    if content_length is Some {
        "content-length: ".spec_bytes() + number::numeral(content_length->0 as nat, 10)
            + seq![13u8, 10u8]
    } else if chunked {
        "transfer-encoding: chunked".spec_bytes() + seq![13u8, 10u8]
    } else {
        Seq::empty()
    }
}

/// The lines that end a head: a date unless there is one, word that the
/// connection closes if it does, and an empty line.
pub open spec fn spelled_end(has_date: bool, keep_alive: bool, date: Seq<u8>) -> Seq<u8> {
    (if has_date {
        Seq::empty()
    } else {
        "date".spec_bytes() + seq![58u8, 32u8] + date + seq![13u8, 10u8]
    }) + (if keep_alive {
        Seq::empty()
    } else {
        "connection: close".spec_bytes() + seq![13u8, 10u8]
    }) + seq![13u8, 10u8]
}

proof fn lemma_names(field: Field)
    ensures
        response::frames_response(field) == is_left_out(field.name, false),
        response::frames_body(field) == is_left_out(field.name, true),
{
}

proof fn lemma_separator()
    ensures
        ": ".spec_bytes() == seq![58u8, 32u8],
        " ".spec_bytes() == seq![32u8],
        bytes::crlf() == seq![13u8, 10u8],
{
    reveal_strlit(": ");
    reveal_strlit(" ");
    vstd::utf8::is_ascii_chars_encode_utf8(": "@);
    vstd::utf8::is_ascii_chars_encode_utf8(" "@);
    assert(": ".spec_bytes() =~= seq![58u8, 32u8]);
    assert(" ".spec_bytes() =~= seq![32u8]);
    assert(bytes::crlf() =~= seq![13u8, 10u8]);
}

proof fn lemma_spelled(fields: Seq<Field>, upgrade: bool, dropped: spec_fn(Field) -> bool)
    requires
        forall|field: Field| #[trigger] dropped(field) == is_left_out(field.name, upgrade),
    ensures
        spelled(fields, upgrade) == line::terminated(
            response::field_lines(response::kept(fields, dropped)),
        ),
    decreases fields.len(),
{
    reveal(Seq::filter);
    lemma_separator();
    if fields.len() > 0 {
        let field = fields[0];
        let rest = fields.skip(1);
        lemma_spelled(rest, upgrade, dropped);
        assert(fields =~= seq![field] + rest);
        Seq::filter_distributes_over_add(seq![field], rest, |field: Field| !dropped(field));
        assert(seq![field].drop_last() =~= Seq::<Field>::empty());
        assert(seq![field].last() == field);
        let first = response::kept(seq![field], dropped);
        assert(Seq::<Field>::empty().filter(|field: Field| !dropped(field)).len() == 0);
        if dropped(field) {
            assert(first =~= Seq::<Field>::empty());
            assert(first + response::kept(rest, dropped) =~= response::kept(rest, dropped));
        } else {
            assert(first =~= seq![field]);
            let lines = response::field_lines(response::kept(rest, dropped));
            let text = response::field_text(field);
            assert(response::field_lines(seq![field] + response::kept(rest, dropped))
                =~= seq![text] + lines);
            line::lemma_terminated_adds(seq![text], lines);
            line::lemma_one_line(text);
            assert(text + bytes::crlf() =~= spelled_line(field));
        }
    } else {
        assert(response::field_lines(response::kept(fields, dropped)) =~= Seq::<Seq<u8>>::empty());
    }
}

proof fn lemma_all_accepted(fields: Seq<Field>, upgrade: bool, dropped: spec_fn(Field) -> bool)
    requires
        forall|field: Field| #[trigger] dropped(field) == is_left_out(field.name, upgrade),
    ensures
        response::accepted(fields, dropped) == fields.len() <==> all_harmless(fields, upgrade),
{
    response::lemma_accepted(fields, dropped);
    let count = response::accepted(fields, dropped);
    if count == fields.len() {
        assert forall|i: int| 0 <= i < fields.len() implies is_harmless(
            #[trigger] fields[i],
            upgrade,
        ) by {
            assert(dropped(fields[i]) || fields[i].is_valid());
        }
    } else {
        assert(!is_harmless(fields[count], upgrade));
    }
}

proof fn lemma_refused_at(
    fields: Seq<Field>,
    upgrade: bool,
    dropped: spec_fn(Field) -> bool,
    refused: int,
)
    requires
        forall|field: Field| #[trigger] dropped(field) == is_left_out(field.name, upgrade),
        0 <= refused < fields.len(),
        !is_harmless(fields[refused], upgrade),
        all_harmless(fields.take(refused), upgrade),
    ensures
        response::accepted(fields, dropped) == refused,
{
    assert forall|i: int| 0 <= i < refused implies dropped(#[trigger] fields[i])
        || fields[i].is_valid() by {
        assert(is_harmless(fields.take(refused)[i], upgrade));
    }
    response::lemma_accepted_is(fields, dropped, refused);
}

proof fn lemma_date(fields: Seq<Field>, upgrade: bool, dropped: spec_fn(Field) -> bool)
    requires
        forall|field: Field| #[trigger] dropped(field) == is_left_out(field.name, upgrade),
    ensures
        response::has_field(response::kept(fields, dropped), response::date_name())
            <==> brings_date(fields),
{
    let kept = response::kept(fields, dropped);
    let pred = |field: Field| !dropped(field);
    if response::has_field(kept, response::date_name()) {
        let i = choose|i: int|
            0 <= i < kept.len() && (#[trigger] kept[i]).is_named(response::date_name());
        assert(fields.filter(pred).contains(kept[i]));
        fields.lemma_filter_contains_rev(pred, kept[i]);
        let j = choose|j: int| 0 <= j < fields.len() && fields[j] == kept[i];
        assert(bytes::same_ignoring_case(fields[j].name, "date".spec_bytes()));
    }
    if brings_date(fields) {
        let i = choose|i: int|
            0 <= i < fields.len() && bytes::same_ignoring_case(
                (#[trigger] fields[i]).name,
                "date".spec_bytes(),
            );
        lemma_date_is_not_left_out(fields[i].name, upgrade);
        fields.lemma_filter_contains(pred, i);
        let j = choose|j: int| 0 <= j < kept.len() && kept[j] == fields[i];
        assert(kept[j].is_named(response::date_name()));
    }
}

proof fn lemma_date_is_not_left_out(name: Seq<u8>, upgrade: bool)
    requires
        bytes::same_ignoring_case(name, "date".spec_bytes()),
    ensures
        !is_left_out(name, upgrade),
{
    reveal_strlit("date");
    reveal_strlit("content-length");
    reveal_strlit("transfer-encoding");
    reveal_strlit("connection");
    vstd::utf8::is_ascii_chars_encode_utf8("date"@);
    vstd::utf8::is_ascii_chars_encode_utf8("content-length"@);
    vstd::utf8::is_ascii_chars_encode_utf8("transfer-encoding"@);
    vstd::utf8::is_ascii_chars_encode_utf8("connection"@);
}

proof fn lemma_tail(
    has_date: bool,
    content_length: Option<u64>,
    chunked: bool,
    keep_alive: bool,
    date: Seq<u8>,
)
    ensures
        line::terminated(response::framing_lines(content_length, chunked)) == spelled_framing(
            content_length,
            chunked,
        ),
        line::terminated(
            response::added_lines(has_date, content_length, chunked, keep_alive, date),
        ) + bytes::crlf() == spelled_framing(content_length, chunked) + spelled_end(
            has_date,
            keep_alive,
            date,
        ),
{
    lemma_separator();
    let framed = response::framing_lines(content_length, chunked);
    if framed.len() > 0 {
        line::lemma_one_line(framed[0]);
        assert(framed =~= seq![framed[0]]);
    }
    assert(line::terminated(framed) =~= spelled_framing(content_length, chunked));
    let end = spelled_end(has_date, keep_alive, date);
    let dated = if has_date {
        framed
    } else {
        framed.push(response::date_text(date))
    };
    if !has_date {
        assert(dated.drop_last() =~= framed);
    }
    let date_line = if has_date {
        Seq::<u8>::empty()
    } else {
        "date".spec_bytes() + seq![58u8, 32u8] + date + seq![13u8, 10u8]
    };
    assert(line::terminated(dated) =~= line::terminated(framed) + date_line);
    let close = "connection: close".spec_bytes();
    let lines = response::added_lines(has_date, content_length, chunked, keep_alive, date);
    if keep_alive {
        assert(lines == dated);
        assert(end =~= date_line + seq![13u8, 10u8]);
    } else {
        assert(lines == dated.push(close));
        assert(lines.drop_last() =~= dated);
        assert(line::terminated(lines) =~= line::terminated(dated) + (close + seq![13u8, 10u8]));
        assert(end =~= date_line + (close + seq![13u8, 10u8]) + seq![13u8, 10u8]);
    }
    assert(line::terminated(lines) + bytes::crlf() =~= spelled_framing(content_length, chunked)
        + end);
}

proof fn lemma_status(status: u16)
    ensures
        line::terminated(seq![response::status_text(status)]) == spelled_status(status),
{
    lemma_separator();
    line::lemma_one_line(response::status_text(status));
    assert(response::status_text(status) + bytes::crlf() =~= spelled_status(status));
}

proof fn lemma_front(status: u16, fields: Seq<Field>)
    ensures
        line::terminated(
            seq![response::status_text(status)] + response::field_lines(response::sent(fields)),
        ) == spelled_status(status) + spelled(fields, false),
{
    let dropped = |field: Field| response::frames_response(field);
    lemma_status(status);
    lemma_spelled(fields, false, dropped);
    line::lemma_terminated_adds(
        seq![response::status_text(status)],
        response::field_lines(response::sent(fields)),
    );
}

/// A response with headers that may be sent is its status line, the line of each
/// header but those left out, in the order given, the line for its body, a date
/// unless a header brings one, word that the connection closes if it does, and an
/// empty line.
pub proof fn responses_are_spelled_out(
    status: u16,
    fields: Seq<Field>,
    content_length: Option<u64>,
    chunked: bool,
    keep_alive: bool,
    date: Seq<u8>,
)
    requires
        all_harmless(fields, false),
        brings_date(fields) || field::is_value(date),
    ensures
        ({
            let head = response::response_head(
                status,
                fields,
                content_length,
                chunked,
                keep_alive,
                date,
            );
            &&& head.result == Result::<(), EncodeError>::Ok(())
            &&& head.written == spelled_status(status) + spelled(fields, false) + spelled_framing(
                content_length,
                chunked,
            ) + spelled_end(brings_date(fields), keep_alive, date)
        }),
{
    let dropped = |field: Field| response::frames_response(field);
    lemma_all_accepted(fields, false, dropped);
    lemma_date(fields, false, dropped);
    lemma_front(status, fields);
    lemma_tail(brings_date(fields), content_length, chunked, keep_alive, date);
    assert(fields.take(fields.len() as int) =~= fields);
    let head = response::response_head(
        status,
        fields,
        content_length,
        chunked,
        keep_alive,
        date,
    );
    assert(head.written =~= spelled_status(status) + spelled(fields, false) + spelled_framing(
        content_length,
        chunked,
    ) + spelled_end(brings_date(fields), keep_alive, date));
}

/// The first header that must not be sent refuses a response, and only the status
/// line and the headers in front of it are written. Where all may be sent, a date
/// that is needed and cannot stand in a header refuses it.
pub proof fn responses_are_refused(
    status: u16,
    fields: Seq<Field>,
    content_length: Option<u64>,
    chunked: bool,
    keep_alive: bool,
    date: Seq<u8>,
    refused: int,
)
    ensures
        0 <= refused < fields.len() && !is_harmless(fields[refused], false) && all_harmless(
            fields.take(refused),
            false,
        ) ==> {
            let head = response::response_head(
                status,
                fields,
                content_length,
                chunked,
                keep_alive,
                date,
            );
            &&& head.result == Result::<(), EncodeError>::Err(EncodeError::InvalidHeader)
            &&& head.written == spelled_status(status) + spelled(fields.take(refused), false)
        },
        all_harmless(fields, false) && !brings_date(fields) && !field::is_value(date) ==> {
            let head = response::response_head(
                status,
                fields,
                content_length,
                chunked,
                keep_alive,
                date,
            );
            &&& head.result == Result::<(), EncodeError>::Err(EncodeError::InvalidDate)
            &&& head.written == spelled_status(status) + spelled(fields, false) + spelled_framing(
                content_length,
                chunked,
            )
        },
{
    let dropped = |field: Field| response::frames_response(field);
    if 0 <= refused < fields.len() && !is_harmless(fields[refused], false) && all_harmless(
        fields.take(refused),
        false,
    ) {
        lemma_refused_at(fields, false, dropped, refused);
        lemma_front(status, fields.take(refused));
    }
    if all_harmless(fields, false) {
        lemma_all_accepted(fields, false, dropped);
        lemma_date(fields, false, dropped);
        lemma_front(status, fields);
        lemma_tail(brings_date(fields), content_length, chunked, keep_alive, date);
        assert(fields.take(fields.len() as int) =~= fields);
    }
}

/// Lines are spelled header by header.
pub proof fn spelled_lines_follow_the_order(
    before: Seq<Field>,
    after: Seq<Field>,
    upgrade: bool,
)
    ensures
        spelled(before + after, upgrade) == spelled(before, upgrade) + spelled(after, upgrade),
    decreases before.len(),
{
    if before.len() == 0 {
        assert(before + after =~= after);
        assert(spelled(before, upgrade) + spelled(after, upgrade) =~= spelled(after, upgrade));
    } else {
        spelled_lines_follow_the_order(before.skip(1), after, upgrade);
        assert((before + after).skip(1) =~= before.skip(1) + after);
        assert(spelled(before + after, upgrade) =~= spelled(before, upgrade) + spelled(
            after,
            upgrade,
        ));
    }
}

/// A header named `connection`, `content-length`, or `transfer-encoding` leaves
/// no trace in a response, whatever its value and wherever it stands.
pub proof fn framing_headers_leave_no_trace(
    status: u16,
    before: Seq<Field>,
    framing: Field,
    after: Seq<Field>,
    content_length: Option<u64>,
    chunked: bool,
    keep_alive: bool,
    date: Seq<u8>,
)
    requires
        is_left_out(framing.name, false),
    ensures
        response::response_head(
            status,
            before + seq![framing] + after,
            content_length,
            chunked,
            keep_alive,
            date,
        ) == response::response_head(
            status,
            before + after,
            content_length,
            chunked,
            keep_alive,
            date,
        ),
{
    reveal(Seq::filter);
    let pred = |field: Field| !(|field: Field| response::frames_response(field))(field);
    Seq::filter_distributes_over_add(before, seq![framing], pred);
    Seq::filter_distributes_over_add(before + seq![framing], after, pred);
    Seq::filter_distributes_over_add(before, after, pred);
    assert(seq![framing].drop_last() =~= Seq::<Field>::empty());
    assert(seq![framing].last() == framing);
    assert(Seq::<Field>::empty().filter(pred).len() == 0);
    assert(seq![framing].filter(pred) =~= Seq::<Field>::empty());
    assert(before.filter(pred) + seq![framing].filter(pred) =~= before.filter(pred));
    assert(response::sent(before + seq![framing] + after) == response::sent(before + after));
    response::framing_fields_are_filtered(
        status,
        before + seq![framing] + after,
        content_length,
        chunked,
        keep_alive,
        date,
    );
    response::framing_fields_are_filtered(
        status,
        before + after,
        content_length,
        chunked,
        keep_alive,
        date,
    );
}

/// Every header but those named `connection`, `content-length`, and
/// `transfer-encoding` has its line in a response, behind the lines of the headers
/// in front of it and in front of those behind it.
pub proof fn every_other_header_is_sent(
    status: u16,
    fields: Seq<Field>,
    content_length: Option<u64>,
    chunked: bool,
    keep_alive: bool,
    date: Seq<u8>,
    i: int,
)
    requires
        all_harmless(fields, false),
        brings_date(fields) || field::is_value(date),
        0 <= i < fields.len(),
        !bytes::same_ignoring_case(fields[i].name, "connection".spec_bytes()),
        !bytes::same_ignoring_case(fields[i].name, "content-length".spec_bytes()),
        !bytes::same_ignoring_case(fields[i].name, "transfer-encoding".spec_bytes()),
    ensures
        response::response_head(
            status,
            fields,
            content_length,
            chunked,
            keep_alive,
            date,
        ).written == spelled_status(status) + spelled(fields.take(i), false) + (fields[i].name
            + seq![58u8, 32u8] + fields[i].value + seq![13u8, 10u8]) + spelled(
            fields.skip(i + 1),
            false,
        ) + spelled_framing(content_length, chunked) + spelled_end(
            brings_date(fields),
            keep_alive,
            date,
        ),
{
    responses_are_spelled_out(status, fields, content_length, chunked, keep_alive, date);
    spelled_lines_follow_the_order(fields.take(i), fields.skip(i), false);
    assert(fields =~= fields.take(i) + fields.skip(i));
    assert(fields.skip(i)[0] == fields[i]);
    assert(fields.skip(i).skip(1) =~= fields.skip(i + 1));
    assert(response::response_head(
        status,
        fields,
        content_length,
        chunked,
        keep_alive,
        date,
    ).written =~= spelled_status(status) + spelled(fields.take(i), false) + (fields[i].name
        + seq![58u8, 32u8] + fields[i].value + seq![13u8, 10u8]) + spelled(
        fields.skip(i + 1),
        false,
    ) + spelled_framing(content_length, chunked) + spelled_end(
        brings_date(fields),
        keep_alive,
        date,
    ));
}

/// Headers can be prepared exactly where they may be sent, and a response with
/// prepared headers is spelled out like any other.
pub proof fn prepared_responses_are_spelled_out(
    status: u16,
    fields: Seq<Field>,
    content_length: Option<u64>,
    chunked: bool,
    keep_alive: bool,
    date: Seq<u8>,
)
    ensures
        response::sendable(fields) == fields.len() <==> all_harmless(fields, false),
        response::sendable(fields) <= fields.len(),
        brings_date(fields) || field::is_value(date) ==> {
            let head = response::prepared_head(
                status,
                response::prepared(fields),
                content_length,
                chunked,
                keep_alive,
                date,
            );
            &&& head.result == Result::<(), EncodeError>::Ok(())
            &&& head.written == spelled_status(status) + spelled(fields, false) + spelled_framing(
                content_length,
                chunked,
            ) + spelled_end(brings_date(fields), keep_alive, date)
        },
        !brings_date(fields) && !field::is_value(date) ==> {
            let head = response::prepared_head(
                status,
                response::prepared(fields),
                content_length,
                chunked,
                keep_alive,
                date,
            );
            &&& head.result == Result::<(), EncodeError>::Err(EncodeError::InvalidDate)
            &&& head.written == spelled_status(status) + spelled(fields, false) + spelled_framing(
                content_length,
                chunked,
            )
        },
{
    let dropped = |field: Field| response::frames_response(field);
    response::lemma_accepted(fields, dropped);
    lemma_all_accepted(fields, false, dropped);
    lemma_date(fields, false, dropped);
    lemma_status(status);
    lemma_spelled(fields, false, dropped);
    lemma_tail(brings_date(fields), content_length, chunked, keep_alive, date);
    let head = response::prepared_head(
        status,
        response::prepared(fields),
        content_length,
        chunked,
        keep_alive,
        date,
    );
    if brings_date(fields) || field::is_value(date) {
        assert(head.written =~= spelled_status(status) + spelled(fields, false) + spelled_framing(
            content_length,
            chunked,
        ) + spelled_end(brings_date(fields), keep_alive, date));
    }
}

/// The statuses that have a reason phrase of their own; all others are unknown.
pub proof fn other_statuses_are_unknown(status: u16)
    ensures
        !seq![
            200u16, 201, 202, 204, 206, 400, 401, 403, 404, 405, 409, 413, 415, 422, 429, 431, 499,
            500, 501, 503, 504,
        ].contains(status) ==> status::reason(status) == "Unknown"@,
{
    let known = seq![
        200u16, 201, 202, 204, 206, 400, 401, 403, 404, 405, 409, 413, 415, 422, 429, 431, 499,
        500, 501, 503, 504,
    ];
    assert(known[0] == 200 && known[1] == 201 && known[2] == 202 && known[3] == 204 && known[4]
        == 206 && known[5] == 400 && known[6] == 401 && known[7] == 403 && known[8] == 404
        && known[9] == 405 && known[10] == 409 && known[11] == 413 && known[12] == 415 && known[13]
        == 422 && known[14] == 429 && known[15] == 431 && known[16] == 499 && known[17] == 500
        && known[18] == 501 && known[19] == 503 && known[20] == 504);
}

/// The header at `i` asks for an upgrade of the connection.
pub open spec fn connects_at(fields: Seq<Field>, i: int) -> bool {
    &&& 0 <= i < fields.len()
    &&& bytes::same_ignoring_case(fields[i].name, "connection".spec_bytes())
    &&& text::lists(fields[i].value, "upgrade".spec_bytes())
}

/// The header at `i` names the protocol to switch to: it holds more than white
/// space.
pub open spec fn upgrades_at(fields: Seq<Field>, i: int) -> bool {
    &&& 0 <= i < fields.len()
    &&& bytes::same_ignoring_case(fields[i].name, "upgrade".spec_bytes())
    &&& text::trimmed(fields[i].value).len() > 0
}

proof fn lemma_upgrade_names_are_not_left_out(name: Seq<u8>)
    requires
        bytes::same_ignoring_case(name, "connection".spec_bytes()) || bytes::same_ignoring_case(
            name,
            "upgrade".spec_bytes(),
        ),
    ensures
        !is_left_out(name, true),
{
    reveal_strlit("upgrade");
    reveal_strlit("content-length");
    reveal_strlit("transfer-encoding");
    reveal_strlit("connection");
    vstd::utf8::is_ascii_chars_encode_utf8("upgrade"@);
    vstd::utf8::is_ascii_chars_encode_utf8("content-length"@);
    vstd::utf8::is_ascii_chars_encode_utf8("transfer-encoding"@);
    vstd::utf8::is_ascii_chars_encode_utf8("connection"@);
}

proof fn lemma_switches(fields: Seq<Field>)
    ensures
        upgrade::switches(upgrade::sent(fields)) <==> (exists|i: int| connects_at(fields, i)) && (
        exists|i: int| upgrades_at(fields, i)),
{
    let sent = upgrade::sent(fields);
    let pred = |field: Field| !(|field: Field| response::frames_body(field))(field);
    if upgrade::switches(sent) {
        let i = choose|i: int| 0 <= i < sent.len() && upgrade::asks_upgrade(#[trigger] sent[i]);
        let j = choose|j: int| 0 <= j < sent.len() && upgrade::names_protocol(#[trigger] sent[j]);
        assert(fields.filter(pred).contains(sent[i]));
        assert(fields.filter(pred).contains(sent[j]));
        fields.lemma_filter_contains_rev(pred, sent[i]);
        fields.lemma_filter_contains_rev(pred, sent[j]);
        let a = choose|a: int| 0 <= a < fields.len() && fields[a] == sent[i];
        let b = choose|b: int| 0 <= b < fields.len() && fields[b] == sent[j];
        assert(connects_at(fields, a));
        assert(upgrades_at(fields, b));
    }
    if (exists|i: int| connects_at(fields, i)) && (exists|i: int| upgrades_at(fields, i)) {
        let a = choose|i: int| connects_at(fields, i);
        let b = choose|i: int| upgrades_at(fields, i);
        lemma_upgrade_names_are_not_left_out(fields[a].name);
        lemma_upgrade_names_are_not_left_out(fields[b].name);
        fields.lemma_filter_contains(pred, a);
        fields.lemma_filter_contains(pred, b);
        let i = choose|i: int| 0 <= i < sent.len() && sent[i] == fields[a];
        let j = choose|j: int| 0 <= j < sent.len() && sent[j] == fields[b];
        assert(upgrade::asks_upgrade(sent[i]));
        assert(upgrade::names_protocol(sent[j]));
    }
}

/// The status line of an upgrade response.
pub open spec fn spelled_switching() -> Seq<u8> {
    "HTTP/1.1 101 Switching Protocols".spec_bytes() + seq![13u8, 10u8]
}

proof fn lemma_upgrade_front(fields: Seq<Field>)
    ensures
        line::terminated(
            seq![upgrade::switching_text()] + response::field_lines(upgrade::sent(fields)),
        ) == spelled_switching() + spelled(fields, true),
{
    let dropped = |field: Field| response::frames_body(field);
    lemma_separator();
    line::lemma_one_line(upgrade::switching_text());
    lemma_spelled(fields, true, dropped);
    line::lemma_terminated_adds(
        seq![upgrade::switching_text()],
        response::field_lines(upgrade::sent(fields)),
    );
}

/// An upgrade response needs a connection header that lists `upgrade` and an
/// upgrade header that is not blank, at any two places and in any order. It is its
/// status line, the line of each header but those that frame a body, in the order
/// given, a date unless a header brings one, and an empty line.
pub proof fn upgrades_are_spelled_out(
    fields: Seq<Field>,
    date: Seq<u8>,
    connection: int,
    protocol: int,
)
    requires
        all_harmless(fields, true),
        connects_at(fields, connection),
        upgrades_at(fields, protocol),
        brings_date(fields) || field::is_value(date),
    ensures
        upgrade::upgrade_head(fields, date).result == Result::<(), EncodeError>::Ok(()),
        upgrade::upgrade_head(fields, date).written == spelled_switching() + spelled(fields, true)
            + spelled_end(brings_date(fields), true, date),
{
    let dropped = |field: Field| response::frames_body(field);
    lemma_separator();
    lemma_all_accepted(fields, true, dropped);
    lemma_switches(fields);
    lemma_date(fields, true, dropped);
    lemma_upgrade_front(fields);
    assert(fields.take(fields.len() as int) =~= fields);
    let lines = seq![upgrade::switching_text()] + response::field_lines(upgrade::sent(fields));
    assert(lines.push(response::date_text(date)).drop_last() =~= lines);
    assert(upgrade::upgrade_head(fields, date).written =~= spelled_switching() + spelled(
        fields,
        true,
    ) + spelled_end(brings_date(fields), true, date));
}

/// The first header that must not be sent refuses an upgrade; so does, where all
/// may be sent, the lack of either of the two headers that it takes, and then a
/// date that is needed and cannot stand in a header. What stands in front is
/// written.
pub proof fn upgrades_are_refused(fields: Seq<Field>, date: Seq<u8>, refused: int)
    ensures
        0 <= refused < fields.len() && !is_harmless(fields[refused], true) && all_harmless(
            fields.take(refused),
            true,
        ) ==> {
            let head = upgrade::upgrade_head(fields, date);
            &&& head.result == Result::<(), EncodeError>::Err(EncodeError::InvalidUpgradeHeader)
            &&& head.written == spelled_switching() + spelled(fields.take(refused), true)
        },
        all_harmless(fields, true) && ((forall|i: int| !connects_at(fields, i)) || (forall|i: int|
            !upgrades_at(fields, i))) ==> {
            let head = upgrade::upgrade_head(fields, date);
            &&& head.result == Result::<(), EncodeError>::Err(EncodeError::MissingUpgrade)
            &&& head.written == spelled_switching() + spelled(fields, true)
        },
        all_harmless(fields, true) && (exists|i: int| connects_at(fields, i)) && (exists|i: int|
            upgrades_at(fields, i)) && !brings_date(fields) && !field::is_value(date) ==> {
            let head = upgrade::upgrade_head(fields, date);
            &&& head.result == Result::<(), EncodeError>::Err(EncodeError::InvalidDate)
            &&& head.written == spelled_switching() + spelled(fields, true)
        },
{
    let dropped = |field: Field| response::frames_body(field);
    lemma_switches(fields);
    lemma_date(fields, true, dropped);
    lemma_all_accepted(fields, true, dropped);
    if 0 <= refused < fields.len() && !is_harmless(fields[refused], true) && all_harmless(
        fields.take(refused),
        true,
    ) {
        lemma_refused_at(fields, true, dropped, refused);
        lemma_upgrade_front(fields.take(refused));
    }
    if all_harmless(fields, true) {
        lemma_upgrade_front(fields);
        assert(fields.take(fields.len() as int) =~= fields);
    }
}

} // verus!
