//! Laws of ranges and header lookup.

use crate::laws;
use crate::position;
use crate::position::{ByteRange, HeaderPosition};
use vstd::prelude::*;

verus! {

/// A range selects what stands between its ends: of a buffer that is `front`,
/// `middle`, and `back`, the range from the end of `front` to the start of `back`
/// selects `middle`; it selects text exactly where that is UTF-8. A range that
/// ends behind the buffer, or in front of its start, selects nothing.
pub proof fn ranges_select_what_is_between(
    range: ByteRange,
    front: Seq<u8>,
    middle: Seq<u8>,
    back: Seq<u8>,
    buffer: Seq<u8>,
)
    ensures
        buffer == front + middle + back && range.start == front.len() && range.end == front.len()
            + middle.len() ==> range.bytes_in(buffer) == Some(middle) && range.text_in(buffer) == (
        if vstd::utf8::valid_utf8(middle) {
            Some(middle)
        } else {
            None
        }),
        range.end > buffer.len() || range.start > range.end ==> range.bytes_in(buffer) is None
            && range.text_in(buffer) is None,
{
    if buffer == front + middle + back && range.start == front.len() && range.end == front.len()
        + middle.len() {
        assert(buffer.subrange(range.start as int, range.end as int) =~= middle);
    }
}

/// The header has the name asked for: its name is text of the same length, and
/// each byte is the byte asked for, or the same letter in the other case, or a
/// dash where an underscore is asked for.
pub open spec fn is_asked_for(header: HeaderPosition, buffer: Seq<u8>, name: Seq<u8>) -> bool {
    &&& header.name.start <= header.name.end <= buffer.len()
    &&& header.name.end - header.name.start == name.len()
    &&& vstd::utf8::valid_utf8(
        buffer.subrange(header.name.start as int, header.name.end as int),
    )
    &&& forall|i: int|
        0 <= i < name.len() ==> laws::text::same_letter(
            #[trigger] buffer[header.name.start + i],
            if name[i] == 95 {
                45
            } else {
                name[i]
            },
        )
}

proof fn lemma_is_asked_for(header: HeaderPosition, buffer: Seq<u8>, name: Seq<u8>)
    ensures
        is_asked_for(header, buffer, name) <==> header.is_named(buffer, name),
{
    let start = header.name.start as int;
    if header.name.start <= header.name.end <= buffer.len() {
        let found = buffer.subrange(start, header.name.end as int);
        if is_asked_for(header, buffer, name) {
            assert forall|i: int| 0 <= i < found.len() implies crate::bytes::lower(
                #[trigger] found[i],
            ) == crate::bytes::lower(position::dashed(name[i])) by {
                assert(laws::text::same_letter(
                    buffer[start + i],
                    if name[i] == 95 {
                        45
                    } else {
                        name[i]
                    },
                ));
            }
        }
        if header.is_named(buffer, name) {
            assert forall|i: int| 0 <= i < name.len() implies laws::text::same_letter(
                #[trigger] buffer[start + i],
                if name[i] == 95 {
                    45
                } else {
                    name[i]
                },
            ) by {
                assert(crate::bytes::lower(found[i]) == crate::bytes::lower(
                    position::dashed(name[i]),
                ));
            }
        }
    }
}

/// Headers are looked up in their order among those with exactly the name asked
/// for: the first header is number 0 if it has that name, and the others count on
/// from there; otherwise it is passed over.
pub proof fn lookups_count_the_headers_asked_for(
    header: HeaderPosition,
    rest: Seq<HeaderPosition>,
    buffer: Seq<u8>,
    name: Seq<u8>,
    index: int,
)
    requires
        0 <= index,
    ensures
        position::value_of(Seq::empty(), buffer, name, index) is None,
        !is_asked_for(header, buffer, name) ==> position::value_of(
            seq![header] + rest,
            buffer,
            name,
            index,
        ) == position::value_of(rest, buffer, name, index),
        is_asked_for(header, buffer, name) && index > 0 ==> position::value_of(
            seq![header] + rest,
            buffer,
            name,
            index,
        ) == position::value_of(rest, buffer, name, index - 1),
        is_asked_for(header, buffer, name) && index == 0 ==> position::value_of(
            seq![header] + rest,
            buffer,
            name,
            index,
        ) == header.value.text_in(buffer),
{
    reveal(Seq::filter);
    lemma_is_asked_for(header, buffer, name);
    let pred = |header: HeaderPosition| header.is_named(buffer, name);
    Seq::filter_distributes_over_add(seq![header], rest, pred);
    assert(seq![header].drop_last() =~= Seq::<HeaderPosition>::empty());
    assert(seq![header].last() == header);
    let first = seq![header].filter(pred);
    if pred(header) {
        assert(first =~= seq![header]);
        let all = (seq![header] + rest).filter(pred);
        assert(all[0] == header);
        assert(forall|i: int|
            0 <= i < rest.filter(pred).len() ==> #[trigger] rest.filter(pred)[i] == all[i + 1]);
    } else {
        assert(first =~= Seq::<HeaderPosition>::empty());
        assert(first + rest.filter(pred) =~= rest.filter(pred));
    }
    assert(Seq::<HeaderPosition>::empty().filter(pred).len() == 0);
}

/// A header with another name, whatever its name starts with and wherever it
/// stands, does not change any lookup.
pub proof fn other_headers_do_not_change_lookups(
    before: Seq<HeaderPosition>,
    other: HeaderPosition,
    after: Seq<HeaderPosition>,
    buffer: Seq<u8>,
    name: Seq<u8>,
    index: int,
)
    requires
        !is_asked_for(other, buffer, name),
    ensures
        position::value_of(before + seq![other] + after, buffer, name, index)
            == position::value_of(before + after, buffer, name, index),
{
    reveal(Seq::filter);
    lemma_is_asked_for(other, buffer, name);
    let pred = |header: HeaderPosition| header.is_named(buffer, name);
    Seq::filter_distributes_over_add(before, seq![other], pred);
    Seq::filter_distributes_over_add(before + seq![other], after, pred);
    Seq::filter_distributes_over_add(before, after, pred);
    assert(seq![other].drop_last() =~= Seq::<HeaderPosition>::empty());
    assert(seq![other].last() == other);
    assert(Seq::<HeaderPosition>::empty().filter(pred).len() == 0);
    assert(seq![other].filter(pred) =~= Seq::<HeaderPosition>::empty());
    assert(before.filter(pred) + seq![other].filter(pred) =~= before.filter(pred));
}

/// A value that is found is the value of a header with exactly the name asked
/// for.
pub proof fn found_values_belong_to_the_name(
    headers: Seq<HeaderPosition>,
    buffer: Seq<u8>,
    name: Seq<u8>,
    index: int,
)
    requires
        position::value_of(headers, buffer, name, index) is Some,
    ensures
        exists|i: int|
            0 <= i < headers.len() && is_asked_for(#[trigger] headers[i], buffer, name)
                && headers[i].value.text_in(buffer) == position::value_of(
                headers,
                buffer,
                name,
                index,
            ),
{
    let pred = |header: HeaderPosition| header.is_named(buffer, name);
    let found = position::headers_named(headers, buffer, name)[index];
    headers.lemma_filter_pred(pred, index);
    assert(headers.filter(pred).contains(found));
    headers.lemma_filter_contains_rev(pred, found);
    let i = choose|i: int| 0 <= i < headers.len() && headers[i] == found;
    lemma_is_asked_for(headers[i], buffer, name);
}

} // verus!
