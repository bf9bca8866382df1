//! Laws of bytes, text, and lists.

use crate::bytes;
use crate::text;
use vstd::prelude::*;

verus! {

/// `left` and `right` are the same byte, or the two cases of one ASCII letter.
pub open spec fn same_letter(left: u8, right: u8) -> bool {
    ||| left == right
    ||| 65 <= left <= 90 && right == left + 32
    ||| 65 <= right <= 90 && left == right + 32
}

/// Texts are the same up to case exactly where each byte of one is the byte of
/// the other, or the same ASCII letter in the other case.
pub proof fn case_is_all_that_is_ignored(left: Seq<u8>, right: Seq<u8>)
    ensures
        bytes::same_ignoring_case(left, right) <==> left.len() == right.len() && forall|i: int|
            0 <= i < left.len() ==> same_letter(#[trigger] left[i], right[i]),
{
    if bytes::same_ignoring_case(left, right) {
        assert forall|i: int| 0 <= i < left.len() implies same_letter(
            #[trigger] left[i],
            right[i],
        ) by {
            assert(bytes::lower(left[i]) == bytes::lower(right[i]));
        }
    }
    if left.len() == right.len() && forall|i: int|
        0 <= i < left.len() ==> same_letter(#[trigger] left[i], right[i]) {
        assert forall|i: int| 0 <= i < left.len() implies bytes::lower(#[trigger] left[i])
            == bytes::lower(right[i]) by {
            assert(same_letter(left[i], right[i]));
        }
    }
}

/// A string stands at an offset exactly where the text is that many bytes, the
/// string, and a rest.
pub proof fn occurrences_split_the_text(
    text: Seq<u8>,
    needle: Seq<u8>,
    front: Seq<u8>,
    rest: Seq<u8>,
    at: int,
)
    ensures
        text == front + needle + rest ==> bytes::occurs_at(text, needle, front.len() as int),
        bytes::occurs_at(text, needle, at) ==> 0 <= at && text == text.take(at) + needle
            + text.skip(at + needle.len()),
{
    if text == front + needle + rest {
        let start = front.len() as int;
        assert(text.subrange(start, start + needle.len()) =~= needle);
    }
    if bytes::occurs_at(text, needle, at) {
        let found = text.subrange(at, at + needle.len());
        assert(text =~= text.take(at) + found + text.skip(at + needle.len()));
    }
}

/// The first separator cuts a text into the part in front of it and the parts
/// of what follows; a text without one is its only part.
proof fn lemma_split_first(first: Seq<u8>, rest: Seq<u8>, separator: u8)
    requires
        !first.contains(separator),
    ensures
        bytes::split(first + seq![separator] + rest, separator) == seq![first] + bytes::split(
            rest,
            separator,
        ),
        bytes::split(first, separator) == seq![first],
{
    let text = first + seq![separator] + rest;
    let cut = first.len() as int;
    assert forall|i: int| 0 <= i < cut implies text[i] != separator by {
        assert(first.contains(first[i]));
    }
    bytes::lemma_index_of_is(text, separator, cut);
    assert(text.take(cut) =~= first);
    assert(text.skip(cut + 1) =~= rest);
    assert forall|i: int| 0 <= i < cut implies first[i] != separator by {
        assert(first.contains(first[i]));
    }
    bytes::lemma_index_of_is(first, separator, cut);
}

/// A separator ends one part and starts the next, wherever it stands: the parts
/// of two texts with a separator between them are the parts of the first and
/// then the parts of the second.
pub proof fn separators_part_texts(first: Seq<u8>, second: Seq<u8>, separator: u8)
    ensures
        bytes::split(first + seq![separator] + second, separator) == bytes::split(first, separator)
            + bytes::split(second, separator),
        !first.contains(separator) ==> bytes::split(first, separator) == seq![first],
    decreases first.len(),
{
    let cut = bytes::index_of(first, separator);
    bytes::lemma_index_of(first, separator);
    if cut < first.len() {
        let front = first.take(cut);
        let rest = first.skip(cut + 1);
        assert(!front.contains(separator));
        separators_part_texts(rest, second, separator);
        lemma_split_first(front, rest, separator);
        lemma_split_first(front, rest + seq![separator] + second, separator);
        assert(first =~= front + seq![separator] + rest);
        assert(first + seq![separator] + second =~= front + seq![separator] + (rest
            + seq![separator] + second));
        assert(seq![front] + (bytes::split(rest, separator) + bytes::split(second, separator))
            =~= bytes::split(first, separator) + bytes::split(second, separator));
        assert(first[cut] == separator);
    } else {
        assert(!first.contains(separator));
        lemma_split_first(first, second, separator);
    }
}

/// A line terminator ends one line and starts the next, wherever it stands.
pub proof fn terminators_part_lines(first: Seq<u8>, second: Seq<u8>)
    ensures
        bytes::lines(first + seq![13u8, 10u8] + second) == bytes::lines(first) + bytes::lines(
            second,
        ),
        (forall|i: int|
            0 <= i < first.len() - 1 ==> !(first[i] == 13 && #[trigger] first[i + 1] == 10))
            ==> bytes::lines(first) == seq![first],
    decreases first.len(),
{
    let text = first + seq![13u8, 10u8] + second;
    let crlf = bytes::crlf();
    assert(crlf =~= seq![13u8, 10u8]);
    bytes::lemma_find(first, crlf, 0);
    match bytes::find(first, crlf, 0) {
        Some(cut) => {
            let rest = first.skip(cut + 2);
            terminators_part_lines(rest, second);
            assert(first.subrange(cut, cut + 2)[0] == first[cut]);
            assert(first.subrange(cut, cut + 2)[1] == first[cut + 1]);
            lemma_same_first_line(first, text, cut);
            assert(text.skip(cut + 2) =~= rest + seq![13u8, 10u8] + second);
            assert(text.take(cut) =~= first.take(cut));
            assert(seq![first.take(cut)] + (bytes::lines(rest) + bytes::lines(second)) =~= (
            seq![first.take(cut)] + bytes::lines(rest)) + bytes::lines(second));
        },
        None => {
            let cut = first.len() as int;
            assert(text.subrange(cut, cut + 2) =~= crlf);
            assert forall|i: int| 0 <= i < cut implies !bytes::occurs_at(text, crlf, i) by {
                if bytes::occurs_at(text, crlf, i) {
                    assert(text.subrange(i, i + 2)[0] == text[i]);
                    assert(text.subrange(i, i + 2)[1] == text[i + 1]);
                    if i + 1 < cut {
                        assert(first.subrange(i, i + 2) =~= crlf);
                        assert(bytes::occurs_at(first, crlf, i));
                    }
                }
            }
            bytes::lemma_find_is(text, crlf, 0, cut);
            assert(text.take(cut) =~= first);
            assert(text.skip(cut + 2) =~= second);
        },
    }
}

proof fn lemma_same_first_line(first: Seq<u8>, text: Seq<u8>, cut: int)
    requires
        first.is_prefix_of(text),
        bytes::find(first, bytes::crlf(), 0) == Some(cut),
    ensures
        bytes::find(text, bytes::crlf(), 0) == Some(cut),
{
    bytes::lemma_find_grows(first, text, bytes::crlf(), 0);
}

/// The characters that count as white space, one by one.
pub proof fn white_space_characters(c: char)
    ensures
        text::is_white_space(c) <==> seq![
            '\u{9}', '\u{a}', '\u{b}', '\u{c}', '\u{d}', '\u{20}', '\u{85}', '\u{a0}', '\u{1680}',
            '\u{2000}', '\u{2001}', '\u{2002}', '\u{2003}', '\u{2004}', '\u{2005}', '\u{2006}',
            '\u{2007}', '\u{2008}', '\u{2009}', '\u{200a}', '\u{2028}', '\u{2029}', '\u{202f}',
            '\u{205f}', '\u{3000}',
        ].contains(c),
{
    let all = seq![
        '\u{9}', '\u{a}', '\u{b}', '\u{c}', '\u{d}', '\u{20}', '\u{85}', '\u{a0}', '\u{1680}',
        '\u{2000}', '\u{2001}', '\u{2002}', '\u{2003}', '\u{2004}', '\u{2005}', '\u{2006}',
        '\u{2007}', '\u{2008}', '\u{2009}', '\u{200a}', '\u{2028}', '\u{2029}', '\u{202f}',
        '\u{205f}', '\u{3000}',
    ];
    let code = c as u32;
    assert(all[0] == '\u{9}' && all[4] == '\u{d}' && all[24] == '\u{3000}');
    if text::is_white_space(c) {
        let i: int = if 9 <= code <= 13 {
            code - 9
        } else if code == 0x20 {
            5
        } else if code == 0x85 {
            6
        } else if code == 0xA0 {
            7
        } else if code == 0x1680 {
            8
        } else if 0x2000 <= code <= 0x200A {
            code - 0x2000 + 9
        } else if code == 0x2028 {
            20
        } else if code == 0x2029 {
            21
        } else if code == 0x202F {
            22
        } else if code == 0x205F {
            23
        } else {
            24
        };
        assert(all[i] == c);
    }
}

/// All characters are white space.
pub open spec fn is_blank(chars: Seq<char>) -> bool {
    forall|i: int| 0 <= i < chars.len() ==> text::is_white_space(#[trigger] chars[i])
}

/// The encoding of two texts is the encodings of both.
proof fn lemma_encode_adds(first: Seq<char>, second: Seq<char>)
    ensures
        vstd::utf8::encode_utf8(first + second) == vstd::utf8::encode_utf8(first)
            + vstd::utf8::encode_utf8(second),
    decreases first.len(),
{
    if first.len() == 0 {
        assert(first + second =~= second);
        assert(vstd::utf8::encode_utf8(first) + vstd::utf8::encode_utf8(second)
            =~= vstd::utf8::encode_utf8(second));
    } else {
        lemma_encode_adds(first.drop_first(), second);
        assert((first + second).drop_first() =~= first.drop_first() + second);
        assert(vstd::utf8::encode_utf8(first + second) =~= vstd::utf8::encode_utf8(first)
            + vstd::utf8::encode_utf8(second));
    }
}

proof fn lemma_trim_blank_front(pad: Seq<char>, rest: Seq<char>)
    requires
        is_blank(pad),
    ensures
        text::trim_start_chars(pad + rest) == text::trim_start_chars(rest),
    decreases pad.len(),
{
    if pad.len() > 0 {
        assert(text::is_white_space(pad[0]));
        assert((pad + rest).drop_first() =~= pad.drop_first() + rest);
        lemma_trim_blank_front(pad.drop_first(), rest);
    } else {
        assert(pad + rest =~= rest);
    }
}

proof fn lemma_trim_blank_end(rest: Seq<char>, pad: Seq<char>)
    requires
        is_blank(pad),
    ensures
        text::trim_end_chars(rest + pad) == text::trim_end_chars(rest),
    decreases pad.len(),
{
    if pad.len() > 0 {
        assert(text::is_white_space(pad[pad.len() - 1]));
        assert((rest + pad).drop_last() =~= rest + pad.drop_last());
        lemma_trim_blank_end(rest, pad.drop_last());
    } else {
        assert(rest + pad =~= rest);
    }
}

/// Trimming takes away the white space around a text and nothing else: of a text
/// that neither starts nor ends in white space, with any white space around it,
/// it leaves that text.
pub proof fn trimming_leaves_the_text(front: Seq<char>, core: Seq<char>, back: Seq<char>)
    requires
        is_blank(front),
        is_blank(back),
        core.len() > 0 ==> !text::is_white_space(core[0]) && !text::is_white_space(core.last()),
    ensures
        text::trimmed(
            vstd::utf8::encode_utf8(front) + vstd::utf8::encode_utf8(core)
                + vstd::utf8::encode_utf8(back),
        ) == vstd::utf8::encode_utf8(core),
{
    lemma_encode_adds(front, core);
    lemma_encode_adds(front + core, back);
    text::trim_removes_white_space_characters(front + core + back);
    assert(front + core + back =~= front + (core + back));
    lemma_trim_blank_front(front, core + back);
    if core.len() > 0 {
        assert(text::trim_start_chars(core + back) == core + back);
        lemma_trim_blank_end(core, back);
    } else {
        assert(core + back =~= back + core);
        assert(core + back =~= back);
        lemma_trim_blank_front(back, core);
    }
}

/// Trimming twice is trimming once, and what is trimmed stands in the text.
pub proof fn trimming_gives_a_part(text: Seq<u8>) -> (place: (int, int))
    ensures
        0 <= place.0 <= place.1 <= text.len(),
        text::trimmed(text) == text.subrange(place.0, place.1),
        text::trimmed(text::trimmed(text)) == text::trimmed(text),
{
    let start = lemma_trim_start_part(text);
    let rest = text::trim_start(text);
    let end = lemma_trim_end_part(rest);
    let inner = text::trimmed(text);
    assert(inner =~= text.subrange(start, start + end));
    assert(text::leading_space(inner) == 0) by {
        assert(text::leading_space(rest) == 0);
        assert(forall|i: int| 0 <= i < inner.len() ==> inner[i] == rest[i]);
    }
    (start, start + end)
}

proof fn lemma_trim_start_part(text: Seq<u8>) -> (start: int)
    ensures
        0 <= start <= text.len(),
        text::trim_start(text) == text.skip(start),
        text::leading_space(text::trim_start(text)) == 0,
    decreases text.len(),
{
    let space = text::leading_space(text);
    if space > 0 {
        let start = lemma_trim_start_part(text.skip(space));
        assert(text.skip(space).skip(start) =~= text.skip(space + start));
        space + start
    } else {
        assert(text.skip(0) =~= text);
        0
    }
}

proof fn lemma_trim_end_part(text: Seq<u8>) -> (end: int)
    ensures
        0 <= end <= text.len(),
        text::trim_end(text) == text.take(end),
        text::trailing_space(text::trim_end(text)) == 0,
    decreases text.len(),
{
    let space = text::trailing_space(text);
    if space > 0 {
        let end = lemma_trim_end_part(text.take(text.len() - space));
        assert(text.take(text.len() - space).take(end) =~= text.take(end));
        end
    } else {
        assert(text.take(text.len() as int) =~= text);
        text.len() as int
    }
}

/// A comma ends one element of a list and starts the next, wherever it stands;
/// the only element of a list without commas is the text, trimmed.
pub proof fn commas_part_lists(first: Seq<u8>, second: Seq<u8>)
    ensures
        text::list_elements(first + seq![44u8] + second) == text::list_elements(first)
            + text::list_elements(second),
        !first.contains(44u8) ==> text::list_elements(first) == seq![text::trimmed(first)],
{
    separators_part_texts(first, second, 44);
    assert(text::list_elements(first + seq![44u8] + second) =~= text::list_elements(first)
        + text::list_elements(second));
    if !first.contains(44u8) {
        assert(text::list_elements(first) =~= seq![text::trimmed(first)]);
    }
}

/// A list holds what one of its two halves at a comma holds; a list without
/// commas holds its text, trimmed and up to case, and nothing else.
pub proof fn lists_hold_what_stands_between_commas(
    first: Seq<u8>,
    second: Seq<u8>,
    element: Seq<u8>,
)
    ensures
        text::lists(first + seq![44u8] + second, element) <==> text::lists(first, element)
            || text::lists(second, element),
        !first.contains(44u8) ==> (text::lists(first, element) <==> bytes::same_ignoring_case(
            text::trimmed(first),
            element,
        )),
{
    commas_part_lists(first, second);
    let all = text::list_elements(first + seq![44u8] + second);
    let left = text::list_elements(first);
    let right = text::list_elements(second);
    if text::lists(first, element) {
        let i = choose|i: int|
            0 <= i < left.len() && bytes::same_ignoring_case(#[trigger] left[i], element);
        assert(all[i] == left[i]);
    }
    if text::lists(second, element) {
        let i = choose|i: int|
            0 <= i < right.len() && bytes::same_ignoring_case(#[trigger] right[i], element);
        assert(all[left.len() + i] == right[i]);
    }
    if text::lists(first + seq![44u8] + second, element) {
        let i = choose|i: int|
            0 <= i < all.len() && bytes::same_ignoring_case(#[trigger] all[i], element);
        if i < left.len() {
            assert(all[i] == left[i]);
        } else {
            assert(all[i] == right[i - left.len()]);
        }
    }
    if !first.contains(44u8) {
        assert(left[0] == text::trimmed(first));
    }
}

} // verus!
