//! UTF-8 text held as bytes: validity, white space, and comma-separated lists.

use crate::bytes;
use vstd::prelude::*;
use vstd::slice::slice_subrange;
use vstd::string::StringSliceAdditionalSpecFns;

verus! {

/// The characters with the Unicode property `White_Space`.
pub open spec fn is_white_space(c: char) -> bool {
    ||| 0x9 <= c as u32 <= 0xD
    ||| c as u32 == 0x20
    ||| c as u32 == 0x85
    ||| c as u32 == 0xA0
    ||| c as u32 == 0x1680
    ||| 0x2000 <= c as u32 <= 0x200A
    ||| c as u32 == 0x2028
    ||| c as u32 == 0x2029
    ||| c as u32 == 0x202F
    ||| c as u32 == 0x205F
    ||| c as u32 == 0x3000
}

/// `byte` is the UTF-8 encoding of a white space character.
pub open spec fn white_space_1(byte: u8) -> bool {
    9 <= byte <= 13 || byte == 32
}

/// The two bytes are the UTF-8 encoding of a white space character.
pub open spec fn white_space_2(first: u8, second: u8) -> bool {
    first == 0xC2 && (second == 0x85 || second == 0xA0)
}

/// The three bytes are the UTF-8 encoding of a white space character.
pub open spec fn white_space_3(first: u8, second: u8, third: u8) -> bool {
    ||| first == 0xE1 && second == 0x9A && third == 0x80
    ||| first == 0xE2 && second == 0x80 && (0x80 <= third <= 0x8A || third == 0xA8 || third == 0xA9
        || third == 0xAF)
    ||| first == 0xE2 && second == 0x81 && third == 0x9F
    ||| first == 0xE3 && second == 0x80 && third == 0x80
}

/// The length of the white space character that `text` starts with, 0 if it
/// starts with none.
pub open spec fn leading_space(text: Seq<u8>) -> int {
    if text.len() >= 1 && white_space_1(text[0]) {
        1
    } else if text.len() >= 2 && white_space_2(text[0], text[1]) {
        2
    } else if text.len() >= 3 && white_space_3(text[0], text[1], text[2]) {
        3
    } else {
        0
    }
}

/// The length of the white space character that `text` ends in, 0 if it ends
/// in none.
pub open spec fn trailing_space(text: Seq<u8>) -> int {
    let n = text.len() as int;
    if n >= 1 && white_space_1(text[n - 1]) {
        1
    } else if n >= 2 && white_space_2(text[n - 2], text[n - 1]) {
        2
    } else if n >= 3 && white_space_3(text[n - 3], text[n - 2], text[n - 1]) {
        3
    } else {
        0
    }
}

/// `text` without the white space in front.
pub open spec fn trim_start(text: Seq<u8>) -> Seq<u8>
    decreases text.len(),
{
    if leading_space(text) > 0 {
        trim_start(text.skip(leading_space(text)))
    } else {
        text
    }
}

/// `text` without the white space at its end.
pub open spec fn trim_end(text: Seq<u8>) -> Seq<u8>
    decreases text.len(),
{
    if trailing_space(text) > 0 {
        trim_end(text.take(text.len() - trailing_space(text)))
    } else {
        text
    }
}

/// `text` without white space at either end.
pub open spec fn trimmed(text: Seq<u8>) -> Seq<u8> {
    trim_end(trim_start(text))
}

/// The elements of a comma-separated list, each without white space around it.
pub open spec fn list_elements(value: Seq<u8>) -> Seq<Seq<u8>> {
    bytes::split(value, bytes::COMMA).map_values(|element: Seq<u8>| trimmed(element))
}

/// One of the elements of the list `value` is `element`, up to ASCII case.
pub open spec fn lists(value: Seq<u8>, element: Seq<u8>) -> bool {
    exists|i: int|
        0 <= i < list_elements(value).len() && bytes::same_ignoring_case(
            #[trigger] list_elements(value)[i],
            element,
        )
}

/// `chars` without the white space in front.
pub open spec fn trim_start_chars(chars: Seq<char>) -> Seq<char>
    decreases chars.len(),
{
    if chars.len() > 0 && is_white_space(chars[0]) {
        trim_start_chars(chars.drop_first())
    } else {
        chars
    }
}

/// `chars` without the white space at its end.
pub open spec fn trim_end_chars(chars: Seq<char>) -> Seq<char>
    decreases chars.len(),
{
    if chars.len() > 0 && is_white_space(chars.last()) {
        trim_end_chars(chars.drop_last())
    } else {
        chars
    }
}

/// How the encoding of one character looks to the white space tests.
proof fn lemma_scalar(c: char)
    ensures
        ({
            let code = vstd::utf8::encode_scalar(c as u32);
            let n = code.len() as int;
            &&& 1 <= n <= 4
            &&& n == 1 ==> code[0] < 0x80 && (white_space_1(code[0]) <==> is_white_space(c))
            &&& n == 2 ==> code[0] >= 0xC0 && code[0] < 0xE0 && 0x80 <= code[1] < 0xC0 && (
            white_space_2(code[0], code[1]) <==> is_white_space(c))
            &&& n == 3 ==> 0xE0 <= code[0] && 0x80 <= code[1] < 0xC0 && 0x80 <= code[2] < 0xC0 && (
            white_space_3(code[0], code[1], code[2]) <==> is_white_space(c))
            &&& n == 4 ==> 0xF0 <= code[0] && 0x80 <= code[1] < 0xC0 && 0x80 <= code[2] < 0xC0
                && 0x80 <= code[3] < 0xC0 && !is_white_space(c)
        }),
{
    vstd::utf8::char_is_scalar(c);
    let s = c as u32;
    if vstd::utf8::has_width_1_encoding(s) {
        assert(s <= 0x7F ==> (s & 0x7F) as u8 == s) by (bit_vector);
    } else if vstd::utf8::has_width_2_encoding(s) {
        assert(0x80 <= s <= 0x7FF ==> {
            let a = 0xC0u8 | ((s >> 6) & 0x1F) as u8;
            let b = 0x80u8 | (s & 0x3F) as u8;
            &&& 0xC0 <= a < 0xE0
            &&& 0x80 <= b < 0xC0
            &&& (a == 0xC2 && (b == 0x85 || b == 0xA0)) <==> (s == 0x85 || s == 0xA0)
        }) by (bit_vector);
    } else if vstd::utf8::has_width_3_encoding(s) {
        assert(0x800 <= s <= 0xFFFF ==> {
            let a = 0xE0u8 | ((s >> 12) & 0x0F) as u8;
            let b = 0x80u8 | ((s >> 6) & 0x3F) as u8;
            let d = 0x80u8 | (s & 0x3F) as u8;
            &&& 0xE0 <= a
            &&& 0x80 <= b < 0xC0
            &&& 0x80 <= d < 0xC0
            &&& ((a == 0xE1 && b == 0x9A && d == 0x80) || (a == 0xE2 && b == 0x80 && ((0x80 <= d
                && d <= 0x8A) || d == 0xA8 || d == 0xA9 || d == 0xAF)) || (a == 0xE2 && b == 0x81
                && d == 0x9F) || (a == 0xE3 && b == 0x80 && d == 0x80)) <==> (s == 0x1680 || (0x2000
                <= s && s <= 0x200A) || s == 0x2028 || s == 0x2029 || s == 0x202F || s == 0x205F
                || s == 0x3000)
        }) by (bit_vector);
    } else {
        assert(0x10000 <= s <= 0x10FFFF ==> {
            let a = 0xF0u8 | ((s >> 18) & 0x7) as u8;
            let b = 0x80u8 | ((s >> 12) & 0x3F) as u8;
            let d = 0x80u8 | ((s >> 6) & 0x3F) as u8;
            let e = 0x80u8 | (s & 0x3F) as u8;
            &&& 0xF0 <= a
            &&& 0x80 <= b < 0xC0
            &&& 0x80 <= d < 0xC0
            &&& 0x80 <= e < 0xC0
        }) by (bit_vector);
    }
}

/// The encoding of a sequence ends in the encoding of its last character.
proof fn lemma_encode_last(chars: Seq<char>)
    requires
        chars.len() > 0,
    ensures
        vstd::utf8::encode_utf8(chars) == vstd::utf8::encode_utf8(chars.drop_last())
            + vstd::utf8::encode_scalar(chars.last() as u32),
    decreases chars.len(),
{
    reveal_with_fuel(vstd::utf8::encode_utf8, 2);
    if chars.len() > 1 {
        lemma_encode_last(chars.drop_first());
        assert(chars.drop_first().drop_last() =~= chars.drop_last().drop_first());
    } else {
        assert(chars.drop_first() =~= Seq::<char>::empty());
        assert(chars.drop_last() =~= Seq::<char>::empty());
    }
    assert(vstd::utf8::encode_utf8(chars) =~= vstd::utf8::encode_utf8(chars.drop_last())
        + vstd::utf8::encode_scalar(chars.last() as u32));
}

proof fn lemma_trim_start_text(chars: Seq<char>)
    ensures
        trim_start(vstd::utf8::encode_utf8(chars)) == vstd::utf8::encode_utf8(
            trim_start_chars(chars),
        ),
    decreases chars.len(),
{
    let text = vstd::utf8::encode_utf8(chars);
    if chars.len() > 0 {
        let code = vstd::utf8::encode_scalar(chars[0] as u32);
        lemma_scalar(chars[0]);
        assert(forall|i: int| 0 <= i < code.len() ==> text[i] == code[i]);
        if is_white_space(chars[0]) {
            assert(leading_space(text) == code.len());
            assert(text.skip(code.len() as int) =~= vstd::utf8::encode_utf8(chars.drop_first()));
            lemma_trim_start_text(chars.drop_first());
        } else {
            assert(leading_space(text) == 0);
        }
    }
}

proof fn lemma_trim_end_text(chars: Seq<char>)
    ensures
        trim_end(vstd::utf8::encode_utf8(chars)) == vstd::utf8::encode_utf8(trim_end_chars(chars)),
    decreases chars.len(),
{
    let text = vstd::utf8::encode_utf8(chars);
    if chars.len() > 0 {
        let code = vstd::utf8::encode_scalar(chars.last() as u32);
        let start = text.len() - code.len();
        lemma_scalar(chars.last());
        lemma_encode_last(chars);
        assert(forall|i: int| 0 <= i < code.len() ==> text[start + i] == code[i]);
        assert(text[text.len() - 1] == code[code.len() - 1]);
        if code.len() >= 2 {
            assert(text[text.len() - 2] == code[code.len() - 2]);
        }
        if code.len() >= 3 {
            assert(text[text.len() - 3] == code[code.len() - 3]);
        }
        if is_white_space(chars.last()) {
            assert(trailing_space(text) == code.len());
            assert(text.take(start) =~= vstd::utf8::encode_utf8(chars.drop_last()));
            lemma_trim_end_text(chars.drop_last());
        } else {
            assert(trailing_space(text) == 0);
        }
    }
}

/// Trimming the encoding of a text is trimming the text: the byte patterns that
/// [`trim`] removes are those of the white space characters and no others.
pub proof fn trim_removes_white_space_characters(chars: Seq<char>)
    ensures
        trimmed(vstd::utf8::encode_utf8(chars)) == vstd::utf8::encode_utf8(
            trim_end_chars(trim_start_chars(chars)),
        ),
{
    lemma_trim_start_text(chars);
    lemma_trim_end_text(trim_start_chars(chars));
}

/// ASCII bytes are valid UTF-8.
pub proof fn lemma_ascii_is_utf8(text: Seq<u8>)
    requires
        forall|i: int| 0 <= i < text.len() ==> #[trigger] text[i] < 128,
    ensures
        vstd::utf8::valid_utf8(text),
{
    assert forall|i: int|
        0 <= i < text.len() implies #[trigger] vstd::utf8::is_leading_byte_width_1(text[i]) by {
        assert(text[i] < 128);
    }
    assert(text.subrange(0, 0) =~= Seq::<u8>::empty());
    vstd::utf8::partial_valid_utf8_extend_ascii_block(text, 0, text.len() as int);
    assert(text.subrange(0, text.len() as int) =~= text);
}

/// Calls [`std::str::from_utf8`]. It gives the text exactly where the bytes are
/// valid UTF-8, and the text then consists of those bytes.
#[verifier::external_body]
pub(crate) fn utf8_text(source: &[u8]) -> (text: Option<&str>)
    ensures
        text is Some <==> vstd::utf8::valid_utf8(source@),
        text matches Some(text) ==> text.spec_bytes() == source@,
{
    std::str::from_utf8(source).ok()
}

/// Whether two texts are the same.
pub fn same_text(left: &str, right: &str) -> (same: bool)
    ensures
        same == (left@ == right@),
{
    proof {
        vstd::utf8::encode_utf8_decode_utf8(left@);
        vstd::utf8::encode_utf8_decode_utf8(right@);
    }
    let a = left.as_bytes();
    let b = right.as_bytes();
    if a.len() != b.len() {
        return false;
    }
    let same = bytes::matches_at(a, b, 0);
    assert(a@.subrange(0, a@.len() as int) =~= a@);
    same
}

fn leading_space_len(text: &[u8]) -> (len: usize)
    ensures
        len == leading_space(text@),
        len <= text@.len(),
{
    let n = text.len();
    if n >= 1 && is_space_1(text[0]) {
        1
    } else if n >= 2 && is_space_2(text[0], text[1]) {
        2
    } else if n >= 3 && is_space_3(text[0], text[1], text[2]) {
        3
    } else {
        0
    }
}

fn trailing_space_len(text: &[u8]) -> (len: usize)
    ensures
        len == trailing_space(text@),
        len <= text@.len(),
{
    let n = text.len();
    if n >= 1 && is_space_1(text[n - 1]) {
        1
    } else if n >= 2 && is_space_2(text[n - 2], text[n - 1]) {
        2
    } else if n >= 3 && is_space_3(text[n - 3], text[n - 2], text[n - 1]) {
        3
    } else {
        0
    }
}

fn is_space_1(byte: u8) -> (space: bool)
    ensures
        space == white_space_1(byte),
{
    (9 <= byte && byte <= 13) || byte == 32
}

fn is_space_2(first: u8, second: u8) -> (space: bool)
    ensures
        space == white_space_2(first, second),
{
    first == 0xC2 && (second == 0x85 || second == 0xA0)
}

fn is_space_3(first: u8, second: u8, third: u8) -> (space: bool)
    ensures
        space == white_space_3(first, second, third),
{
    if first == 0xE2 && second == 0x80 {
        (0x80 <= third && third <= 0x8A) || third == 0xA8 || third == 0xA9 || third == 0xAF
    } else {
        (first == 0xE1 && second == 0x9A && third == 0x80) || (first == 0xE2 && second == 0x81
            && third == 0x9F) || (first == 0xE3 && second == 0x80 && third == 0x80)
    }
}

/// Removes white space from both ends of a UTF-8 text.
pub fn trim(text: &[u8]) -> (rest: &[u8])
    ensures
        rest@ == trimmed(text@),
{
    let mut rest = text;
    let mut space: usize = leading_space_len(rest);
    while space > 0
        invariant
            space == leading_space(rest@),
            space <= rest@.len(),
            trim_start(rest@) == trim_start(text@),
        decreases rest@.len(),
    {
        assert(rest@.subrange(space as int, rest@.len() as int) =~= rest@.skip(space as int));
        rest = slice_subrange(rest, space, rest.len());
        space = leading_space_len(rest);
    }
    let mut space: usize = trailing_space_len(rest);
    while space > 0
        invariant
            space == trailing_space(rest@),
            space <= rest@.len(),
            trim_end(rest@) == trimmed(text@),
        decreases rest@.len(),
    {
        assert(rest@.subrange(0, rest@.len() - space) =~= rest@.take(rest@.len() - space));
        rest = slice_subrange(rest, 0, rest.len() - space);
        space = trailing_space_len(rest);
    }
    rest
}

/// The elements of a comma-separated list.
pub fn split_list(value: &[u8]) -> (elements: Vec<&[u8]>)
    ensures
        elements@.len() == list_elements(value@).len(),
        forall|i: int|
            0 <= i < elements@.len() ==> (#[trigger] elements@[i])@ == list_elements(value@)[i],
{
    let mut elements: Vec<&[u8]> = Vec::new();
    let mut rest = value;
    let mut cut: usize = bytes::position_of(rest, bytes::COMMA);
    let ghost mut done: Seq<Seq<u8>> = Seq::empty();
    assert(done + bytes::split(rest@, bytes::COMMA) =~= bytes::split(value@, bytes::COMMA));
    while cut < rest.len()
        invariant
            cut == bytes::index_of(rest@, bytes::COMMA),
            cut <= rest@.len(),
            done + bytes::split(rest@, bytes::COMMA) == bytes::split(value@, bytes::COMMA),
            elements@.len() == done.len(),
            forall|i: int| 0 <= i < done.len() ==> (#[trigger] elements@[i])@ == trimmed(done[i]),
        decreases rest@.len(),
    {
        let element = slice_subrange(rest, 0, cut);
        elements.push(trim(element));
        proof {
            let parts = bytes::split(rest@, bytes::COMMA);
            assert(element@ =~= rest@.take(cut as int));
            assert(rest@.subrange(cut + 1, rest@.len() as int) =~= rest@.skip(cut + 1));
            assert(done + parts =~= done.push(element@) + bytes::split(
                rest@.skip(cut + 1),
                bytes::COMMA,
            ));
            done = done.push(element@);
        }
        rest = slice_subrange(rest, cut + 1, rest.len());
        cut = bytes::position_of(rest, bytes::COMMA);
    }
    elements.push(trim(rest));
    assert(bytes::split(value@, bytes::COMMA) =~= done.push(rest@));
    elements
}

/// Whether one of the elements of the list `value` is `element`.
pub fn has_element(value: &[u8], element: &[u8]) -> (found: bool)
    ensures
        found == lists(value@, element@),
{
    let elements = split_list(value);
    for i in 0..elements.len()
        invariant
            elements@.len() == list_elements(value@).len(),
            forall|j: int|
                0 <= j < elements@.len() ==> (#[trigger] elements@[j])@ == list_elements(value@)[j],
            forall|j: int|
                0 <= j < i ==> !bytes::same_ignoring_case(
                    #[trigger] list_elements(value@)[j],
                    element@,
                ),
    {
        if bytes::eq_ignore_ascii_case(elements[i], element) {
            assert(bytes::same_ignoring_case(list_elements(value@)[i as int], element@));
            return true;
        }
    }
    false
}

} // verus!
