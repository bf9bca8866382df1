//! Byte sequences: ASCII case, searching, and cutting.

use vstd::prelude::*;

verus! {

pub const HTAB: u8 = 9;

pub const LF: u8 = 10;

pub const CR: u8 = 13;

pub const SPACE: u8 = 32;

pub const COMMA: u8 = 44;

pub const COLON: u8 = 58;

pub const SEMICOLON: u8 = 59;

/// The line terminator of HTTP/1.
pub open spec fn crlf() -> Seq<u8> {
    seq![CR, LF]
}

/// An empty line behind a line: where a head or a trailer section ends.
pub open spec fn crlf_crlf() -> Seq<u8> {
    seq![CR, LF, CR, LF]
}

/// The lower-case form of an ASCII letter; any other byte as it is.
pub open spec fn lower(byte: u8) -> u8 {
    if 65 <= byte <= 90 {
        (byte + 32) as u8
    } else {
        byte
    }
}

/// Equality up to the case of ASCII letters.
pub open spec fn same_ignoring_case(left: Seq<u8>, right: Seq<u8>) -> bool {
    &&& left.len() == right.len()
    &&& forall|i: int| 0 <= i < left.len() ==> lower(#[trigger] left[i]) == lower(right[i])
}

/// `needle` stands in `haystack` at offset `at`.
pub open spec fn occurs_at(haystack: Seq<u8>, needle: Seq<u8>, at: int) -> bool {
    &&& 0 <= at
    &&& at + needle.len() <= haystack.len()
    &&& haystack.subrange(at, at + needle.len()) == needle
}

/// The first offset at or behind `from` at which `needle` stands.
pub open spec fn find(haystack: Seq<u8>, needle: Seq<u8>, from: int) -> Option<int>
    decreases haystack.len() - from,
{
    if from + needle.len() > haystack.len() {
        None
    } else if occurs_at(haystack, needle, from) {
        Some(from)
    } else if from < haystack.len() {
        find(haystack, needle, from + 1)
    } else {
        None
    }
}

/// The offset of the first `byte` in `text`, or its length if there is none.
pub open spec fn index_of(text: Seq<u8>, byte: u8) -> int
    decreases text.len(),
{
    if text.len() == 0 || text[0] == byte {
        0
    } else {
        1 + index_of(text.skip(1), byte)
    }
}

/// The parts of `text` between the occurrences of `separator`.
pub open spec fn split(text: Seq<u8>, separator: u8) -> Seq<Seq<u8>>
    decreases text.len(),
{
    let cut = index_of(text, separator);
    if 0 <= cut < text.len() {
        seq![text.take(cut)] + split(text.skip(cut + 1), separator)
    } else {
        seq![text]
    }
}

/// The lines of `text`: its parts between the occurrences of CR LF.
pub open spec fn lines(text: Seq<u8>) -> Seq<Seq<u8>>
    decreases text.len(),
{
    match find(text, crlf(), 0) {
        Some(cut) if 0 <= cut && cut + 2 <= text.len() => seq![text.take(cut)] + lines(
            text.skip(cut + 2),
        ),
        _ => seq![text],
    }
}

/// Where two strings stand one behind the other, each stands on its own.
pub proof fn lemma_occurs_parts(haystack: Seq<u8>, first: Seq<u8>, second: Seq<u8>, at: int)
    requires
        occurs_at(haystack, first + second, at),
    ensures
        occurs_at(haystack, first, at),
        occurs_at(haystack, second, at + first.len()),
{
    let whole = haystack.subrange(at, at + (first + second).len());
    assert(haystack.subrange(at, at + first.len()) =~= whole.subrange(0, first.len() as int));
    assert(first =~= (first + second).subrange(0, first.len() as int));
    let middle = at + first.len();
    assert(haystack.subrange(middle, middle + second.len()) =~= whole.subrange(
        first.len() as int,
        whole.len() as int,
    ));
    assert(second =~= (first + second).subrange(first.len() as int, whole.len() as int));
}

/// `find` gives the least offset at which the needle stands, if there is one.
pub proof fn lemma_find(haystack: Seq<u8>, needle: Seq<u8>, from: int)
    requires
        0 <= from,
    ensures
        match find(haystack, needle, from) {
            Some(at) => {
                &&& from <= at
                &&& occurs_at(haystack, needle, at)
                &&& forall|i: int| from <= i < at ==> !occurs_at(haystack, needle, i)
            },
            None => forall|i: int| from <= i ==> !occurs_at(haystack, needle, i),
        },
    decreases haystack.len() - from,
{
    if from + needle.len() <= haystack.len() && !occurs_at(haystack, needle, from) {
        if from < haystack.len() {
            lemma_find(haystack, needle, from + 1);
        }
    }
}

/// An offset that is the least one at which the needle stands is what `find`
/// gives.
pub proof fn lemma_find_is(haystack: Seq<u8>, needle: Seq<u8>, from: int, at: int)
    requires
        0 <= from <= at,
        occurs_at(haystack, needle, at),
        forall|i: int| from <= i < at ==> !occurs_at(haystack, needle, i),
    ensures
        find(haystack, needle, from) == Some(at),
{
    lemma_find(haystack, needle, from);
}

/// What `find` gives in a sequence it gives in every longer one too.
pub proof fn lemma_find_grows(haystack: Seq<u8>, longer: Seq<u8>, needle: Seq<u8>, from: int)
    requires
        0 <= from,
        haystack.is_prefix_of(longer),
        find(haystack, needle, from) is Some,
    ensures
        find(longer, needle, from) == find(haystack, needle, from),
{
    lemma_find(haystack, needle, from);
    let at = find(haystack, needle, from)->0;
    assert(longer.subrange(at, at + needle.len()) =~= haystack.subrange(at, at + needle.len()));
    assert forall|i: int| from <= i < at implies !occurs_at(longer, needle, i) by {
        if occurs_at(longer, needle, i) {
            assert(longer.subrange(i, i + needle.len()) =~= haystack.subrange(
                i,
                i + needle.len(),
            ));
            assert(occurs_at(haystack, needle, i));
        }
    }
    lemma_find_is(longer, needle, from, at);
}

/// What `find` gives in a sequence it gives in every part of it, from the start,
/// that holds the needle found.
pub proof fn lemma_find_cut(haystack: Seq<u8>, needle: Seq<u8>, from: int, len: int)
    requires
        0 <= from,
        0 <= len <= haystack.len(),
        find(haystack, needle, from) matches Some(at) && at + needle.len() <= len,
    ensures
        find(haystack.take(len), needle, from) == find(haystack, needle, from),
{
    let cut = haystack.take(len);
    let at = find(haystack, needle, from)->0;
    lemma_find(haystack, needle, from);
    assert(cut.subrange(at, at + needle.len()) =~= haystack.subrange(at, at + needle.len()));
    assert forall|i: int| from <= i < at implies !occurs_at(cut, needle, i) by {
        if occurs_at(cut, needle, i) {
            assert(cut.subrange(i, i + needle.len()) =~= haystack.subrange(i, i + needle.len()));
            assert(occurs_at(haystack, needle, i));
        }
    }
    lemma_find_is(cut, needle, from, at);
}

/// Dropping bytes in front moves what is found behind them.
pub proof fn lemma_find_shifts(haystack: Seq<u8>, needle: Seq<u8>, from: int, count: int)
    requires
        0 <= count <= from,
        count <= haystack.len(),
    ensures
        find(haystack.skip(count), needle, from - count) == (match find(haystack, needle, from) {
            Some(at) => Some(at - count),
            None => None,
        }),
        forall|at: int|
            count <= at ==> #[trigger] occurs_at(haystack, needle, at) == occurs_at(
                haystack.skip(count),
                needle,
                at - count,
            ),
    decreases haystack.len() - from,
{
    assert forall|at: int| count <= at implies #[trigger] occurs_at(haystack, needle, at)
        == occurs_at(haystack.skip(count), needle, at - count) by {
        if at + needle.len() <= haystack.len() {
            assert(haystack.skip(count).subrange(at - count, at - count + needle.len())
                =~= haystack.subrange(at, at + needle.len()));
        }
    }
    assert(occurs_at(haystack.skip(count), needle, from - count) == occurs_at(
        haystack,
        needle,
        from,
    ));
    if from + needle.len() <= haystack.len() && !occurs_at(haystack, needle, from) {
        if from < haystack.len() {
            lemma_find_shifts(haystack, needle, from + 1, count);
        }
    }
}

/// `index_of` gives the least offset of the byte.
pub proof fn lemma_index_of(text: Seq<u8>, byte: u8)
    ensures
        0 <= index_of(text, byte) <= text.len(),
        index_of(text, byte) < text.len() ==> text[index_of(text, byte)] == byte,
        forall|i: int| 0 <= i < index_of(text, byte) ==> text[i] != byte,
    decreases text.len(),
{
    if text.len() != 0 && text[0] != byte {
        lemma_index_of(text.skip(1), byte);
        assert forall|i: int| 0 <= i < index_of(text, byte) implies text[i] != byte by {
            if i > 0 {
                assert(text.skip(1)[i - 1] == text[i]);
            }
        }
    }
}

/// An offset with only other bytes in front of it is what `index_of` gives.
pub proof fn lemma_index_of_is(text: Seq<u8>, byte: u8, at: int)
    requires
        0 <= at <= text.len(),
        at < text.len() ==> text[at] == byte,
        forall|i: int| 0 <= i < at ==> text[i] != byte,
    ensures
        index_of(text, byte) == at,
{
    lemma_index_of(text, byte);
}

/// The lower-case form of an ASCII letter.
pub fn to_ascii_lowercase(byte: u8) -> (lowered: u8)
    ensures
        lowered == lower(byte),
{
    if 65 <= byte && byte <= 90 {
        byte + 32
    } else {
        byte
    }
}

/// Compares two byte strings up to the case of ASCII letters.
pub fn eq_ignore_ascii_case(left: &[u8], right: &[u8]) -> (same: bool)
    ensures
        same == same_ignoring_case(left@, right@),
{
    if left.len() != right.len() {
        return false;
    }
    for i in 0..left.len()
        invariant
            left@.len() == right@.len(),
            forall|j: int| 0 <= j < i ==> lower(#[trigger] left@[j]) == lower(right@[j]),
    {
        if to_ascii_lowercase(left[i]) != to_ascii_lowercase(right[i]) {
            return false;
        }
    }
    true
}

/// Whether `needle` stands in `haystack` at offset `at`.
pub fn matches_at(haystack: &[u8], needle: &[u8], at: usize) -> (found: bool)
    ensures
        found == occurs_at(haystack@, needle@, at as int),
        found ==> at + needle.len() <= haystack.len(),
{
    if at > haystack.len() || haystack.len() - at < needle.len() {
        return false;
    }
    for i in 0..needle.len()
        invariant
            at + needle.len() <= haystack.len(),
            forall|j: int| 0 <= j < i ==> haystack@[at + j] == needle@[j],
    {
        if haystack[at + i] != needle[i] {
            let ghost found = haystack@.subrange(at as int, at + needle@.len());
            assert(found[i as int] == haystack@[at + i]);
            return false;
        }
    }
    assert(haystack@.subrange(at as int, at + needle@.len()) =~= needle@);
    true
}

/// Finds the first `needle` at or behind `from`.
pub fn find_bytes(haystack: &[u8], needle: &[u8], from: usize) -> (found: Option<usize>)
    requires
        needle@.len() > 0,
    ensures
        match found {
            Some(at) => find(haystack@, needle@, from as int) == Some(at as int),
            None => find(haystack@, needle@, from as int) is None,
        },
        found matches Some(at) ==> from <= at && at + needle.len() <= haystack.len(),
{
    proof {
        lemma_find(haystack@, needle@, from as int);
    }
    if from > haystack.len() {
        return None;
    }
    let mut at = from;
    while haystack.len() - at >= needle.len()
        invariant
            from <= at <= haystack@.len(),
            needle@.len() > 0,
            forall|i: int| from <= i < at ==> !occurs_at(haystack@, needle@, i),
        decreases haystack@.len() - at,
    {
        if matches_at(haystack, needle, at) {
            proof {
                lemma_find_is(haystack@, needle@, from as int, at as int);
            }
            return Some(at);
        }
        at = at + 1;
    }
    proof {
        lemma_find(haystack@, needle@, from as int);
    }
    None
}

/// Finds the first `byte` in `text`.
pub fn position_of(text: &[u8], byte: u8) -> (at: usize)
    ensures
        at == index_of(text@, byte),
        at <= text@.len(),
{
    let mut at: usize = 0;
    while at < text.len() && text[at] != byte
        invariant
            at <= text@.len(),
            forall|i: int| 0 <= i < at ==> text@[i] != byte,
        decreases text@.len() - at,
    {
        at = at + 1;
    }
    proof {
        lemma_index_of_is(text@, byte, at as int);
    }
    at
}

} // verus!
