//! Lines of a message head.

use crate::bytes;
use vstd::prelude::*;

verus! {

/// Lines, each with its terminator.
pub open spec fn terminated(lines: Seq<Seq<u8>>) -> Seq<u8>
    decreases lines.len(),
{
    if lines.len() == 0 {
        Seq::empty()
    } else {
        terminated(lines.drop_last()) + lines.last() + bytes::crlf()
    }
}

/// The bytes hold no part of a line terminator.
pub open spec fn is_line(text: Seq<u8>) -> bool {
    forall|i: int| 0 <= i < text.len() ==> #[trigger] text[i] != bytes::CR && text[i] != bytes::LF
}

/// All characters are printable ASCII characters.
pub open spec fn is_printable(chars: Seq<char>) -> bool {
    forall|i: int| 0 <= i < chars.len() ==> ' ' <= #[trigger] chars[i] <= '~'
}

/// Printable ASCII characters make up a line.
pub proof fn lemma_printable_is_line(chars: Seq<char>)
    requires
        is_printable(chars),
    ensures
        is_line(vstd::utf8::encode_utf8(chars)),
{
    assert(vstd::utf8::is_ascii_chars(chars));
    vstd::utf8::is_ascii_chars_encode_utf8(chars);
    assert forall|i: int| 0 <= i < chars.len() implies #[trigger] vstd::utf8::encode_utf8(chars)[i]
        != bytes::CR && vstd::utf8::encode_utf8(chars)[i] != bytes::LF by {
        assert(' ' <= chars[i] <= '~');
    }
}

/// Terminating lines one after the other.
pub proof fn lemma_terminated_adds(first: Seq<Seq<u8>>, second: Seq<Seq<u8>>)
    ensures
        terminated(first + second) == terminated(first) + terminated(second),
    decreases second.len(),
{
    if second.len() == 0 {
        assert(first + second =~= first);
        assert(terminated(first) + terminated(second) =~= terminated(first));
    } else {
        lemma_terminated_adds(first, second.drop_last());
        assert((first + second).drop_last() =~= first + second.drop_last());
        assert(terminated(first + second) =~= terminated(first) + terminated(second));
    }
}

/// One line and its terminator.
pub proof fn lemma_one_line(line: Seq<u8>)
    ensures
        terminated(seq![line]) == line + bytes::crlf(),
{
    reveal_with_fuel(terminated, 2);
    assert(seq![line].drop_last() =~= Seq::<Seq<u8>>::empty());
    assert(terminated(seq![line]) =~= line + bytes::crlf());
}

/// Cutting a text behind its first line.
proof fn lemma_first_line(first: Seq<u8>, rest: Seq<u8>)
    requires
        is_line(first),
    ensures
        bytes::lines(first + bytes::crlf() + rest) == seq![first] + bytes::lines(rest),
{
    let text = first + bytes::crlf() + rest;
    let cut = first.len() as int;
    assert(text.subrange(cut, cut + 2) =~= bytes::crlf());
    assert forall|i: int| 0 <= i < cut implies !bytes::occurs_at(text, bytes::crlf(), i) by {
        if bytes::occurs_at(text, bytes::crlf(), i) {
            assert(text.subrange(i, i + 2)[0] == text[i]);
            assert(text[i] == first[i]);
        }
    }
    bytes::lemma_find_is(text, bytes::crlf(), 0, cut);
    assert(text.take(cut) =~= first);
    assert(text.skip(cut + 2) =~= rest);
}

/// A line terminator alone ends an empty line and starts another.
pub proof fn lemma_empty_lines()
    ensures
        bytes::lines(bytes::crlf()) == seq![Seq::<u8>::empty(), Seq::<u8>::empty()],
{
    let empty = Seq::<u8>::empty();
    lemma_first_line(empty, empty);
    assert(empty + bytes::crlf() + empty =~= bytes::crlf());
    assert(bytes::find(empty, bytes::crlf(), 0) is None);
    assert(bytes::lines(empty) =~= seq![empty]);
    assert(seq![empty] + seq![empty] =~= seq![empty, empty]);
}

/// Cutting a text at its line terminators gives back the lines that were
/// terminated.
pub proof fn terminated_lines_read_back(lines: Seq<Seq<u8>>, rest: Seq<u8>)
    requires
        forall|i: int| 0 <= i < lines.len() ==> is_line(#[trigger] lines[i]),
    ensures
        bytes::lines(terminated(lines) + rest) == lines + bytes::lines(rest),
    decreases lines.len(),
{
    if lines.len() == 0 {
        assert(terminated(lines) + rest =~= rest);
        assert(lines + bytes::lines(rest) =~= bytes::lines(rest));
    } else {
        let front = lines.drop_last();
        let last = lines.last();
        assert forall|i: int| 0 <= i < front.len() implies is_line(#[trigger] front[i]) by {
            assert(is_line(lines[i]));
        }
        terminated_lines_read_back(front, last + bytes::crlf() + rest);
        lemma_first_line(last, rest);
        assert(terminated(lines) + rest =~= terminated(front) + (last + bytes::crlf() + rest));
        assert(front + (seq![last] + bytes::lines(rest)) =~= lines + bytes::lines(rest));
    }
}

/// Appends a line and its terminator.
pub(crate) fn push_line(output: &mut Vec<u8>, line: &[u8])
    ensures
        final(output)@ == old(output)@ + (line@ + bytes::crlf()),
{
    output.extend_from_slice(line);
    output.extend_from_slice(&[bytes::CR, bytes::LF]);
    assert(output@ =~= old(output)@ + (line@ + bytes::crlf()));
}

} // verus!
