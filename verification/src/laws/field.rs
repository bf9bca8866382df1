//! Laws of header syntax.

use crate::field;
use vstd::prelude::*;

verus! {

/// Two pieces make up a value exactly where each is one: a value is judged byte
/// by byte, wherever a byte stands.
pub proof fn values_are_judged_byte_by_byte(first: Seq<u8>, second: Seq<u8>, byte: u8)
    ensures
        field::is_value(first + second) <==> field::is_value(first) && field::is_value(second),
        field::is_value(seq![byte]) <==> byte == 9 || 32 <= byte <= 126 || 128 <= byte,
        field::is_value(Seq::empty()),
{
    let whole = first + second;
    assert(forall|i: int| 0 <= i < first.len() ==> #[trigger] first[i] == whole[i]);
    assert(forall|i: int|
        0 <= i < second.len() ==> #[trigger] second[i] == whole[first.len() + i]);
    if field::is_value(whole) {
        assert forall|i: int| 0 <= i < second.len() implies field::value_byte(
            #[trigger] second[i],
        ) by {
            assert(field::value_byte(whole[first.len() + i]));
        }
    }
    if field::is_value(first) && field::is_value(second) {
        assert forall|i: int| 0 <= i < whole.len() implies field::value_byte(
            #[trigger] whole[i],
        ) by {
            if i < first.len() {
                assert(field::value_byte(first[i]));
            } else {
                assert(field::value_byte(second[i - first.len()]));
            }
        }
    }
    assert(seq![byte][0] == byte);
}

/// Two pieces make up a name exactly where each is one, and no piece at all is
/// none: a name is judged byte by byte, wherever a byte stands.
pub proof fn names_are_judged_byte_by_byte(first: Seq<u8>, second: Seq<u8>, byte: u8)
    requires
        first.len() > 0,
        second.len() > 0,
    ensures
        field::is_name(first + second) <==> field::is_name(first) && field::is_name(second),
        field::is_name(seq![byte]) <==> {
            ||| 48 <= byte <= 57
            ||| 65 <= byte <= 90
            ||| 97 <= byte <= 122
            ||| seq![33u8, 35, 36, 37, 38, 39, 42, 43, 45, 46, 94, 95, 96, 124, 126].contains(byte)
        },
        !field::is_name(Seq::empty()),
{
    let whole = first + second;
    assert(forall|i: int| 0 <= i < first.len() ==> #[trigger] first[i] == whole[i]);
    if field::is_name(whole) {
        assert forall|i: int| 0 <= i < second.len() implies field::name_byte(
            #[trigger] second[i],
        ) by {
            assert(field::name_byte(whole[first.len() + i]));
        }
    }
    if field::is_name(first) && field::is_name(second) {
        assert forall|i: int| 0 <= i < whole.len() implies field::name_byte(
            #[trigger] whole[i],
        ) by {
            if i < first.len() {
                assert(field::name_byte(first[i]));
            } else {
                assert(field::name_byte(second[i - first.len()]));
            }
        }
    }
    assert(seq![byte][0] == byte);
    let marks = seq![33u8, 35, 36, 37, 38, 39, 42, 43, 45, 46, 94, 95, 96, 124, 126];
    assert(marks[0] == 33 && marks[1] == 35 && marks[2] == 36 && marks[3] == 37 && marks[4] == 38
        && marks[5] == 39 && marks[6] == 42 && marks[7] == 43 && marks[8] == 45 && marks[9] == 46
        && marks[10] == 94 && marks[11] == 95 && marks[12] == 96 && marks[13] == 124 && marks[14]
        == 126);
}

} // verus!
