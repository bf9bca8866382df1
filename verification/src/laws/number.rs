//! Laws of numbers.

use crate::laws;
use crate::number;
use vstd::prelude::*;

verus! {

/// `byte` is the digit for `value`, letters in either case.
pub open spec fn is_digit_for(byte: u8, value: nat) -> bool {
    ||| value < 10 && byte == 48 + value
    ||| 10 <= value < 16 && (byte == 55 + value || byte == 87 + value)
}

/// A single byte is a number exactly where it is a digit below the radix.
pub proof fn single_digits_are_numbers(byte: u8, value: nat, radix: nat)
    requires
        2 <= radix <= 16,
    ensures
        number::number(seq![byte], radix) == Some(value) <==> value < radix && is_digit_for(
            byte,
            value,
        ),
{
    reveal_with_fuel(number::digits_value, 2);
    let text = seq![byte];
    assert(text.drop_last() =~= Seq::<u8>::empty());
    assert(0 * radix == 0);
    assert(text[0] == byte);
    assert(number::is_digits(text, radix) <==> number::digit_value(byte) < radix);
}

/// A digit behind a number moves its digits one place up. What a `usize` cannot
/// hold is no number, and no digits behind it make it one.
pub proof fn digits_add_up(text: Seq<u8>, byte: u8, digit: nat, radix: nat)
    requires
        2 <= radix <= 16,
        text.len() > 0,
        digit < radix,
        is_digit_for(byte, digit),
    ensures
        number::number(text.push(byte), radix) == (match number::number(text, radix) {
            Some(front) if front * radix + digit <= usize::MAX => Some(front * radix + digit),
            _ => None,
        }),
{
    let longer = text.push(byte);
    let front = number::digits_value(text, radix);
    assert(longer.drop_last() =~= text);
    assert(number::digits_value(longer, radix) == front * radix + digit);
    assert(front <= front * radix) by (nonlinear_arith)
        requires
            radix >= 2,
    ;
    assert(forall|i: int| 0 <= i < text.len() ==> #[trigger] text[i] == longer[i]);
    assert(longer[text.len() as int] == byte);
    if number::is_digits(text, radix) {
        assert forall|i: int| 0 <= i < longer.len() implies number::digit_value(
            #[trigger] longer[i],
        ) < radix by {
            if i < text.len() {
                assert(number::digit_value(text[i]) < radix);
            }
        }
    }
}

/// No text is no number, and a text with any byte that is no digit is none.
pub proof fn other_texts_are_no_numbers(text: Seq<u8>, i: int, radix: nat)
    requires
        2 <= radix <= 16,
    ensures
        text.len() == 0 ==> number::number(text, radix) is None,
        0 <= i < text.len() && (forall|value: nat| value < radix ==> !is_digit_for(text[i], value))
            ==> number::number(text, radix) is None,
{
    if 0 <= i < text.len() && number::is_digits(text, radix) {
        assert(is_digit_for(text[i], number::digit_value(text[i])));
    }
}

/// The case of its letters does not change a number.
pub proof fn numbers_ignore_case(left: Seq<u8>, right: Seq<u8>, radix: nat)
    requires
        2 <= radix <= 16,
        left.len() == right.len(),
        forall|i: int|
            0 <= i < left.len() ==> laws::text::same_letter(#[trigger] left[i], right[i]),
    ensures
        number::number(left, radix) == number::number(right, radix),
{
    lemma_value_ignores_case(left, right, radix);
    assert forall|i: int| 0 <= i < left.len() implies number::digit_value(#[trigger] left[i])
        == number::digit_value(right[i]) || radix <= number::digit_value(left[i]) by {
        assert(laws::text::same_letter(left[i], right[i]));
    }
    assert forall|i: int| 0 <= i < left.len() implies number::digit_value(left[i])
        == number::digit_value(#[trigger] right[i]) by {
        assert(laws::text::same_letter(left[i], right[i]));
    }
    if number::is_digits(left, radix) {
        assert(number::is_digits(right, radix));
    }
    if number::is_digits(right, radix) {
        assert(number::is_digits(left, radix));
    }
}

proof fn lemma_value_ignores_case(left: Seq<u8>, right: Seq<u8>, radix: nat)
    requires
        left.len() == right.len(),
        forall|i: int|
            0 <= i < left.len() ==> laws::text::same_letter(#[trigger] left[i], right[i]),
    ensures
        number::digits_value(left, radix) == number::digits_value(right, radix),
    decreases left.len(),
{
    if left.len() > 0 {
        let front = left.drop_last();
        assert forall|i: int| 0 <= i < front.len() implies laws::text::same_letter(
            #[trigger] front[i],
            right.drop_last()[i],
        ) by {
            assert(laws::text::same_letter(left[i], right[i]));
        }
        lemma_value_ignores_case(front, right.drop_last(), radix);
        assert(laws::text::same_letter(left[left.len() - 1], right[left.len() - 1]));
    }
}

/// Zeros in front do not change a number.
pub proof fn leading_zeros_do_not_count(text: Seq<u8>, radix: nat)
    requires
        2 <= radix <= 16,
        text.len() > 0,
    ensures
        number::number(seq![48u8] + text, radix) == number::number(text, radix),
{
    let longer = seq![48u8] + text;
    lemma_zero_in_front(text, radix);
    assert(forall|i: int| 0 <= i < text.len() ==> #[trigger] text[i] == longer[i + 1]);
    assert(forall|i: int| 0 < i < longer.len() ==> #[trigger] longer[i] == text[i - 1]);
    assert(longer[0] == 48);
    if number::is_digits(longer, radix) {
        assert forall|i: int| 0 <= i < text.len() implies number::digit_value(#[trigger] text[i])
            < radix by {
            assert(number::digit_value(longer[i + 1]) < radix);
        }
    }
}

proof fn lemma_zero_in_front(text: Seq<u8>, radix: nat)
    ensures
        number::digits_value(seq![48u8] + text, radix) == number::digits_value(text, radix),
    decreases text.len(),
{
    let longer = seq![48u8] + text;
    reveal_with_fuel(number::digits_value, 2);
    if text.len() == 0 {
        assert(longer.drop_last() =~= Seq::<u8>::empty());
        assert(0 * radix == 0);
    } else {
        assert(longer.drop_last() =~= seq![48u8] + text.drop_last());
        lemma_zero_in_front(text.drop_last(), radix);
    }
}

/// A number is written with upper-case digits and no zero in front, unless it is
/// zero, and no two numbers are written alike.
pub proof fn numerals_are_canonical(value: nat, other: nat, radix: nat)
    requires
        2 <= radix <= 16,
    ensures
        number::numeral(value, radix).len() > 0,
        value > 0 ==> number::numeral(value, radix)[0] != 48,
        value == 0 ==> number::numeral(value, radix) == seq![48u8],
        forall|i: int|
            0 <= i < number::numeral(value, radix).len() ==> {
                let byte = #[trigger] number::numeral(value, radix)[i];
                48 <= byte <= 57 || 65 <= byte <= 70
            },
        number::numeral(value, radix) == number::numeral(other, radix) ==> value == other,
    decreases value,
{
    number::numeral_reads_back(value, radix);
    number::numeral_reads_back(other, radix);
    number::lemma_numeral_digits(value, radix);
    let text = number::numeral(value, radix);
    if value >= radix {
        number::lemma_shrinks(value, radix);
        let front = value / radix;
        assert(front > 0) by (nonlinear_arith)
            requires
                front == value / radix,
                value >= radix,
                radix >= 2,
        ;
        numerals_are_canonical(front, front, radix);
        assert(text[0] == number::numeral(front, radix)[0]);
    } else {
        assert(text[0] == number::digit_byte(value));
    }
}

/// The digits of numbers: `0` to `9`, and then `A` to `F`.
pub proof fn digits_are_upper_case(value: nat)
    requires
        value < 16,
    ensures
        is_digit_for(number::digit_byte(value), value),
        number::digit_byte(value) <= 70,
{
}

} // verus!
