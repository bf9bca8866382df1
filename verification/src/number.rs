//! Decimal and hexadecimal numbers, read and written.

use vstd::prelude::*;
use vstd::slice::slice_subrange;

verus! {

/// The value of an ASCII digit; 16 for every byte that is no digit.
pub open spec fn digit_value(byte: u8) -> nat {
    if 48 <= byte <= 57 {
        (byte - 48) as nat
    } else if 65 <= byte <= 70 {
        (byte - 55) as nat
    } else if 97 <= byte <= 102 {
        (byte - 87) as nat
    } else {
        16
    }
}

/// The number that a sequence of digits stands for.
pub open spec fn digits_value(digits: Seq<u8>, radix: nat) -> nat
    decreases digits.len(),
{
    if digits.len() == 0 {
        0
    } else {
        digits_value(digits.drop_last(), radix) * radix + digit_value(digits.last())
    }
}

/// Every byte is a digit below `radix`, and there is one.
pub open spec fn is_digits(text: Seq<u8>, radix: nat) -> bool {
    &&& text.len() > 0
    &&& forall|i: int| 0 <= i < text.len() ==> digit_value(#[trigger] text[i]) < radix
}

/// The number that `text` holds: digits and nothing else, whose value a `usize`
/// can hold.
pub open spec fn number(text: Seq<u8>, radix: nat) -> Option<nat> {
    if is_digits(text, radix) && digits_value(text, radix) <= usize::MAX {
        Some(digits_value(text, radix))
    } else {
        None
    }
}

/// The digit of a value below 16, letters in upper case.
pub open spec fn digit_byte(value: nat) -> u8 {
    if value < 10 {
        (48 + value) as u8
    } else {
        (55 + value) as u8
    }
}

/// `value` written with as few digits as it takes.
pub open spec fn numeral(value: nat, radix: nat) -> Seq<u8>
    decreases value,
{
    if radix < 2 || value < radix {
        seq![digit_byte(value)]
    } else {
        proof {
            lemma_shrinks(value, radix);
        }
        numeral(value / radix, radix).push(digit_byte(value % radix))
    }
}

pub proof fn lemma_shrinks(value: nat, radix: nat)
    requires
        radix >= 2,
        value >= radix,
    ensures
        value / radix < value,
{
    assert(value / radix < value) by (nonlinear_arith)
        requires
            radix >= 2,
            value >= radix,
    ;
}

/// Dropping leading digits never raises the value.
proof fn lemma_prefix_value(digits: Seq<u8>, len: int, radix: nat)
    requires
        0 <= len <= digits.len(),
        radix >= 1,
    ensures
        digits_value(digits.take(len), radix) <= digits_value(digits, radix),
    decreases digits.len(),
{
    if len == digits.len() {
        assert(digits.take(len) =~= digits);
    } else {
        lemma_prefix_value(digits.drop_last(), len, radix);
        assert(digits.drop_last().take(len) =~= digits.take(len));
        let shorter = digits_value(digits.drop_last(), radix);
        assert(shorter <= shorter * radix) by (nonlinear_arith)
            requires
                radix >= 1,
        ;
    }
}

fn value_of_digit(byte: u8) -> (value: usize)
    ensures
        value == digit_value(byte),
{
    let value: u8 = if 48 <= byte && byte <= 57 {
        byte - 48
    } else if 65 <= byte && byte <= 70 {
        byte - 55
    } else if 97 <= byte && byte <= 102 {
        byte - 87
    } else {
        16
    };
    value as usize
}

/// Reads a number: digits below `radix` and nothing else.
pub fn parse_number(digits: &[u8], radix: usize) -> (value: Option<usize>)
    requires
        2 <= radix <= 16,
    ensures
        match value {
            Some(value) => number(digits@, radix as nat) == Some(value as nat),
            None => number(digits@, radix as nat) is None,
        },
{
    if digits.len() == 0 {
        return None;
    }
    let mut value: usize = 0;
    for i in 0..digits.len()
        invariant
            2 <= radix <= 16,
            value == digits_value(digits@.take(i as int), radix as nat),
            forall|j: int| 0 <= j < i ==> digit_value(#[trigger] digits@[j]) < radix,
    {
        let digit = value_of_digit(digits[i]);
        proof {
            assert(digits@.take(i + 1).drop_last() =~= digits@.take(i as int));
            lemma_prefix_value(digits@, i + 1, radix as nat);
        }
        if digit >= radix {
            return None;
        }
        match value.checked_mul(radix) {
            None => {
                return None;
            },
            Some(shifted) => match shifted.checked_add(digit) {
                None => {
                    return None;
                },
                Some(sum) => {
                    value = sum;
                },
            },
        }
    }
    assert(digits@.take(digits@.len() as int) =~= digits@);
    Some(value)
}

/// Writing a number and reading it back gives the number.
pub proof fn numeral_reads_back(value: nat, radix: nat)
    requires
        2 <= radix <= 16,
    ensures
        is_digits(numeral(value, radix), radix),
        digits_value(numeral(value, radix), radix) == value,
        value <= usize::MAX ==> number(numeral(value, radix), radix) == Some(value),
{
    lemma_numeral_digits(value, radix);
}

/// The digits of a numeral, and what they stand for.
pub proof fn lemma_numeral_digits(value: nat, radix: nat)
    requires
        2 <= radix <= 16,
    ensures
        is_digits(numeral(value, radix), radix),
        forall|i: int|
            0 <= i < numeral(value, radix).len() ==> {
                let byte = #[trigger] numeral(value, radix)[i];
                48 <= byte <= 57 || 65 <= byte <= 70
            },
        digits_value(numeral(value, radix), radix) == value,
    decreases value,
{
    let text = numeral(value, radix);
    reveal_with_fuel(digits_value, 2);
    if value < radix {
        assert(text.drop_last() =~= Seq::<u8>::empty());
        assert(0 * radix == 0);
    } else {
        lemma_shrinks(value, radix);
        lemma_numeral_digits(value / radix, radix);
        let front = numeral(value / radix, radix);
        assert(text.drop_last() =~= front);
        assert(value == (value / radix) * radix + value % radix) by (nonlinear_arith)
            requires
                radix >= 2,
        ;
        assert(value % radix < radix) by (nonlinear_arith)
            requires
                radix >= 2,
        ;
        assert(digit_value(digit_byte(value % radix)) == value % radix);
    }
}

/// A number below a power of the radix has no more digits than the exponent.
proof fn lemma_numeral_len(value: nat, radix: nat, len: nat)
    requires
        2 <= radix <= 16,
        1 <= len,
        value < vstd::arithmetic::power::pow(radix as int, len),
    ensures
        numeral(value, radix).len() <= len,
    decreases value,
{
    reveal(vstd::arithmetic::power::pow);
    if value >= radix {
        lemma_shrinks(value, radix);
        let power = vstd::arithmetic::power::pow(radix as int, (len - 1) as nat);
        if len == 1 {
            assert(power == 1);
        }
        assert(value / radix < power) by (nonlinear_arith)
            requires
                radix >= 2,
                value < radix * power,
        ;
        lemma_numeral_len(value / radix, radix, (len - 1) as nat);
    }
}

/// Twenty digits are enough for a `u64` in decimal and in hexadecimal.
proof fn lemma_twenty_digits(value: u64, radix: nat)
    requires
        radix == 10 || radix == 16,
    ensures
        numeral(value as nat, radix).len() <= 20,
{
    assert(value < vstd::arithmetic::power::pow(radix as int, 20)) by {
        reveal_with_fuel(vstd::arithmetic::power::pow, 21);
    }
    lemma_numeral_len(value as nat, radix, 20);
}

/// Writes `value` right-aligned into `digits`; returns the first used index.
fn write_digits(value: u64, radix: u64, digits: &mut [u8; 20]) -> (start: usize)
    requires
        radix == 10 || radix == 16,
    ensures
        start < 20,
        final(digits)@.subrange(start as int, 20) == numeral(value as nat, radix as nat),
        final(digits)@.take(start as int) == old(digits)@.take(start as int),
{
    let ghost base = radix as nat;
    let ghost whole = numeral(value as nat, base);
    let mut rest: u64 = value;
    let mut cursor: usize = 20;
    proof {
        lemma_twenty_digits(value, base);
    }
    assert(whole =~= whole + digits@.subrange(20, 20));
    loop
        invariant_except_break
            radix == 10 || radix == 16,
            base == radix as nat,
            cursor <= 20,
            numeral(rest as nat, base).len() <= cursor,
            whole == numeral(rest as nat, base) + digits@.subrange(cursor as int, 20),
            forall|i: int| 0 <= i < cursor ==> digits@[i] == old(digits)@[i],
        ensures
            cursor < 20,
            digits@.subrange(cursor as int, 20) == whole,
            forall|i: int| 0 <= i < cursor ==> digits@[i] == old(digits)@[i],
        decreases rest,
    {
        let ghost before = digits@.subrange(cursor as int, 20);
        let ghost front = numeral(rest as nat / base, base);
        let digit: u64 = rest % radix;
        cursor = cursor - 1;
        digits[cursor] = if digit < 10 {
            48 + digit as u8
        } else {
            55 + digit as u8
        };
        assert(digits@.subrange(cursor as int, 20) =~= seq![digits@[cursor as int]] + before);
        if rest < radix {
            assert(digits@.subrange(cursor as int, 20) =~= whole);
            break;
        }
        proof {
            lemma_shrinks(rest as nat, base);
            assert(front.push(digits@[cursor as int]) + before =~= front + digits@.subrange(
                cursor as int,
                20,
            ));
        }
        rest = rest / radix;
    }
    assert(digits@.take(cursor as int) =~= old(digits)@.take(cursor as int));
    cursor
}

/// Appends `value` in decimal.
pub fn push_decimal(output: &mut Vec<u8>, value: u64)
    ensures
        final(output)@ == old(output)@ + numeral(value as nat, 10),
{
    let mut digits: [u8; 20] = [0; 20];
    let start = write_digits(value, 10, &mut digits);
    output.extend_from_slice(slice_subrange(&digits, start, 20));
    assert(output@ =~= old(output)@ + numeral(value as nat, 10));
}

/// Appends `value` in upper-case hexadecimal.
pub fn push_hex(output: &mut Vec<u8>, value: usize)
    ensures
        final(output)@ == old(output)@ + numeral(value as nat, 16),
{
    let mut digits: [u8; 20] = [0; 20];
    let start = write_digits(value as u64, 16, &mut digits);
    output.extend_from_slice(slice_subrange(&digits, start, 20));
    assert(output@ =~= old(output)@ + numeral(value as nat, 16));
}

} // verus!
