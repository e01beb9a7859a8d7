//! Building text: one more character, and numbers in decimal.

use vstd::prelude::*;

verus! {

/// `String::push` of std: the string afterwards is the string before with
/// `ch` as one more character at its end.
pub assume_specification[ String::push ](text: &mut String, ch: char)
    ensures
        final(text)@ == old(text)@.push(ch),
;

/// The character for a decimal digit.
pub open spec fn digit_char(digit: nat) -> char {
    ('0' as u8 + digit) as char
}

/// A number as decimal digits, without leading zeros.
pub open spec fn decimal_digits(value: nat) -> Seq<char>
    decreases value,
{
    if value < 10 {
        seq![digit_char(value)]
    } else {
        decimal_digits(value / 10).push(digit_char(value % 10))
    }
}

/// Writes `value` in decimal at the end of `text`.
pub fn push_decimal(text: &mut String, value: usize)
    ensures
        final(text)@ == old(text)@ + decimal_digits(value as nat),
    decreases value,
{
    if value >= 10 {
        push_decimal(text, value / 10);
    }
    let digit: u8 = (value % 10) as u8;
    text.push(('0' as u8 + digit) as char);
    assert(text@ =~= old(text)@ + decimal_digits(value as nat));
}

} // verus!
