//! What can go wrong when a label is decoded.

use vstd::prelude::*;
use vstd::string::StringExecFns;
use crate::text::{decimal_digits, push_decimal};

verus! {

/// A label that was to be decoded does not have the length that the fields
/// call for.
#[derive(Debug, Copy, Clone)]
pub struct DecodeLengthError {
    /// The length of the label that was passed.
    pub num_chars: usize,
    /// The length that a label of these fields has.
    pub expected_num_chars: usize,
}

impl DecodeLengthError {
    /// The error in words: both lengths, in decimal.
    pub open spec fn message(&self) -> Seq<char> {
        "Passed "@ + decimal_digits(self.num_chars as nat) + " - expected "@ + decimal_digits(
            self.expected_num_chars as nat,
        ) + " characters"@
    }

    /// Returns the error in words, such as `Passed 10 - expected 29 characters`.
    pub fn to_string(&self) -> (text: String)
        ensures
            text@ == self.message(),
    {
        let mut text = String::from_str("Passed ");
        push_decimal(&mut text, self.num_chars);
        text.append(" - expected ");
        push_decimal(&mut text, self.expected_num_chars);
        text.append(" characters");
        text
    }
}

} // verus!
