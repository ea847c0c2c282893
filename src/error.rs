use vstd::prelude::*;
use vstd::string::StringExecFns;

use crate::text::push_char;

verus! {

/// What can go wrong when a value is read back from bytes or text.
#[derive(Debug, Clone, PartialEq, Eq)]
pub enum Error {
    /// The input has the wrong length for a value of fixed size.
    InvalidDataSize { expected: usize, got: usize },
    /// A byte of hex text is not one of `0-9` or `a-f`.
    InvalidHexDigit(char),
    /// A byte of base64 text is neither in the standard alphabet nor `=`.
    InvalidBase64Character(char),
    /// A slice could not be turned into an array.
    SliceConversionError(String),
}

/// The decimal digit for `d`, which is below ten.
pub open spec fn digit_char(d: nat) -> char {
    (48 + d) as char
}

/// The decimal digits of `n`, most significant first.
pub open spec fn decimal(n: nat) -> Seq<char>
    decreases n,
{
    if n < 10 {
        seq![digit_char(n)]
    } else {
        decimal(n / 10).push(digit_char(n % 10))
    }
}

/// The sentence that describes an error.
pub open spec fn error_message(e: Error) -> Seq<char> {
    match e {
        Error::InvalidDataSize { expected, got } => "Invalid data size: expected "@ + decimal(
            expected as nat,
        ) + ", got "@ + decimal(got as nat),
        Error::InvalidHexDigit(c) => "Invalid hex digit: "@.push(c),
        Error::InvalidBase64Character(c) => "Invalid base64 character: "@.push(c),
        Error::SliceConversionError(msg) => "Slice conversion error: "@ + msg@,
    }
}

/// Appends the decimal digits of `n`.
fn push_decimal(s: &mut String, n: usize)
    ensures
        final(s)@ == old(s)@ + decimal(n as nat),
    decreases n,
{
    if n >= 10 {
        push_decimal(s, n / 10);
    }
    let d = (n % 10) as u32;
    push_char(s, (48 + d) as u8 as char);
    assert(final(s)@ =~= old(s)@ + decimal(n as nat));
}

impl Error {
    /// The sentence that describes the error.
    pub fn message(&self) -> (r: String)
        ensures
            r@ == error_message(*self),
    {
        match self {
            Error::InvalidDataSize { expected, got } => {
                let mut s = String::from_str("Invalid data size: expected ");
                push_decimal(&mut s, *expected);
                s.append(", got ");
                push_decimal(&mut s, *got);
                s
            },
            Error::InvalidHexDigit(c) => {
                let mut s = String::from_str("Invalid hex digit: ");
                push_char(&mut s, *c);
                s
            },
            Error::InvalidBase64Character(c) => {
                let mut s = String::from_str("Invalid base64 character: ");
                push_char(&mut s, *c);
                s
            },
            Error::SliceConversionError(msg) => {
                let mut s = String::from_str("Slice conversion error: ");
                s.append(msg.as_str());
                s
            },
        }
    }
}

/// The error of turning a slice into an array of another length, which
/// Verus sees as an opaque value.
#[verifier::external_type_specification]
#[verifier::external_body]
pub struct ExTryFromSliceError(core::array::TryFromSliceError);

impl From<core::array::TryFromSliceError> for Error {
    /// A failed slice conversion, with the text that describes it.
    fn from(value: core::array::TryFromSliceError) -> (r: Self)
        ensures
            r is SliceConversionError,
    {
        Error::SliceConversionError(value.to_string())
    }
}

impl vstd::std_specs::convert::FromSpecImpl<core::array::TryFromSliceError> for Error {
    open spec fn obeys_from_spec() -> bool {
        false
    }

    open spec fn from_spec(v: core::array::TryFromSliceError) -> Self {
        arbitrary()
    }
}

} // verus!
