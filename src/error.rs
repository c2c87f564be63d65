use vstd::prelude::*;

verus! {

/// std's error for invalid UTF-8, carried opaque in `Error`.
#[verifier::external_type_specification]
#[verifier::external_body]
pub struct ExUtf8Error(std::str::Utf8Error);

/// Why a decimal integer could not be read.
#[derive(Debug, Clone, Copy, PartialEq, Eq, Structural)]
pub enum IntErrorKind {
    /// The text is empty.
    Empty,
    /// A byte is not a digit, or a sign stands alone.
    InvalidDigit,
    /// The number is above the largest value of the target type.
    PosOverflow,
    /// The number is below the smallest value of the target type.
    NegOverflow,
}

impl IntErrorKind {
    pub open spec fn text(self) -> Seq<char> {
        match self {
            IntErrorKind::Empty => "cannot parse integer from empty string"@,
            IntErrorKind::InvalidDigit => "invalid digit found in string"@,
            IntErrorKind::PosOverflow => "number too large to fit in target type"@,
            IntErrorKind::NegOverflow => "number too small to fit in target type"@,
        }
    }

    /// The message of this error.
    pub fn to_string(&self) -> (r: String)
        ensures
            r@ == self.text(),
    {
        match self {
            IntErrorKind::Empty => String::from_str("cannot parse integer from empty string"),
            IntErrorKind::InvalidDigit => String::from_str("invalid digit found in string"),
            IntErrorKind::PosOverflow => String::from_str("number too large to fit in target type"),
            IntErrorKind::NegOverflow => String::from_str("number too small to fit in target type"),
        }
    }
}

/// The errors of the codec.
#[derive(Debug)]
pub enum Error {
    /// A typed field holds text that is no integer of its width.
    ParseIntError(IntErrorKind),
    /// Bytes that should be text are not valid UTF-8.
    Utf8Error(std::str::Utf8Error),
    /// A header that a caller's schema rejects; the codec itself reports
    /// malformed headers as decode errors.
    InvalidHeader(String),
    /// The buffer or a field breaks the format; the message says how.
    DecodeError(String),
    /// A value cannot be written.
    EncodeError(String),
}

impl Error {
    /// The message of every error but a UTF-8 one, whose message std writes.
    pub open spec fn text(&self) -> Seq<char> {
        match self {
            Error::ParseIntError(k) => k.text(),
            Error::Utf8Error(_) => Seq::empty(),
            Error::InvalidHeader(m) => m@,
            Error::DecodeError(m) => m@,
            Error::EncodeError(m) => m@,
        }
    }

    /// True when this is a decode error with the message `m`.
    pub open spec fn is_decode(&self, m: Seq<char>) -> bool {
        self matches Error::DecodeError(s) && s@ == m
    }

    /// The message of this error.
    pub fn to_string(&self) -> (r: String)
        ensures
            !(self is Utf8Error) ==> r@ == self.text(),
    {
        match self {
            Error::ParseIntError(k) => k.to_string(),
            Error::Utf8Error(e) => utf8_error_text(e),
            Error::InvalidHeader(m) => m.clone(),
            Error::DecodeError(m) => m.clone(),
            Error::EncodeError(m) => m.clone(),
        }
    }
}

/// Relies on the `Display` of `std::str::Utf8Error` for the message of an
/// invalid UTF-8 sequence; nothing is claimed of the text.
#[verifier::external_body]
fn utf8_error_text(e: &std::str::Utf8Error) -> String {
    format!("{}", e)
}

} // verus!
