//! The errors a decode can end in.

use vstd::prelude::*;

verus! {

/// The three families of failure.
#[derive(Debug, Clone, Copy, PartialEq, Eq, Structural)]
pub enum ErrorKind {
    /// The input breaks the grammar at an identifiable point.
    Parse,
    /// The byte at the cursor starts no known production.
    Other,
    /// Lists and dictionaries are nested deeper than the decoder follows.
    TooDeep,
}

/// A failed decode, with a human-readable reason.
#[derive(Debug, PartialEq, Eq)]
pub enum BencodeError {
    ParseError(String),
    Other(String),
    TooDeep(String),
}

impl BencodeError {
    /// The family this error belongs to.
    pub open spec fn kind(&self) -> ErrorKind {
        match self {
            BencodeError::ParseError(_) => ErrorKind::Parse,
            BencodeError::Other(_) => ErrorKind::Other,
            BencodeError::TooDeep(_) => ErrorKind::TooDeep,
        }
    }

    /// The reason carried by this error, as a sequence of characters.
    pub open spec fn message(&self) -> Seq<char> {
        match self {
            BencodeError::ParseError(m) => m@,
            BencodeError::Other(m) => m@,
            BencodeError::TooDeep(m) => m@,
        }
    }

    /// A grammar violation with the given reason.
    pub fn parse_error(msg: &str) -> (e: Self)
        ensures
            e.kind() == ErrorKind::Parse,
            e.message() == msg@,
    {
        BencodeError::ParseError(String::from_str(msg))
    }

    /// An unclassifiable input with the given reason.
    pub fn other_error(msg: &str) -> (e: Self)
        ensures
            e.kind() == ErrorKind::Other,
            e.message() == msg@,
    {
        BencodeError::Other(String::from_str(msg))
    }
}

/// Every reason for which a decode gives up.
#[derive(Debug, Clone, Copy, PartialEq, Eq, Structural)]
pub enum Failure {
    /// The cursor is at the end of the input, or at a byte that starts no
    /// production.
    Unhandled,
    /// A byte string has no `:` after its length.
    MissingColon,
    /// The length of a byte string is not written in decimal digits.
    InvalidLength,
    /// A byte string announces more bytes than the input still holds.
    TruncatedString,
    /// An integer has no closing `e`.
    MissingEnd,
    /// An integer has nothing between `i` and `e`.
    EmptyInteger,
    /// An integer is written `-0`.
    NegativeZero,
    /// An integer of more than one character starts with `0`.
    LeadingZero,
    /// An integer is not a signed decimal number, or does not fit in 64 bits.
    InvalidInteger,
    /// The input ends inside a list.
    IncompleteList,
    /// The input ends inside a dictionary.
    IncompleteDict,
    /// A dictionary key is not a byte string.
    KeyNotString,
    /// Lists and dictionaries are nested deeper than the decoder follows.
    TooDeep,
}

impl Failure {
    /// The family of errors this reason is reported in.
    pub open spec fn kind(self) -> ErrorKind {
        match self {
            Failure::Unhandled => ErrorKind::Other,
            Failure::TooDeep => ErrorKind::TooDeep,
            _ => ErrorKind::Parse,
        }
    }

    /// The text this reason is reported with.
    pub open spec fn message(self) -> Seq<char> {
        match self {
            Failure::Unhandled => "Unhandled encoded value"@,
            Failure::MissingColon => "Invalid encoding format for string, colon separator not found"@,
            Failure::InvalidLength => "Invalid encoding format for string, invalid encoded length"@,
            Failure::TruncatedString => "Invalid encoding format for string, length exceeds the remaining input"@,
            Failure::MissingEnd => "Invalid encoding format for number, `e` delimiter not found"@,
            Failure::EmptyInteger => "Invalid encoding format for number, trying to parse `ie`"@,
            Failure::NegativeZero => "Invalid encoding format for number, negative zero"@,
            Failure::LeadingZero => "Invalid encoding format for number, leading zero"@,
            Failure::InvalidInteger => "Invalid encoding format for number, invalid encoded number"@,
            Failure::IncompleteList => "Invalid encoding format, incomplete list encoding"@,
            Failure::IncompleteDict => "Invalid encoding format, incomplete dict encoding"@,
            Failure::KeyNotString => "Invalid encoding, dict's key must be string"@,
            Failure::TooDeep => "Invalid encoding, nesting exceeds the depth limit"@,
        }
    }

    /// Whether `e` is the error that reports this reason.
    pub open spec fn describes(self, e: BencodeError) -> bool {
        e.kind() == self.kind() && e.message() == self.message()
    }

    /// The error that reports this reason.
    pub fn error(self) -> (e: BencodeError)
        ensures
            self.describes(e),
    {
        match self {
            Failure::Unhandled => BencodeError::other_error("Unhandled encoded value"),
            Failure::MissingColon => BencodeError::parse_error(
                "Invalid encoding format for string, colon separator not found",
            ),
            Failure::InvalidLength => BencodeError::parse_error(
                "Invalid encoding format for string, invalid encoded length",
            ),
            Failure::TruncatedString => BencodeError::parse_error(
                "Invalid encoding format for string, length exceeds the remaining input",
            ),
            Failure::MissingEnd => BencodeError::parse_error(
                "Invalid encoding format for number, `e` delimiter not found",
            ),
            Failure::EmptyInteger => BencodeError::parse_error(
                "Invalid encoding format for number, trying to parse `ie`",
            ),
            Failure::NegativeZero => BencodeError::parse_error(
                "Invalid encoding format for number, negative zero",
            ),
            Failure::LeadingZero => BencodeError::parse_error(
                "Invalid encoding format for number, leading zero",
            ),
            Failure::InvalidInteger => BencodeError::parse_error(
                "Invalid encoding format for number, invalid encoded number",
            ),
            Failure::IncompleteList => BencodeError::parse_error(
                "Invalid encoding format, incomplete list encoding",
            ),
            Failure::IncompleteDict => BencodeError::parse_error(
                "Invalid encoding format, incomplete dict encoding",
            ),
            Failure::KeyNotString => BencodeError::parse_error(
                "Invalid encoding, dict's key must be string",
            ),
            Failure::TooDeep => BencodeError::TooDeep(
                String::from_str("Invalid encoding, nesting exceeds the depth limit"),
            ),
        }
    }
}

} // verus!
