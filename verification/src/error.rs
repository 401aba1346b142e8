//! What can go wrong with a request, and how each error is reported.

use vstd::prelude::*;

verus! {

/// Why a request could not be decoded.
#[derive(Debug, Clone, Copy, PartialEq, Eq, Structural)]
pub enum FramingError {
    /// A header or length line does not end with the line terminator.
    MissingTerminator,
    /// A header or length line is empty.
    MissingOperator,
    /// A header or length line holds its operator and nothing more.
    MissingCount,
    /// What follows the operator is not a decimal numeral of an `i64`.
    InvalidCount,
    /// A payload line does not end with the line terminator.
    MissingLineTerminator,
    /// A payload is not as long as the line before it declares.
    LengthMismatch,
    /// A payload is not UTF-8 text.
    InvalidText,
}

impl FramingError {
    /// The text that reports this error.
    pub open spec fn message(self) -> Seq<char> {
        match self {
            FramingError::MissingTerminator => "Header did not terminate with \\r\\n"@,
            FramingError::MissingOperator => "Could not find operator"@,
            FramingError::MissingCount => "Could not find operator count"@,
            FramingError::InvalidCount => "Operator count is not a decimal integer"@,
            FramingError::MissingLineTerminator => "Line did not end with line feed terminator"@,
            FramingError::LengthMismatch => "Line length differs from the declared length"@,
            FramingError::InvalidText => "Line is not valid UTF-8"@,
        }
    }

    /// Writes the text that reports this error.
    pub fn to_string(&self) -> (text: String)
        ensures
            text@ == self.message(),
    {
        match self {
            FramingError::MissingTerminator => "Header did not terminate with \\r\\n".to_owned(),
            FramingError::MissingOperator => "Could not find operator".to_owned(),
            FramingError::MissingCount => "Could not find operator count".to_owned(),
            FramingError::InvalidCount => "Operator count is not a decimal integer".to_owned(),
            FramingError::MissingLineTerminator => {
                "Line did not end with line feed terminator".to_owned()
            },
            FramingError::LengthMismatch => {
                "Line length differs from the declared length".to_owned()
            },
            FramingError::InvalidText => "Line is not valid UTF-8".to_owned(),
        }
    }
}

/// Why tokens are not a command.
#[derive(Debug, Clone, Copy, PartialEq, Eq, Structural)]
pub enum ParseError {
    /// There is no token at all.
    NoCommand,
    /// The command needs a key, and there is none.
    MissingKey,
    /// The command needs a value, and there is none.
    MissingValue,
    /// The first token names no command.
    UnknownCommand,
}

impl ParseError {
    /// The text that reports this error.
    pub open spec fn message(self) -> Seq<char> {
        match self {
            ParseError::NoCommand => "No command found"@,
            ParseError::MissingKey => "Syntax error: key is missing"@,
            ParseError::MissingValue => "Syntax error: value is missing"@,
            ParseError::UnknownCommand => "Unknown command"@,
        }
    }

    /// Writes the text that reports this error.
    pub fn to_string(&self) -> (text: String)
        ensures
            text@ == self.message(),
    {
        match self {
            ParseError::NoCommand => "No command found".to_owned(),
            ParseError::MissingKey => "Syntax error: key is missing".to_owned(),
            ParseError::MissingValue => "Syntax error: value is missing".to_owned(),
            ParseError::UnknownCommand => "Unknown command".to_owned(),
        }
    }
}

/// Why a command could not be carried out.
#[derive(Debug, Clone, Copy, PartialEq, Eq, Structural)]
pub enum DispatchError {
    /// A list command names a key whose value is not a list.
    WrongType,
    /// The store could not be had for this request.
    LockUnavailable,
}

impl DispatchError {
    /// The text that reports this error.
    pub open spec fn message(self) -> Seq<char> {
        match self {
            DispatchError::WrongType => "Value stored is not a list"@,
            DispatchError::LockUnavailable => "Could not acquire global dictionary"@,
        }
    }

    /// Writes the text that reports this error.
    pub fn to_string(&self) -> (text: String)
        ensures
            text@ == self.message(),
    {
        match self {
            DispatchError::WrongType => "Value stored is not a list".to_owned(),
            DispatchError::LockUnavailable => "Could not acquire global dictionary".to_owned(),
        }
    }
}

/// Any error of a request.
#[derive(Debug, Clone, Copy, PartialEq, Eq, Structural)]
pub enum Error {
    /// The request could not be decoded.
    Framing(FramingError),
    /// Its tokens are not a command.
    Parse(ParseError),
    /// The command could not be carried out.
    Dispatch(DispatchError),
}

impl Error {
    /// The text that reports this error.
    pub open spec fn message(self) -> Seq<char> {
        match self {
            Error::Framing(e) => e.message(),
            Error::Parse(e) => e.message(),
            Error::Dispatch(e) => e.message(),
        }
    }

    /// Writes the text that reports this error.
    pub fn to_string(&self) -> (text: String)
        ensures
            text@ == self.message(),
    {
        match self {
            Error::Framing(e) => e.to_string(),
            Error::Parse(e) => e.to_string(),
            Error::Dispatch(e) => e.to_string(),
        }
    }
}

} // verus!
