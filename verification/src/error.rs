use vstd::prelude::*;

verus! {

/// The reason a nuan5json document could not be read or written.
#[derive(Debug, Clone, PartialEq, Eq)]
pub enum ErrorCode {
    ExpectedSomeValue,
    ExpectedSomeIdent,
    InvalidNumber,
    NumberOutOfRange,
    InvalidUnicodeCodePoint,
    ExpectedDoubleQuote,
    EofWhileParsingString,
    ControlCharacterWhileParsingString,
    InvalidEscape,
    LoneLeadingSurrogateInHexEscape,
    UnexpectedEndOfHexEscape,
    KeyMustBeAString,
    FloatKeyMustBeFinite,
    IdMapKeyMustBeAnInteger,
    ExpectedNumericKey,
    EofWhileParsingObject,
    ExpectedColon,
    ExpectedColonAtStart,
    ExpectedObjectCommaOrEnd,
    TrailingComma,
    EofWhileParsingIdMap,
    EofWhileParsingArray,
    ExpectedArrayCommaOrEnd,
    EofWhileParsingValue,
    TrailingCharacters,
    RecursionLimitExceeded,
    Message(String),
}

/// An error together with the line and column at which it was found.
#[derive(Debug, Clone, PartialEq, Eq)]
pub struct Error {
    pub column: usize,
    pub line: usize,
    pub code: ErrorCode,
}

impl Error {
    /// An error that is not tied to a place in the input.
    pub fn code(code: ErrorCode) -> (res: Error)
        ensures
            res == (Error { column: 0, line: 0, code: code }),
    {
        Error { column: 0, line: 0, code }
    }

    /// An error found at `line` and `column` of the input.
    pub fn syntax(code: ErrorCode, line: usize, column: usize) -> (res: Error)
        ensures
            res == (Error { column: column, line: line, code: code }),
    {
        Error { column, line, code }
    }
}

} // verus!
