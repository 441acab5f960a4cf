//! Errors of the command-line parser.

use vstd::prelude::*;

verus! {

/// Why a command line could not be parsed.
#[derive(Debug, Clone, Copy, PartialEq, Eq, Structural)]
pub enum ParseError {
    EmptyInput,
    WhitespaceOnly,
    TrailingEscape,
    UnterminatedSingleQuote,
    UnterminatedDoubleQuote,
    ExpectedWord,
    UnexpectedToken,
    PipeMissingRhs,
}

impl ParseError {
    /// The message shown for the error.
    pub fn message(&self) -> (res: &'static str)
        ensures
            res@ == parse_error_message(*self),
    {
        match self {
            ParseError::EmptyInput => "empty input",
            ParseError::WhitespaceOnly => "whitespace only input",
            ParseError::TrailingEscape => "trailing escape",
            ParseError::UnterminatedSingleQuote => "unclosed single quote",
            ParseError::UnterminatedDoubleQuote => "unclosed double quote",
            ParseError::ExpectedWord => "expect arguments",
            ParseError::UnexpectedToken => "unexpected input",
            ParseError::PipeMissingRhs => "pipe without rhs",
        }
    }
}

pub open spec fn parse_error_message(e: ParseError) -> Seq<char> {
    match e {
        ParseError::EmptyInput => "empty input"@,
        ParseError::WhitespaceOnly => "whitespace only input"@,
        ParseError::TrailingEscape => "trailing escape"@,
        ParseError::UnterminatedSingleQuote => "unclosed single quote"@,
        ParseError::UnterminatedDoubleQuote => "unclosed double quote"@,
        ParseError::ExpectedWord => "expect arguments"@,
        ParseError::UnexpectedToken => "unexpected input"@,
        ParseError::PipeMissingRhs => "pipe without rhs"@,
    }
}

} // verus!
