//! Errors of the Lox scanner and parser.

use vstd::prelude::*;
use crate::rlox::token::{SpecToken, Token, TokenType};

verus! {

/// A character the scanner cannot start a token with, or a string literal
/// that is never closed.
#[derive(Debug, Clone, Copy, PartialEq, Eq, Structural)]
pub enum ScanError {
    UnexpectedCharacter { line: usize, ch: char },
    UnterminatedString { line: usize },
}

/// A token the parser did not expect.
#[derive(Debug, Clone)]
pub enum ParseError {
    UnexpectedToken { token: Token },
    ExpectedToken { expected: TokenType, message: String },
}

/// The mathematical value of a parse error.
pub enum SpecParseError {
    UnexpectedToken(SpecToken),
    ExpectedToken(TokenType, Seq<char>),
}

impl View for ParseError {
    type V = SpecParseError;

    open spec fn view(&self) -> SpecParseError {
        match self {
            ParseError::UnexpectedToken { token } => SpecParseError::UnexpectedToken(token@),
            ParseError::ExpectedToken { expected, message } => SpecParseError::ExpectedToken(
                *expected,
                message@,
            ),
        }
    }
}

/// Any error of the Lox front end.
#[derive(Debug, Clone)]
pub enum RloxErr {
    Scan(ScanError),
    Parse(ParseError),
}

} // verus!
