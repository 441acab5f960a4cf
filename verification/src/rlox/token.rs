//! Token kinds, literal values and tokens.

use vstd::prelude::*;

verus! {

/// The kinds of Lox tokens.
#[derive(Debug, Clone, Copy, PartialEq, Eq, Structural)]
pub enum TokenType {
    // Single-character tokens
    LeftParen,
    RightParen,
    LeftBrace,
    RightBrace,
    Comma,
    Dot,
    Minus,
    Plus,
    Semicolon,
    Slash,
    Star,
    // One or two character tokens
    Bang,
    BangEqual,
    Equal,
    EqualEqual,
    Greater,
    GreaterEqual,
    Less,
    LessEqual,
    // Literals
    Identifier,
    String,
    Number,
    // Keywords
    Var,
    True,
    False,
    And,
    Or,
    If,
    Else,
    While,
    For,
    Class,
    Super,
    This,
    Fun,
    Return,
    Nil,
    Print,
    Eof,
}

/// A literal value carried by a token.
///
/// A number keeps the digits it was written with (`12`, `3.5`); the
/// conversion to a floating-point value is left to the caller.
#[derive(Debug, Clone, PartialEq)]
pub enum Literal {
    String(String),
    Number(String),
    Bool(bool),
    Nil,
}

/// The mathematical value of a literal.
pub enum SpecLiteral {
    Str(Seq<char>),
    Number(Seq<char>),
    Bool(bool),
    Nil,
}

impl View for Literal {
    type V = SpecLiteral;

    open spec fn view(&self) -> SpecLiteral {
        match self {
            Literal::String(s) => SpecLiteral::Str(s@),
            Literal::Number(s) => SpecLiteral::Number(s@),
            Literal::Bool(b) => SpecLiteral::Bool(*b),
            Literal::Nil => SpecLiteral::Nil,
        }
    }
}

impl Literal {
    /// A copy of this literal with the same value.
    pub fn duplicate(&self) -> (res: Literal)
        ensures
            res@ == self@,
    {
        match self {
            Literal::String(s) => Literal::String(s.clone()),
            Literal::Number(s) => Literal::Number(s.clone()),
            Literal::Bool(b) => Literal::Bool(*b),
            Literal::Nil => Literal::Nil,
        }
    }
}

/// A scanned token: its kind, the source text it covers, its literal value
/// (strings and numbers only) and the line it ends on.
#[derive(Debug, Clone, PartialEq)]
pub struct Token {
    pub ty: TokenType,
    pub lexeme: String,
    pub literal: Option<Literal>,
    pub line: usize,
}

/// The mathematical value of a token.
pub struct SpecToken {
    pub ty: TokenType,
    pub lexeme: Seq<char>,
    pub literal: Option<SpecLiteral>,
    pub line: nat,
}

pub open spec fn literal_opt_view(l: Option<Literal>) -> Option<SpecLiteral> {
    match l {
        Some(v) => Some(v@),
        None => None,
    }
}

impl View for Token {
    type V = SpecToken;

    open spec fn view(&self) -> SpecToken {
        SpecToken {
            ty: self.ty,
            lexeme: self.lexeme@,
            literal: literal_opt_view(self.literal),
            line: self.line as nat,
        }
    }
}

/// The values of a sequence of tokens.
pub open spec fn tokens_view(ts: Seq<Token>) -> Seq<SpecToken> {
    ts.map_values(|t: Token| t@)
}

impl Token {
    /// A copy of this token with the same value.
    pub fn duplicate(&self) -> (res: Token)
        ensures
            res@ == self@,
    {
        let literal = match &self.literal {
            Some(l) => Some(l.duplicate()),
            None => None,
        };
        Token { ty: self.ty, lexeme: self.lexeme.clone(), literal, line: self.line }
    }
}

} // verus!
