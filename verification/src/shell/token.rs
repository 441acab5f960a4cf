//! The tokens of a command line.

use vstd::prelude::*;

verus! {

/// One token: a piece of a word, a separator between words, a pipe or a
/// redirection operator.
#[derive(Debug)]
pub enum Token {
    Literal(String),
    VarExpand(String),
    LastStatus,
    WordSep,
    Pipe,
    RedirectOut,
    RedirectAppend,
    RedirectIn,
    RedirectErr,
    RedirectErrAppend,
}

pub enum SpecToken {
    Literal(Seq<char>),
    VarExpand(Seq<char>),
    LastStatus,
    WordSep,
    Pipe,
    RedirectOut,
    RedirectAppend,
    RedirectIn,
    RedirectErr,
    RedirectErrAppend,
}

impl View for Token {
    type V = SpecToken;

    open spec fn view(&self) -> SpecToken {
        match self {
            Token::Literal(s) => SpecToken::Literal(s@),
            Token::VarExpand(s) => SpecToken::VarExpand(s@),
            Token::LastStatus => SpecToken::LastStatus,
            Token::WordSep => SpecToken::WordSep,
            Token::Pipe => SpecToken::Pipe,
            Token::RedirectOut => SpecToken::RedirectOut,
            Token::RedirectAppend => SpecToken::RedirectAppend,
            Token::RedirectIn => SpecToken::RedirectIn,
            Token::RedirectErr => SpecToken::RedirectErr,
            Token::RedirectErrAppend => SpecToken::RedirectErrAppend,
        }
    }
}

impl Token {
    /// A copy of this token.
    pub fn duplicate(&self) -> (res: Token)
        ensures
            res@ == self@,
    {
        match self {
            Token::Literal(s) => Token::Literal(s.clone()),
            Token::VarExpand(s) => Token::VarExpand(s.clone()),
            Token::LastStatus => Token::LastStatus,
            Token::WordSep => Token::WordSep,
            Token::Pipe => Token::Pipe,
            Token::RedirectOut => Token::RedirectOut,
            Token::RedirectAppend => Token::RedirectAppend,
            Token::RedirectIn => Token::RedirectIn,
            Token::RedirectErr => Token::RedirectErr,
            Token::RedirectErrAppend => Token::RedirectErrAppend,
        }
    }
}

} // verus!
