//! The parser of command lines: commands with arguments and a redirection,
//! joined by pipes.

use vstd::prelude::*;
use crate::shell::ast::{
    ast_view, AstNode, Command, Redirect, SpecAst, SpecCommand, SpecRedirect, SpecWordPart, Word, WordPart,
};
use crate::shell::error::ParseError;
use crate::shell::token::{SpecToken, Token};

verus! {

pub open spec fn is_word_tok(t: SpecToken) -> bool {
    t is Literal || t is VarExpand || t is LastStatus
}

pub open spec fn is_redirect_tok(t: SpecToken) -> bool {
    t is RedirectOut || t is RedirectAppend || t is RedirectIn || t is RedirectErr
        || t is RedirectErrAppend
}

/// The part of a word a word token stands for.
pub open spec fn part_of(t: SpecToken) -> SpecWordPart {
    match t {
        SpecToken::Literal(s) => SpecWordPart::Literal(s),
        SpecToken::VarExpand(s) => SpecWordPart::Var(s),
        _ => SpecWordPart::LastStatus,
    }
}

/// Where the run of word tokens starting at `pos` ends.
pub open spec fn word_end(toks: Seq<SpecToken>, pos: int) -> int
    decreases toks.len() - pos,
{
    if 0 <= pos < toks.len() && is_word_tok(toks[pos]) {
        word_end(toks, pos + 1)
    } else {
        pos
    }
}

/// The word made of the tokens `[pos, end)`.
pub open spec fn word_parts(toks: Seq<SpecToken>, pos: int, end: int) -> Seq<SpecWordPart> {
    Seq::new((end - pos) as nat, |i: int| part_of(toks[pos + i]))
}

/// A word at `pos` and the position after it.
pub open spec fn p_word(toks: Seq<SpecToken>, pos: int) -> Result<(Seq<SpecWordPart>, int), ParseError> {
    let e = word_end(toks, pos);
    if e == pos {
        Err(ParseError::ExpectedWord)
    } else {
        Ok((word_parts(toks, pos, e), e))
    }
}

pub open spec fn redirect_of(t: SpecToken, w: Seq<SpecWordPart>) -> SpecRedirect {
    match t {
        SpecToken::RedirectOut => SpecRedirect::Output(w),
        SpecToken::RedirectAppend => SpecRedirect::Append(w),
        SpecToken::RedirectIn => SpecRedirect::Input(w),
        SpecToken::RedirectErr => SpecRedirect::ErrorOutput(w),
        SpecToken::RedirectErrAppend => SpecRedirect::ErrorAppend(w),
        _ => SpecRedirect::Absent,
    }
}

/// A redirection operator and its target at `pos`, or none.
pub open spec fn p_redirect(toks: Seq<SpecToken>, pos: int) -> Result<(SpecRedirect, int), ParseError> {
    if 0 <= pos < toks.len() && is_redirect_tok(toks[pos]) {
        match p_word(toks, pos + 1) {
            Ok((w, e)) => Ok((redirect_of(toks[pos], w), e)),
            Err(e) => Err(e),
        }
    } else {
        Ok((SpecRedirect::Absent, pos))
    }
}

/// The arguments and redirection after a command's name, from `pos` on,
/// with `args` and `r` read so far: a separator may come before each
/// item; a pipe or the end finishes the command.
pub open spec fn p_args(
    toks: Seq<SpecToken>,
    pos: int,
    args: Seq<Seq<SpecWordPart>>,
    r: SpecRedirect,
) -> Result<(Seq<Seq<SpecWordPart>>, SpecRedirect, int), ParseError>
    decreases toks.len() - pos,
{
    let p1 = if 0 <= pos < toks.len() && toks[pos] is WordSep {
        pos + 1
    } else {
        pos
    };
    if !(0 <= p1 < toks.len()) {
        Ok((args, r, p1))
    } else if is_word_tok(toks[p1]) {
        let e = word_end(toks, p1);
        if p1 < e <= toks.len() {
            p_args(toks, e, args.push(word_parts(toks, p1, e)), r)
        } else {
            Err(ParseError::ExpectedWord)
        }
    } else if is_redirect_tok(toks[p1]) {
        match p_redirect(toks, p1) {
            Err(e) => Err(e),
            Ok((r2, e)) => if p1 < e <= toks.len() {
                p_args(toks, e, args, r2)
            } else {
                Err(ParseError::UnexpectedToken)
            },
        }
    } else if toks[p1] is Pipe {
        Ok((args, r, p1))
    } else {
        Err(ParseError::UnexpectedToken)
    }
}

/// A command at `pos` and the position after it.
pub open spec fn p_command(toks: Seq<SpecToken>, pos: int) -> Result<(SpecCommand, int), ParseError> {
    match p_word(toks, pos) {
        Err(e) => Err(e),
        Ok((name, e)) => match p_args(toks, e, Seq::empty(), SpecRedirect::Absent) {
            Err(x) => Err(x),
            Ok((args, r, p)) => Ok((SpecCommand { name, args, redirect: r }, p)),
        },
    }
}

/// A pipeline at `pos`: a command, then a pipe and a pipeline, or not.
pub open spec fn p_pipeline(toks: Seq<SpecToken>, pos: int) -> Result<(SpecAst, int), ParseError>
    decreases toks.len() - pos,
{
    match p_command(toks, pos) {
        Err(e) => Err(e),
        Ok((left, p1)) => if 0 <= p1 < toks.len() && toks[p1] is Pipe {
            if p1 + 1 >= toks.len() {
                Err(ParseError::PipeMissingRhs)
            } else if p1 >= pos {
                match p_pipeline(toks, p1 + 1) {
                    Ok((right, p2)) => Ok(
                        (SpecAst::Pipeline(Box::new(SpecAst::Command(left)), Box::new(right)), p2),
                    ),
                    Err(e) => Err(e),
                }
            } else {
                Err(ParseError::UnexpectedToken)
            }
        } else {
            Ok((SpecAst::Command(left), p1))
        },
    }
}

/// A run of word tokens ends inside the tokens, not before it starts.
pub proof fn lemma_word_end_bounds(toks: Seq<SpecToken>, pos: int)
    requires
        0 <= pos <= toks.len(),
    ensures
        pos <= word_end(toks, pos) <= toks.len(),
        forall|i: int| pos <= i < word_end(toks, pos) ==> is_word_tok(#[trigger] toks[i]),
        word_end(toks, pos) < toks.len() ==> !is_word_tok(toks[word_end(toks, pos)]),
    decreases toks.len() - pos,
{
    if pos < toks.len() && is_word_tok(toks[pos]) {
        lemma_word_end_bounds(toks, pos + 1);
    }
}

/// A parser over a list of tokens.
pub struct Parser {
    tokens: Vec<Token>,
    pos: usize,
}

pub open spec fn tokens_view(v: Seq<Token>) -> Seq<SpecToken> {
    v.map_values(|t: Token| t@)
}

impl Parser {
    pub closed spec fn toks(&self) -> Seq<SpecToken> {
        tokens_view(self.tokens@)
    }

    pub closed spec fn at(&self) -> int {
        self.pos as int
    }

    /// A parser at the start of `tokens`.
    pub fn new(tokens: Vec<Token>) -> (res: Self)
        ensures
            res.toks() == tokens_view(tokens@),
            res.at() == 0,
    {
        Self { tokens, pos: 0 }
    }

    fn peek(&self) -> (res: Option<&Token>)
        requires
            self.pos <= self.tokens@.len(),
        ensures
            self.pos < self.tokens@.len() ==> res == Some(&self.tokens@[self.pos as int]),
            self.pos >= self.tokens@.len() ==> res is None,
    {
        if self.pos < self.tokens.len() {
            Some(&self.tokens[self.pos])
        } else {
            None
        }
    }

    fn next(&mut self) -> (res: Option<Token>)
        requires
            old(self).pos < old(self).tokens@.len(),
        ensures
            final(self).tokens@ == old(self).tokens@,
            final(self).pos == old(self).pos + 1,
            res is Some && res->Some_0@ == old(self).tokens@[old(self).pos as int]@,
    {
        let n = self.tokens.len();
        let tok = self.tokens[self.pos].duplicate();
        assert(self.pos < n);
        self.pos += 1;
        Some(tok)
    }

    fn is_word_token(tok: &Token) -> (res: bool)
        ensures
            res == is_word_tok(tok@),
    {
        match tok {
            Token::Literal(_) | Token::VarExpand(_) | Token::LastStatus => true,
            _ => false,
        }
    }

    fn parse_word(&mut self) -> (res: Result<Word, ParseError>)
        requires
            old(self).pos <= old(self).tokens@.len(),
        ensures
            final(self).tokens@ == old(self).tokens@,
            old(self).pos <= final(self).pos <= final(self).tokens@.len(),
            match (res, p_word(old(self).toks(), old(self).pos as int)) {
                (Ok(w), Ok((sw, e))) => w@ == sw && final(self).pos == e,
                (Err(x), Err(y)) => x == y,
                _ => false,
            },
    {
        let ghost toks = self.toks();
        let ghost toks0 = self.tokens@;
        let ghost start = self.pos as int;
        proof {
            lemma_word_end_bounds(toks, start);
        }
        let mut parts: Vec<WordPart> = Vec::new();
        while self.pos < self.tokens.len() && Self::is_word_token(&self.tokens[self.pos])
            invariant
                self.tokens@ == toks0,
                toks == tokens_view(self.tokens@),
                start <= self.pos <= self.tokens@.len(),
                self.pos <= word_end(toks, start),
                word_end(toks, start) == word_end(toks, self.pos as int),
                parts@.map_values(|p: WordPart| p@) == word_parts(toks, start, self.pos as int),
            decreases self.tokens@.len() - self.pos,
        {
            let ghost before = parts@;
            proof {
                lemma_word_end_bounds(toks, self.pos + 1);
            }
            let part = match &self.tokens[self.pos] {
                Token::Literal(s) => WordPart::Literal(s.clone()),
                Token::VarExpand(v) => WordPart::Var(v.clone()),
                _ => WordPart::LastStatus,
            };
            let ghost pv = part@;
            assert(pv == part_of(toks[self.pos as int]));
            parts.push(part);
            proof {
                assert(parts@ == before.push(parts@.last()));
                assert(parts@.last()@ == pv);
                assert(before.push(parts@.last()).map_values(|p: WordPart| p@) =~= before.map_values(
                    |p: WordPart| p@,
                ).push(pv));
                assert(word_parts(toks, start, self.pos + 1) =~= word_parts(
                    toks,
                    start,
                    self.pos as int,
                ).push(part_of(toks[self.pos as int])));
            }
            self.next();
        }
        if parts.len() == 0 {
            Err(ParseError::ExpectedWord)
        } else {
            Ok(Word { parts })
        }
    }

    fn parse_redirect(&mut self) -> (res: Result<Redirect, ParseError>)
        requires
            old(self).pos <= old(self).tokens@.len(),
        ensures
            final(self).tokens@ == old(self).tokens@,
            old(self).pos <= final(self).pos <= final(self).tokens@.len(),
            match (res, p_redirect(old(self).toks(), old(self).pos as int)) {
                (Ok(r), Ok((sr, e))) => r@ == sr && final(self).pos == e,
                (Err(x), Err(y)) => x == y,
                _ => false,
            },
    {
        let ghost toks = self.toks();
        match self.peek() {
            Some(Token::RedirectOut) => {
                self.next();
                match self.parse_word() {
                    Ok(w) => Ok(Redirect::Output(w)),
                    Err(e) => Err(e),
                }
            },
            Some(Token::RedirectAppend) => {
                self.next();
                match self.parse_word() {
                    Ok(w) => Ok(Redirect::Append(w)),
                    Err(e) => Err(e),
                }
            },
            Some(Token::RedirectIn) => {
                self.next();
                match self.parse_word() {
                    Ok(w) => Ok(Redirect::Input(w)),
                    Err(e) => Err(e),
                }
            },
            Some(Token::RedirectErr) => {
                self.next();
                match self.parse_word() {
                    Ok(w) => Ok(Redirect::ErrorOutput(w)),
                    Err(e) => Err(e),
                }
            },
            Some(Token::RedirectErrAppend) => {
                self.next();
                match self.parse_word() {
                    Ok(w) => Ok(Redirect::ErrorAppend(w)),
                    Err(e) => Err(e),
                }
            },
            _ => Ok(Redirect::Absent),
        }
    }

    /// Reads one item after a command's name: an optional separator, then
    /// an argument, a redirection, or the end of the command.
    fn parse_item(&mut self, args: &mut Vec<Word>, redirect: &mut Redirect) -> (res: Result<
        bool,
        ParseError,
    >)
        requires
            old(self).pos <= old(self).tokens@.len(),
        ensures
            final(self).tokens@ == old(self).tokens@,
            old(self).pos <= final(self).pos <= final(self).tokens@.len(),
            match res {
                Ok(true) => p_args(
                    old(self).toks(),
                    old(self).pos as int,
                    old(args)@.map_values(|w: Word| w@),
                    old(redirect)@,
                ) == Ok::<(Seq<Seq<SpecWordPart>>, SpecRedirect, int), ParseError>(
                    (
                        final(args)@.map_values(|w: Word| w@),
                        final(redirect)@,
                        final(self).pos as int,
                    ),
                ),
                Ok(false) => final(self).pos > old(self).pos && p_args(
                    old(self).toks(),
                    old(self).pos as int,
                    old(args)@.map_values(|w: Word| w@),
                    old(redirect)@,
                ) == p_args(
                    old(self).toks(),
                    final(self).pos as int,
                    final(args)@.map_values(|w: Word| w@),
                    final(redirect)@,
                ),
                Err(e) => p_args(
                    old(self).toks(),
                    old(self).pos as int,
                    old(args)@.map_values(|w: Word| w@),
                    old(redirect)@,
                ) == Err::<(Seq<Seq<SpecWordPart>>, SpecRedirect, int), ParseError>(e),
            },
    {
        let ghost toks = self.toks();
        let ghost p0 = self.pos as int;
        if let Some(Token::WordSep) = self.peek() {
            self.next();
        }
        let ghost p1 = self.pos as int;
        proof {
            if p1 < toks.len() {
                lemma_word_end_bounds(toks, p1);
                lemma_word_end_bounds(toks, p1 + 1);
            }
        }
        let is_word = match self.peek() {
            Some(tok) => Self::is_word_token(tok),
            None => false,
        };
        if is_word {
            let ghost before = args@;
            match self.parse_word() {
                Ok(w) => {
                    args.push(w);
                    proof {
                        assert(args@.map_values(|w: Word| w@) =~= before.map_values(|w: Word| w@).push(
                            args@.last()@,
                        ));
                    }
                    Ok(false)
                },
                Err(e) => Err(e),
            }
        } else {
            match self.peek() {
                Some(Token::RedirectOut) | Some(Token::RedirectAppend) | Some(Token::RedirectIn)
                | Some(Token::RedirectErr) | Some(Token::RedirectErrAppend) => {
                    proof {
                        lemma_word_end_bounds(toks, p1 + 1);
                    }
                    match self.parse_redirect() {
                        Ok(r) => {
                            *redirect = r;
                            Ok(false)
                        },
                        Err(e) => Err(e),
                    }
                },
                Some(Token::Pipe) | None => Ok(true),
                _ => Err(ParseError::UnexpectedToken),
            }
        }
    }

    fn parse_command(&mut self) -> (res: Result<Command, ParseError>)
        requires
            old(self).pos <= old(self).tokens@.len(),
        ensures
            final(self).tokens@ == old(self).tokens@,
            final(self).pos <= final(self).tokens@.len(),
            match (res, p_command(old(self).toks(), old(self).pos as int)) {
                (Ok(c), Ok((sc, e))) => c@ == sc && final(self).pos == e && e > old(self).pos,
                (Err(x), Err(y)) => x == y,
                _ => false,
            },
    {
        let ghost toks = self.toks();
        let ghost toks0 = self.tokens@;
        let name = match self.parse_word() {
            Ok(w) => w,
            Err(e) => {
                return Err(e);
            },
        };
        let ghost e0 = self.pos as int;
        let mut args: Vec<Word> = Vec::new();
        let mut redirect = Redirect::Absent;
        let mut done = false;
        proof {
            assert(args@.map_values(|w: Word| w@) =~= Seq::<Seq<SpecWordPart>>::empty());
        }
        while !done
            invariant
                self.tokens@ == toks0,
                toks0 == old(self).tokens@,
                toks == old(self).toks(),
                p_word(toks, old(self).pos as int) == Ok::<(Seq<SpecWordPart>, int), ParseError>(
                    (name@, e0),
                ),
                e0 > old(self).pos,
                toks == tokens_view(self.tokens@),
                e0 <= self.pos <= self.tokens@.len(),
                !done ==> p_args(toks, e0, Seq::empty(), SpecRedirect::Absent) == p_args(
                    toks,
                    self.pos as int,
                    args@.map_values(|w: Word| w@),
                    redirect@,
                ),
                done ==> p_args(toks, e0, Seq::empty(), SpecRedirect::Absent) == Ok::<
                    (Seq<Seq<SpecWordPart>>, SpecRedirect, int),
                    ParseError,
                >((args@.map_values(|w: Word| w@), redirect@, self.pos as int)),
            decreases self.tokens@.len() - self.pos + (if done {
                0int
            } else {
                1int
            }),
        {
            let step = self.parse_item(&mut args, &mut redirect);
            match step {
                Ok(finished) => {
                    done = finished;
                },
                Err(e) => {
                    assert(self.tokens@ == toks0);
                    return Err(e);
                },
            }
        }
        Ok(Command { name, args, redirect })
    }

    /// Parses a pipeline from the current position: a command, and after a
    /// pipe, the pipeline it feeds.
    pub fn parse_pipeline(&mut self) -> (res: Result<AstNode, ParseError>)
        requires
            old(self).at() <= old(self).toks().len(),
        ensures
            final(self).toks() == old(self).toks(),
            final(self).at() <= final(self).toks().len(),
            match (res, p_pipeline(old(self).toks(), old(self).at())) {
                (Ok(a), Ok((sa, e))) => a@ == sa && final(self).at() == e,
                (Err(x), Err(y)) => x == y,
                _ => false,
            },
        decreases old(self).toks().len() - old(self).at(),
    {
        let ghost toks = self.toks();
        let ghost start = self.pos as int;
        let left = match self.parse_command() {
            Ok(c) => c,
            Err(e) => {
                return Err(e);
            },
        };
        if let Some(Token::Pipe) = self.peek() {
            self.next();
            if self.peek().is_none() {
                return Err(ParseError::PipeMissingRhs);
            }
            let right = match self.parse_pipeline() {
                Ok(r) => r,
                Err(e) => {
                    return Err(e);
                },
            };
            let res = AstNode::Pipeline(Box::new(AstNode::Command(left)), Box::new(right));
            proof {
                assert(ast_view(AstNode::Command(left)) == SpecAst::Command(left@));
            }
            return Ok(res);
        }
        let res = AstNode::Command(left);
        assert(res@ == SpecAst::Command(left@));
        Ok(res)
    }
}

} // verus!
