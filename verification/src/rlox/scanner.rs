//! The Lox scanner: source characters to tokens.

use vstd::prelude::*;
use crate::rlox::error::{RloxErr, ScanError};
use crate::rlox::token::{Literal, SpecLiteral, SpecToken, Token, TokenType, tokens_view};
use crate::text::{chars_of, is_alphanumeric, slice_eq, string_of, unicode_alphanumeric};

verus! {

// ------------------------------------------------------------------------
// What scanning means
// ------------------------------------------------------------------------

pub open spec fn is_digit(c: char) -> bool {
    '0' <= c && c <= '9'
}

pub open spec fn is_ident_start(c: char) -> bool {
    ('a' <= c && c <= 'z') || ('A' <= c && c <= 'Z') || c == '_'
}

pub open spec fn is_ident_char(c: char) -> bool {
    unicode_alphanumeric(c) || c == '_'
}

/// The end of the run of digits that starts at `i`.
pub open spec fn digits_end(src: Seq<char>, i: int) -> int
    decreases src.len() - i,
{
    if 0 <= i < src.len() && is_digit(src[i]) {
        digits_end(src, i + 1)
    } else {
        i
    }
}

/// The end of the run of identifier characters that starts at `i`.
pub open spec fn ident_end(src: Seq<char>, i: int) -> int
    decreases src.len() - i,
{
    if 0 <= i < src.len() && is_ident_char(src[i]) {
        ident_end(src, i + 1)
    } else {
        i
    }
}

/// The first line break at or after `i` (or the end of the source).
pub open spec fn comment_end(src: Seq<char>, i: int) -> int
    decreases src.len() - i,
{
    if 0 <= i < src.len() && src[i] != '\n' {
        comment_end(src, i + 1)
    } else {
        i
    }
}

/// The first double quote at or after `i` (or the end of the source).
pub open spec fn string_end(src: Seq<char>, i: int) -> int
    decreases src.len() - i,
{
    if 0 <= i < src.len() && src[i] != '"' {
        string_end(src, i + 1)
    } else {
        i
    }
}

/// The number of line breaks in `s`.
pub open spec fn count_newlines(s: Seq<char>) -> nat
    decreases s.len(),
{
    if s.len() == 0 {
        0
    } else {
        count_newlines(s.drop_last()) + if s.last() == '\n' {
            1nat
        } else {
            0nat
        }
    }
}

/// The token kind of the one-character tokens: each character stands for
/// the kind named after it.
pub open spec fn single_char_token(c: char) -> Option<TokenType> {
    if c == '(' {
        Some(TokenType::LeftParen)
    } else if c == ')' {
        Some(TokenType::RightParen)
    } else if c == '{' {
        Some(TokenType::LeftBrace)
    } else if c == '}' {
        Some(TokenType::RightBrace)
    } else if c == ',' {
        Some(TokenType::Comma)
    } else if c == '.' {
        Some(TokenType::Dot)
    } else if c == '-' {
        Some(TokenType::Minus)
    } else if c == '+' {
        Some(TokenType::Plus)
    } else if c == ';' {
        Some(TokenType::Semicolon)
    } else if c == '*' {
        Some(TokenType::Star)
    } else {
        None
    }
}

/// The keyword spelled by `s`, if any.
pub open spec fn keyword(s: Seq<char>) -> Option<TokenType> {
    if s == seq!['v', 'a', 'r'] {
        Some(TokenType::Var)
    } else if s == seq!['p', 'r', 'i', 'n', 't'] {
        Some(TokenType::Print)
    } else if s == seq!['i', 'f'] {
        Some(TokenType::If)
    } else if s == seq!['e', 'l', 's', 'e'] {
        Some(TokenType::Else)
    } else if s == seq!['w', 'h', 'i', 'l', 'e'] {
        Some(TokenType::While)
    } else if s == seq!['f', 'o', 'r'] {
        Some(TokenType::For)
    } else if s == seq!['f', 'u', 'n'] {
        Some(TokenType::Fun)
    } else if s == seq!['r', 'e', 't', 'u', 'r', 'n'] {
        Some(TokenType::Return)
    } else if s == seq!['t', 'r', 'u', 'e'] {
        Some(TokenType::True)
    } else if s == seq!['f', 'a', 'l', 's', 'e'] {
        Some(TokenType::False)
    } else if s == seq!['a', 'n', 'd'] {
        Some(TokenType::And)
    } else if s == seq!['o', 'r'] {
        Some(TokenType::Or)
    } else if s == seq!['c', 'l', 'a', 's', 's'] {
        Some(TokenType::Class)
    } else if s == seq!['s', 'u', 'p', 'e', 'r'] {
        Some(TokenType::Super)
    } else if s == seq!['t', 'h', 'i', 's'] {
        Some(TokenType::This)
    } else if s == seq!['n', 'i', 'l'] {
        Some(TokenType::Nil)
    } else {
        None
    }
}

/// The token covering `src[start..end]`.
pub open spec fn mk_token(
    src: Seq<char>,
    start: int,
    end: int,
    ty: TokenType,
    literal: Option<SpecLiteral>,
    line: int,
) -> SpecToken {
    SpecToken { ty, lexeme: src.subrange(start, end), literal, line: line as nat }
}

/// A one- or two-character operator such as `!` / `!=`.
pub open spec fn two_char(
    src: Seq<char>,
    pos: int,
    line: int,
    long: TokenType,
    short: TokenType,
) -> Result<(Option<SpecToken>, int, int), ScanError> {
    if pos + 1 < src.len() && src[pos + 1] == '=' {
        Ok((Some(mk_token(src, pos, pos + 2, long, None, line)), pos + 2, line))
    } else {
        Ok((Some(mk_token(src, pos, pos + 1, short, None, line)), pos + 1, line))
    }
}

/// The end of a number literal that starts at `pos`.
pub open spec fn number_end(src: Seq<char>, pos: int) -> int {
    let e = digits_end(src, pos + 1);
    if e + 1 < src.len() && src[e] == '.' && is_digit(src[e + 1]) {
        digits_end(src, e + 1)
    } else {
        e
    }
}

/// One scanning step at `pos` with the current line number: the token it
/// produces (if any), where the next step starts, and the new line number.
pub open spec fn scan_step(src: Seq<char>, pos: int, line: int) -> Result<
    (Option<SpecToken>, int, int),
    ScanError,
> {
    let c = src[pos];
    if single_char_token(c) is Some {
        Ok((Some(mk_token(src, pos, pos + 1, single_char_token(c)->0, None, line)), pos + 1, line))
    } else if c == '!' {
        two_char(src, pos, line, TokenType::BangEqual, TokenType::Bang)
    } else if c == '=' {
        two_char(src, pos, line, TokenType::EqualEqual, TokenType::Equal)
    } else if c == '<' {
        two_char(src, pos, line, TokenType::LessEqual, TokenType::Less)
    } else if c == '>' {
        two_char(src, pos, line, TokenType::GreaterEqual, TokenType::Greater)
    } else if c == '/' {
        if pos + 1 < src.len() && src[pos + 1] == '/' {
            Ok((None, comment_end(src, pos + 1), line))
        } else {
            Ok((Some(mk_token(src, pos, pos + 1, TokenType::Slash, None, line)), pos + 1, line))
        }
    } else if c == ' ' || c == '\r' || c == '\t' {
        Ok((None, pos + 1, line))
    } else if c == '\n' {
        Ok((None, pos + 1, line + 1))
    } else if c == '"' {
        let e = string_end(src, pos + 1);
        let l2 = line + count_newlines(src.subrange(pos + 1, e));
        if e >= src.len() {
            Err(ScanError::UnterminatedString { line: l2 as usize })
        } else {
            Ok(
                (
                    Some(
                        mk_token(
                            src,
                            pos,
                            e + 1,
                            TokenType::String,
                            Some(SpecLiteral::Str(src.subrange(pos + 1, e))),
                            l2,
                        ),
                    ),
                    e + 1,
                    l2,
                ),
            )
        }
    } else if is_digit(c) {
        let e = number_end(src, pos);
        Ok(
            (
                Some(
                    mk_token(
                        src,
                        pos,
                        e,
                        TokenType::Number,
                        Some(SpecLiteral::Number(src.subrange(pos, e))),
                        line,
                    ),
                ),
                e,
                line,
            ),
        )
    } else if is_ident_start(c) {
        let e = ident_end(src, pos + 1);
        let ty = match keyword(src.subrange(pos, e)) {
            Some(k) => k,
            None => TokenType::Identifier,
        };
        Ok((Some(mk_token(src, pos, e, ty, None, line)), e, line))
    } else {
        Err(ScanError::UnexpectedCharacter { line: line as usize, ch: c })
    }
}

pub open spec fn opt_cons(t: Option<SpecToken>, rest: Seq<SpecToken>) -> Seq<SpecToken> {
    match t {
        Some(tok) => seq![tok] + rest,
        None => rest,
    }
}

/// The tokens of `src[pos..]` when scanning starts there on line `line`,
/// or the first scanning error.
pub open spec fn scan_from(src: Seq<char>, pos: int, line: int) -> Result<Seq<SpecToken>, ScanError>
    decreases src.len() - pos,
{
    if pos < 0 || pos >= src.len() {
        Ok(seq![])
    } else {
        match scan_step(src, pos, line) {
            Err(e) => Err(e),
            Ok((t, next, l)) => if pos < next <= src.len() {
                match scan_from(src, next, l) {
                    Ok(rest) => Ok(opt_cons(t, rest)),
                    Err(e) => Err(e),
                }
            } else {
                Ok(seq![])
            },
        }
    }
}

/// The tokens of a whole source text, or the first scanning error.
pub open spec fn scan_source(src: Seq<char>) -> Result<Seq<SpecToken>, ScanError> {
    scan_from(src, 0, 1)
}

proof fn lemma_count_newlines_step(src: Seq<char>, a: int, i: int)
    requires
        0 <= a <= i < src.len(),
    ensures
        count_newlines(src.subrange(a, i + 1)) == count_newlines(src.subrange(a, i)) + if src[i]
            == '\n' {
            1nat
        } else {
            0nat
        },
{
    assert(src.subrange(a, i + 1).drop_last() =~= src.subrange(a, i));
}

proof fn lemma_count_newlines_le(s: Seq<char>)
    ensures
        count_newlines(s) <= s.len(),
    decreases s.len(),
{
    if s.len() > 0 {
        lemma_count_newlines_le(s.drop_last());
    }
}

// ------------------------------------------------------------------------
// The scanner
// ------------------------------------------------------------------------

/// Scans a source text into tokens.
pub struct Scanner {
    source: Vec<char>,
    tokens: Vec<Token>,
    start: usize,
    current: usize,
    line: usize,
}

fn match_token(c: char) -> (res: Option<TokenType>)
    ensures
        res == single_char_token(c),
{
    match c {
        '(' => Some(TokenType::LeftParen),
        ')' => Some(TokenType::RightParen),
        '{' => Some(TokenType::LeftBrace),
        '}' => Some(TokenType::RightBrace),
        ',' => Some(TokenType::Comma),
        '.' => Some(TokenType::Dot),
        '-' => Some(TokenType::Minus),
        '+' => Some(TokenType::Plus),
        ';' => Some(TokenType::Semicolon),
        '*' => Some(TokenType::Star),
        _ => None,
    }
}

fn match_keyword(v: &[char], lo: usize, hi: usize) -> (res: Option<TokenType>)
    requires
        lo <= hi <= v@.len(),
    ensures
        res == keyword(v@.subrange(lo as int, hi as int)),
{
    let ghost s = v@.subrange(lo as int, hi as int);
    let k_var = ['v', 'a', 'r'];
    let k_print = ['p', 'r', 'i', 'n', 't'];
    let k_if = ['i', 'f'];
    let k_else = ['e', 'l', 's', 'e'];
    let k_while = ['w', 'h', 'i', 'l', 'e'];
    let k_for = ['f', 'o', 'r'];
    let k_fun = ['f', 'u', 'n'];
    let k_return = ['r', 'e', 't', 'u', 'r', 'n'];
    let k_true = ['t', 'r', 'u', 'e'];
    let k_false = ['f', 'a', 'l', 's', 'e'];
    let k_and = ['a', 'n', 'd'];
    let k_or = ['o', 'r'];
    let k_class = ['c', 'l', 'a', 's', 's'];
    let k_super = ['s', 'u', 'p', 'e', 'r'];
    let k_this = ['t', 'h', 'i', 's'];
    let k_nil = ['n', 'i', 'l'];
    assert(k_var@ =~= seq!['v', 'a', 'r']);
    assert(k_print@ =~= seq!['p', 'r', 'i', 'n', 't']);
    assert(k_if@ =~= seq!['i', 'f']);
    assert(k_else@ =~= seq!['e', 'l', 's', 'e']);
    assert(k_while@ =~= seq!['w', 'h', 'i', 'l', 'e']);
    assert(k_for@ =~= seq!['f', 'o', 'r']);
    assert(k_fun@ =~= seq!['f', 'u', 'n']);
    assert(k_return@ =~= seq!['r', 'e', 't', 'u', 'r', 'n']);
    assert(k_true@ =~= seq!['t', 'r', 'u', 'e']);
    assert(k_false@ =~= seq!['f', 'a', 'l', 's', 'e']);
    assert(k_and@ =~= seq!['a', 'n', 'd']);
    assert(k_or@ =~= seq!['o', 'r']);
    assert(k_class@ =~= seq!['c', 'l', 'a', 's', 's']);
    assert(k_super@ =~= seq!['s', 'u', 'p', 'e', 'r']);
    assert(k_this@ =~= seq!['t', 'h', 'i', 's']);
    assert(k_nil@ =~= seq!['n', 'i', 'l']);
    if slice_eq(v, lo, hi, &k_var) {
        Some(TokenType::Var)
    } else if slice_eq(v, lo, hi, &k_print) {
        Some(TokenType::Print)
    } else if slice_eq(v, lo, hi, &k_if) {
        Some(TokenType::If)
    } else if slice_eq(v, lo, hi, &k_else) {
        Some(TokenType::Else)
    } else if slice_eq(v, lo, hi, &k_while) {
        Some(TokenType::While)
    } else if slice_eq(v, lo, hi, &k_for) {
        Some(TokenType::For)
    } else if slice_eq(v, lo, hi, &k_fun) {
        Some(TokenType::Fun)
    } else if slice_eq(v, lo, hi, &k_return) {
        Some(TokenType::Return)
    } else if slice_eq(v, lo, hi, &k_true) {
        Some(TokenType::True)
    } else if slice_eq(v, lo, hi, &k_false) {
        Some(TokenType::False)
    } else if slice_eq(v, lo, hi, &k_and) {
        Some(TokenType::And)
    } else if slice_eq(v, lo, hi, &k_or) {
        Some(TokenType::Or)
    } else if slice_eq(v, lo, hi, &k_class) {
        Some(TokenType::Class)
    } else if slice_eq(v, lo, hi, &k_super) {
        Some(TokenType::Super)
    } else if slice_eq(v, lo, hi, &k_this) {
        Some(TokenType::This)
    } else if slice_eq(v, lo, hi, &k_nil) {
        Some(TokenType::Nil)
    } else {
        None
    }
}

impl Scanner {
    /// The characters being scanned.
    pub closed spec fn source(&self) -> Seq<char> {
        self.source@
    }

    /// The scanner's position and line counter are consistent.
    pub closed spec fn wf(&self) -> bool {
        &&& self.current <= self.source@.len()
        &&& self.start <= self.current
        &&& 1 <= self.line <= self.current + 1
        &&& self.source@.len() < usize::MAX
    }

    /// The result of scanning what is left of the source.
    pub closed spec fn outcome(&self) -> Result<Seq<SpecToken>, ScanError> {
        match scan_from(self.source@, self.current as int, self.line as int) {
            Ok(rest) => Ok(tokens_view(self.tokens@) + rest),
            Err(e) => Err(e),
        }
    }

    /// A scanner at the start of `source`, on line 1.
    pub fn new(source: &str) -> (res: Scanner)
        requires
            source@.len() < usize::MAX,
        ensures
            res.wf(),
            res.source() == source@,
            res.outcome() == scan_source(source@),
    {
        let res = Scanner {
            source: chars_of(source),
            tokens: Vec::new(),
            start: 0,
            current: 0,
            line: 1,
        };
        assert(tokens_view(res.tokens@) =~= seq![]);
        proof {
            match scan_from(source@, 0, 1) {
                Ok(rest) => {
                    assert(seq![] + rest =~= rest);
                },
                Err(e) => {},
            }
        }
        res
    }

    /// Scans the whole source. On success the tokens are those of
    /// `scan_source`, in order; otherwise the first scanning error.
    pub fn scan_tokens(self) -> (res: Result<Vec<Token>, RloxErr>)
        requires
            self.wf(),
        ensures
            match self.outcome() {
                Ok(ts) => res matches Ok(v) && tokens_view(v@) == ts,
                Err(e) => res matches Err(RloxErr::Scan(e2)) && e2 == e,
            },
    {
        let ghost init = self.outcome();
        let mut this = self;
        while !this.is_at_end()
            invariant
                this.wf(),
                this.outcome() == init,
                init == self.outcome(),
            decreases this.source@.len() - this.current,
        {
            this.start = this.current;
            let ghost before = this;
            match this.scan_token() {
                Ok(()) => {},
                Err(e) => {
                    proof {
                        this.lemma_outcome_unfold(before);

                    }
                    return Err(e);
                },
            }
            proof {
                before.lemma_outcome_step(this);
            }
        }
        proof {
            assert(tokens_view(this.tokens@) + seq![] =~= tokens_view(this.tokens@));
        }
        Ok(this.tokens)
    }

    proof fn lemma_outcome_unfold(self, before: Scanner)
        requires
            before.wf(),
            before.current < before.source@.len(),
            self.source@ == before.source@,
            scan_step(before.source@, before.current as int, before.line as int) is Err,
        ensures
            before.outcome() == Err::<Seq<SpecToken>, ScanError>(
                scan_step(before.source@, before.current as int, before.line as int)->Err_0,
            ),
    {
    }

    proof fn lemma_outcome_step(self, after: Scanner)
        requires
            self.wf(),
            after.wf(),
            self.current < self.source@.len(),
            after.source@ == self.source@,
            scan_step(self.source@, self.current as int, self.line as int) matches Ok(
                (t, n, l),
            ) && n == after.current && l == after.line && n > self.current && tokens_view(
                after.tokens@,
            ) == opt_cons_back(tokens_view(self.tokens@), t),
        ensures
            after.outcome() == self.outcome(),
    {
        let src = self.source@;
        let (t, n, l) = scan_step(src, self.current as int, self.line as int)->Ok_0;
        match scan_from(src, n, l) {
            Ok(rest) => {
                match t {
                    Some(tok) => {
                        assert(tokens_view(self.tokens@) + (seq![tok] + rest) =~= tokens_view(
                            self.tokens@,
                        ).push(tok) + rest);
                    },
                    None => {},
                }
            },
            Err(e) => {},
        }
    }

    // --------------------------------------------------------------------
    // scanning one token
    // --------------------------------------------------------------------

    fn scan_token(&mut self) -> (res: Result<(), RloxErr>)
        requires
            old(self).wf(),
            old(self).start == old(self).current,
            old(self).current < old(self).source@.len(),
        ensures
            final(self).source@ == old(self).source@,
            match scan_step(old(self).source@, old(self).current as int, old(self).line as int) {
                Err(e) => res matches Err(RloxErr::Scan(e2)) && e2 == e,
                Ok((t, n, l)) => {
                    &&& res is Ok
                    &&& final(self).wf()
                    &&& final(self).current == n
                    &&& final(self).line == l
                    &&& n > old(self).current
                    &&& tokens_view(final(self).tokens@) == opt_cons_back(
                        tokens_view(old(self).tokens@),
                        t,
                    )
                },
            },
    {
        let ghost src = self.source@;
        let ghost pos = self.current as int;
        let ghost line0 = self.line as int;
        let cur = match self.advance() {
            Some(ch) => ch,
            None => return Ok(()),
        };
        let single = match_token(cur);
        match single {
            Some(tok) => {
                self.add_token(tok);
                return Ok(());
            },
            None => {},
        }
        if cur == '!' {
            if self.match_char('=') {
                self.add_token(TokenType::BangEqual);
            } else {
                self.add_token(TokenType::Bang);
            }
        } else if cur == '=' {
            if self.match_char('=') {
                self.add_token(TokenType::EqualEqual);
            } else {
                self.add_token(TokenType::Equal);
            }
        } else if cur == '<' {
            if self.match_char('=') {
                self.add_token(TokenType::LessEqual);
            } else {
                self.add_token(TokenType::Less);
            }
        } else if cur == '>' {
            if self.match_char('=') {
                self.add_token(TokenType::GreaterEqual);
            } else {
                self.add_token(TokenType::Greater);
            }
        } else if cur == '/' {
            let next_is_slash = match self.peek() {
                Some(c) => c == '/',
                None => false,
            };
            if next_is_slash {
                loop
                    invariant
                        self.wf(),
                        self.source@ == src,
                        self.line == line0,
                        self.tokens@ == old(self).tokens@,
                        pos + 1 <= self.current,
                        comment_end(src, pos + 1) == comment_end(src, self.current as int),
                    ensures
                        self.current == comment_end(src, pos + 1),
                    decreases self.source@.len() - self.current,
                {
                    if self.is_at_end() {
                        break;
                    }
                    match self.peek() {
                        Some(c) => {
                            if c == '\n' {
                                break;
                            }
                        },
                        None => {},
                    }
                    self.advance();
                }
            } else {
                self.add_token(TokenType::Slash);
            }
        } else if cur == ' ' || cur == '\r' || cur == '\t' {
        } else if cur == '\n' {
            self.line += 1;
        } else if cur == '"' {
            return self.scan_string();
        } else if cur >= '0' && cur <= '9' {
            self.scan_number();
        } else if (cur >= 'a' && cur <= 'z') || (cur >= 'A' && cur <= 'Z') || cur == '_' {
            self.scan_identifier();
        } else {
            return Err(RloxErr::Scan(ScanError::UnexpectedCharacter { line: self.line, ch: cur }));
        }
        Ok(())
    }

    fn scan_string(&mut self) -> (res: Result<(), RloxErr>)
        requires
            old(self).wf(),
            old(self).current == old(self).start + 1,
            old(self).source@[old(self).start as int] == '"',
        ensures
            final(self).source@ == old(self).source@,
            match scan_step(old(self).source@, old(self).start as int, old(self).line as int) {
                Err(e) => res matches Err(RloxErr::Scan(e2)) && e2 == e,
                Ok((t, n, l)) => {
                    &&& res is Ok
                    &&& final(self).wf()
                    &&& final(self).current == n
                    &&& final(self).line == l
                    &&& n > old(self).start
                    &&& tokens_view(final(self).tokens@) == opt_cons_back(
                        tokens_view(old(self).tokens@),
                        t,
                    )
                },
            },
    {
        let ghost src = self.source@;
        let ghost start = self.start as int;
        let ghost line0 = self.line as int;
        let mut found_closed_quote = false;
        proof {
            assert(src.subrange(start + 1, start + 1) =~= seq![]);
        }
        loop
            invariant_except_break
                !found_closed_quote,
            invariant
                self.source@ == src,
                self.start == start,
                self.tokens@ == old(self).tokens@,
                start + 1 <= self.current <= src.len() < usize::MAX,
                1 <= line0 <= start + 2,
                self.line == line0 + count_newlines(src.subrange(start + 1, self.current as int)),
                string_end(src, start + 1) == string_end(src, self.current as int),
            ensures
                found_closed_quote ==> self.current < src.len() && src[self.current as int]
                    == '"',
                !found_closed_quote ==> self.current == src.len(),
            decreases src.len() - self.current,
        {
            proof {
                lemma_count_newlines_le(src.subrange(start + 1, self.current as int));
            }
            match self.peek() {
                None => break,
                Some(ch) => {
                    if ch == '\n' {
                        self.line += 1;
                    }
                    if ch == '"' {
                        found_closed_quote = true;
                        break;
                    }
                    proof {
                        lemma_count_newlines_step(src, start + 1, self.current as int);
                    }
                    self.advance();
                },
            }
        }
        if !found_closed_quote {
            return Err(RloxErr::Scan(ScanError::UnterminatedString { line: self.line }));
        }
        let ghost e = self.current as int;
        proof {
            lemma_count_newlines_le(src.subrange(start + 1, e));
        }
        self.advance();
        let literal = string_of(self.source.as_slice(), self.start + 1, self.current - 1);
        self.add_token_with_literal(TokenType::String, Literal::String(literal));
        Ok(())
    }

    fn scan_number(&mut self)
        requires
            old(self).wf(),
            old(self).current == old(self).start + 1,
            is_digit(old(self).source@[old(self).start as int]),
        ensures
            final(self).source@ == old(self).source@,
            final(self).wf(),
            final(self).line == old(self).line,
            final(self).current == number_end(old(self).source@, old(self).start as int),
            final(self).current > old(self).start,
            tokens_view(final(self).tokens@) == tokens_view(old(self).tokens@).push(
                mk_token(
                    old(self).source@,
                    old(self).start as int,
                    final(self).current as int,
                    TokenType::Number,
                    Some(
                        SpecLiteral::Number(
                            old(self).source@.subrange(
                                old(self).start as int,
                                final(self).current as int,
                            ),
                        ),
                    ),
                    old(self).line as int,
                ),
            ),
    {
        let ghost src = self.source@;
        let ghost start = self.start as int;
        self.skip_digits();
        let ghost e = self.current as int;
        let next_is_dot = match self.peek() {
            Some(c) => c == '.',
            None => false,
        };
        if next_is_dot {
            match self.peek_twice() {
                Some(ch) => {
                    if ch >= '0' && ch <= '9' {
                        self.advance();
                        self.advance();
                        self.skip_digits();
                    }
                },
                None => {},
            }
        }
        let text = string_of(self.source.as_slice(), self.start, self.current);
        self.add_token_with_literal(TokenType::Number, Literal::Number(text));
    }

    fn skip_digits(&mut self)
        requires
            old(self).wf(),
        ensures
            final(self).source@ == old(self).source@,
            final(self).tokens@ == old(self).tokens@,
            final(self).start == old(self).start,
            final(self).line == old(self).line,
            final(self).wf(),
            final(self).current == digits_end(old(self).source@, old(self).current as int),
            final(self).current >= old(self).current,
    {
        loop
            invariant
                self.wf(),
                self.source@ == old(self).source@,
                self.tokens@ == old(self).tokens@,
                self.start == old(self).start,
                self.line == old(self).line,
                old(self).current <= self.current,
                digits_end(self.source@, old(self).current as int) == digits_end(
                    self.source@,
                    self.current as int,
                ),
            ensures
                self.current == digits_end(self.source@, old(self).current as int),
            decreases self.source@.len() - self.current,
        {
            match self.peek() {
                Some(ch) => {
                    if ch >= '0' && ch <= '9' {
                        self.advance();
                    } else {
                        break;
                    }
                },
                None => break,
            }
        }
    }

    fn scan_identifier(&mut self)
        requires
            old(self).wf(),
            old(self).current == old(self).start + 1,
            is_ident_start(old(self).source@[old(self).start as int]),
        ensures
            final(self).source@ == old(self).source@,
            final(self).wf(),
            final(self).line == old(self).line,
            final(self).current == ident_end(old(self).source@, old(self).current as int),
            final(self).current > old(self).start,
            tokens_view(final(self).tokens@) == tokens_view(old(self).tokens@).push(
                mk_token(
                    old(self).source@,
                    old(self).start as int,
                    final(self).current as int,
                    match keyword(
                        old(self).source@.subrange(
                            old(self).start as int,
                            final(self).current as int,
                        ),
                    ) {
                        Some(k) => k,
                        None => TokenType::Identifier,
                    },
                    None,
                    old(self).line as int,
                ),
            ),
    {
        loop
            invariant
                self.wf(),
                self.source@ == old(self).source@,
                self.tokens@ == old(self).tokens@,
                self.start == old(self).start,
                self.line == old(self).line,
                old(self).current <= self.current,
                ident_end(self.source@, old(self).current as int) == ident_end(
                    self.source@,
                    self.current as int,
                ),
            ensures
                self.current == ident_end(self.source@, old(self).current as int),
            decreases self.source@.len() - self.current,
        {
            match self.peek() {
                Some(ch) => {
                    if is_alphanumeric(ch) || ch == '_' {
                        self.advance();
                    } else {
                        break;
                    }
                },
                None => break,
            }
        }
        match match_keyword(self.source.as_slice(), self.start, self.current) {
            Some(kw) => self.add_token(kw),
            None => self.add_token(TokenType::Identifier),
        }
    }

    // --------------------------------------------------------------------
    // helpers
    // --------------------------------------------------------------------

    fn advance(&mut self) -> (res: Option<char>)
        requires
            old(self).current <= old(self).source@.len(),
            old(self).start <= old(self).current,
        ensures
            final(self).source@ == old(self).source@,
            final(self).tokens@ == old(self).tokens@,
            final(self).start == old(self).start,
            final(self).line == old(self).line,
            old(self).current < old(self).source@.len() ==> {
                &&& res == Some(old(self).source@[old(self).current as int])
                &&& final(self).current == old(self).current + 1
            },
            old(self).current >= old(self).source@.len() ==> res is None && final(self).current
                == old(self).current,
            final(self).current <= final(self).source@.len(),
            final(self).start <= final(self).current,
    {
        if self.current >= self.source.len() {
            return None;
        }
        let ch = self.source[self.current];
        self.current += 1;
        Some(ch)
    }

    fn peek(&self) -> (res: Option<char>)
        ensures
            self.current < self.source@.len() ==> res == Some(self.source@[self.current as int]),
            self.current >= self.source@.len() ==> res is None,
    {
        if self.is_at_end() {
            None
        } else {
            Some(self.source[self.current])
        }
    }

    fn peek_twice(&self) -> (res: Option<char>)
        requires
            self.current < self.source@.len() < usize::MAX,
        ensures
            self.current + 1 < self.source@.len() ==> res == Some(
                self.source@[self.current + 1],
            ),
            self.current + 1 >= self.source@.len() ==> res is None,
    {
        if (self.current + 1) >= self.source.len() {
            None
        } else {
            Some(self.source[self.current + 1])
        }
    }

    fn add_token(&mut self, tok: TokenType)
        requires
            old(self).start <= old(self).current <= old(self).source@.len(),
        ensures
            final(self).source@ == old(self).source@,
            final(self).start == old(self).start,
            final(self).current == old(self).current,
            final(self).line == old(self).line,
            tokens_view(final(self).tokens@) == tokens_view(old(self).tokens@).push(
                mk_token(
                    old(self).source@,
                    old(self).start as int,
                    old(self).current as int,
                    tok,
                    None,
                    old(self).line as int,
                ),
            ),
    {
        let lexeme = string_of(self.source.as_slice(), self.start, self.current);
        self.tokens.push(Token { ty: tok, lexeme, literal: None, line: self.line });
        assert(tokens_view(self.tokens@) =~= tokens_view(old(self).tokens@).push(
            mk_token(
                old(self).source@,
                old(self).start as int,
                old(self).current as int,
                tok,
                None,
                old(self).line as int,
            ),
        ));
    }

    fn add_token_with_literal(&mut self, tok: TokenType, literal: Literal)
        requires
            old(self).start <= old(self).current <= old(self).source@.len(),
        ensures
            final(self).source@ == old(self).source@,
            final(self).start == old(self).start,
            final(self).current == old(self).current,
            final(self).line == old(self).line,
            tokens_view(final(self).tokens@) == tokens_view(old(self).tokens@).push(
                mk_token(
                    old(self).source@,
                    old(self).start as int,
                    old(self).current as int,
                    tok,
                    Some(literal@),
                    old(self).line as int,
                ),
            ),
    {
        let lexeme = string_of(self.source.as_slice(), self.start, self.current);
        self.tokens.push(Token { ty: tok, lexeme, literal: Some(literal), line: self.line });
        assert(tokens_view(self.tokens@) =~= tokens_view(old(self).tokens@).push(
            mk_token(
                old(self).source@,
                old(self).start as int,
                old(self).current as int,
                tok,
                Some(literal@),
                old(self).line as int,
            ),
        ));
    }

    fn match_char(&mut self, expected: char) -> (res: bool)
        requires
            old(self).wf(),
        ensures
            final(self).source@ == old(self).source@,
            final(self).tokens@ == old(self).tokens@,
            final(self).start == old(self).start,
            final(self).line == old(self).line,
            final(self).wf(),
            res == (old(self).current < old(self).source@.len() && old(self).source@[old(
                self,
            ).current as int] == expected),
            final(self).current == old(self).current + if res {
                1int
            } else {
                0int
            },
    {
        if self.is_at_end() {
            return false;
        }
        if self.source[self.current] != expected {
            return false;
        }
        assert(self.current < self.source@.len());
        self.current += 1;
        true
    }

    fn is_at_end(&self) -> (res: bool)
        ensures
            res == (self.current >= self.source@.len()),
    {
        self.current >= self.source.len()
    }
}

/// `ts` with `t` appended when there is one.
pub open spec fn opt_cons_back(ts: Seq<SpecToken>, t: Option<SpecToken>) -> Seq<SpecToken> {
    match t {
        Some(tok) => ts.push(tok),
        None => ts,
    }
}

} // verus!
