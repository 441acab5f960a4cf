//! The Lox expression parser (recursive descent).
//!
//! Grammar, from loosest to tightest binding:
//! expression → equality
//! equality   → comparison ( ("==" | "!=") comparison )*
//! comparison → term ( ("<" | "<=" | ">" | ">=") term )*
//! term       → factor ( ("+" | "-") factor )*
//! factor     → unary ( ("*" | "/") unary )*
//! unary      → ("!" | "-") unary | primary
//! primary    → NUMBER | STRING | "true" | "false" | "nil" | "(" expression ")"

use vstd::prelude::*;
use crate::rlox::ast::{Expr, SpecExpr};
use crate::rlox::error::{ParseError, RloxErr, SpecParseError};
use crate::rlox::token::{Literal, SpecLiteral, SpecToken, Token, TokenType, tokens_view};

verus! {

// ------------------------------------------------------------------------
// What parsing means
// ------------------------------------------------------------------------

/// Tokens the parser can run over: they end with an end-of-file token, and
/// every number and string token carries its literal value.
pub open spec fn valid_tokens(t: Seq<SpecToken>) -> bool {
    &&& t.len() > 0
    &&& t.last().ty == TokenType::Eof
    &&& forall|i: int|
        0 <= i < t.len() && (t[i].ty == TokenType::Number || t[i].ty == TokenType::String)
            ==> (#[trigger] t[i].literal) is Some
}

/// The operators of each precedence level: 4 equality, 3 comparison,
/// 2 term, 1 factor, 0 unary prefix.
pub open spec fn is_level_op(lvl: nat, ty: TokenType) -> bool {
    if lvl == 4 {
        ty == TokenType::BangEqual || ty == TokenType::EqualEqual
    } else if lvl == 3 {
        ty == TokenType::Less || ty == TokenType::LessEqual || ty == TokenType::Greater || ty
            == TokenType::GreaterEqual
    } else if lvl == 2 {
        ty == TokenType::Plus || ty == TokenType::Minus
    } else if lvl == 1 {
        ty == TokenType::Star || ty == TokenType::Slash
    } else {
        ty == TokenType::Bang || ty == TokenType::Minus
    }
}

/// The error reported at a position the grammar never reaches.
pub open spec fn out_of_range() -> SpecParseError {
    SpecParseError::ExpectedToken(TokenType::Eof, Seq::empty())
}

pub open spec fn group_message() -> Seq<char> {
    "expected ')' after expression"@
}

/// Parsing one precedence level at `p`: the expression and the position
/// after it, or the error.
pub open spec fn p_level(t: Seq<SpecToken>, p: int, lvl: nat) -> Result<
    (SpecExpr, int),
    SpecParseError,
>
    decreases t.len() - p, 2 * lvl + 1,
{
    if !(0 <= p < t.len()) {
        Err(out_of_range())
    } else if lvl == 0 {
        if is_level_op(0, t[p].ty) {
            match p_level(t, p + 1, 0) {
                Err(e) => Err(e),
                Ok((r, q)) => Ok((SpecExpr::Unary(t[p], Box::new(r)), q)),
            }
        } else {
            p_primary(t, p)
        }
    } else {
        match p_level(t, p, (lvl - 1) as nat) {
            Err(e) => Err(e),
            Ok((l, q)) => if p < q < t.len() {
                p_rest(t, l, q, lvl)
            } else {
                Ok((l, q))
            },
        }
    }
}

/// The loop of a binary level: while the next token is an operator of the
/// level, fold the operand that follows into a left-nested binary node.
pub open spec fn p_rest(t: Seq<SpecToken>, left: SpecExpr, p: int, lvl: nat) -> Result<
    (SpecExpr, int),
    SpecParseError,
>
    decreases t.len() - p, 2 * lvl,
{
    if 0 <= p < t.len() && lvl >= 1 && is_level_op(lvl, t[p].ty) {
        match p_level(t, p + 1, (lvl - 1) as nat) {
            Err(e) => Err(e),
            Ok((r, q)) => {
                let e = SpecExpr::Binary(Box::new(left), t[p], Box::new(r));
                if p < q < t.len() {
                    p_rest(t, e, q, lvl)
                } else {
                    Ok((e, q))
                }
            },
        }
    } else {
        Ok((left, p))
    }
}

/// A primary expression at `p`.
pub open spec fn p_primary(t: Seq<SpecToken>, p: int) -> Result<(SpecExpr, int), SpecParseError>
    decreases t.len() - p, 0nat,
{
    if !(0 <= p < t.len()) {
        Err(out_of_range())
    } else {
        let ty = t[p].ty;
        if ty == TokenType::False {
            Ok((SpecExpr::Literal(SpecLiteral::Bool(false)), p + 1))
        } else if ty == TokenType::True {
            Ok((SpecExpr::Literal(SpecLiteral::Bool(true)), p + 1))
        } else if ty == TokenType::Nil {
            Ok((SpecExpr::Literal(SpecLiteral::Nil), p + 1))
        } else if ty == TokenType::Number || ty == TokenType::String {
            Ok((SpecExpr::Literal(t[p].literal->0), p + 1))
        } else if ty == TokenType::LeftParen {
            match p_level(t, p + 1, 4) {
                Err(e) => Err(e),
                Ok((e, q)) => if 0 <= q < t.len() && t[q].ty == TokenType::RightParen {
                    Ok((SpecExpr::Grouping(Box::new(e)), q + 1))
                } else {
                    Err(SpecParseError::ExpectedToken(TokenType::RightParen, group_message()))
                },
            }
        } else {
            Err(SpecParseError::UnexpectedToken(t[p]))
        }
    }
}

/// The expression that parsing `t` from position `p` yields.
pub open spec fn p_expression(t: Seq<SpecToken>, p: int) -> Result<
    (SpecExpr, int),
    SpecParseError,
> {
    p_level(t, p, 4)
}

// ------------------------------------------------------------------------
// The parser
// ------------------------------------------------------------------------

/// A parser over a token sequence.
pub struct Parser {
    tokens: Vec<Token>,
    current: usize,
}

/// The parse result matches the specification value `s`, with the parser
/// left at the position after the expression.
pub open spec fn matches_spec(
    r: Result<Expr, RloxErr>,
    s: Result<(SpecExpr, int), SpecParseError>,
    cur: int,
) -> bool {
    match s {
        Ok((e, q)) => r matches Ok(x) && x@ == e && cur == q,
        Err(err) => r matches Err(RloxErr::Parse(pe)) && pe@ == err,
    }
}

impl Parser {
    /// The tokens being parsed, as values.
    pub closed spec fn tokens(&self) -> Seq<SpecToken> {
        tokens_view(self.tokens@)
    }

    /// The position of the next token to read.
    pub closed spec fn pos(&self) -> int {
        self.current as int
    }

    closed spec fn wf(&self) -> bool {
        &&& valid_tokens(self.tokens())
        &&& self.current < self.tokens@.len()
    }

    /// A parser positioned at the first of `tokens`.
    pub fn new(tokens: Vec<Token>) -> (res: Parser)
        ensures
            res.tokens() == tokens_view(tokens@),
            res.pos() == 0,
    {
        Parser { tokens, current: 0 }
    }

    /// Parses one expression starting at the current position. The result,
    /// and the position after it, are those of `p_expression`.
    pub fn parse(&mut self) -> (res: Result<Expr, RloxErr>)
        requires
            valid_tokens(old(self).tokens()),
            old(self).pos() < old(self).tokens().len(),
        ensures
            final(self).tokens() == old(self).tokens(),
            matches_spec(res, p_expression(old(self).tokens(), old(self).pos()), final(self).pos()),
    {
        self.expression()
    }

    fn expression(&mut self) -> (res: Result<Expr, RloxErr>)
        requires
            old(self).wf(),
        ensures
            final(self).tokens() == old(self).tokens(),
            final(self).wf(),
            matches_spec(res, p_level(old(self).tokens(), old(self).pos(), 4), final(self).pos()),
            res is Ok ==> final(self).pos() > old(self).pos(),
        decreases old(self).tokens().len() - old(self).pos(), 16nat,
    {
        self.equality()
    }

    fn equality(&mut self) -> (res: Result<Expr, RloxErr>)
        requires
            old(self).wf(),
        ensures
            final(self).tokens() == old(self).tokens(),
            final(self).wf(),
            matches_spec(res, p_level(old(self).tokens(), old(self).pos(), 4), final(self).pos()),
            res is Ok ==> final(self).pos() > old(self).pos(),
        decreases old(self).tokens().len() - old(self).pos(), 15nat,
    {
        self.binary_level(4)
    }

    fn comparison(&mut self) -> (res: Result<Expr, RloxErr>)
        requires
            old(self).wf(),
        ensures
            final(self).tokens() == old(self).tokens(),
            final(self).wf(),
            matches_spec(res, p_level(old(self).tokens(), old(self).pos(), 3), final(self).pos()),
            res is Ok ==> final(self).pos() > old(self).pos(),
        decreases old(self).tokens().len() - old(self).pos(), 12nat,
    {
        self.binary_level(3)
    }

    fn term(&mut self) -> (res: Result<Expr, RloxErr>)
        requires
            old(self).wf(),
        ensures
            final(self).tokens() == old(self).tokens(),
            final(self).wf(),
            matches_spec(res, p_level(old(self).tokens(), old(self).pos(), 2), final(self).pos()),
            res is Ok ==> final(self).pos() > old(self).pos(),
        decreases old(self).tokens().len() - old(self).pos(), 9nat,
    {
        self.binary_level(2)
    }

    fn factor(&mut self) -> (res: Result<Expr, RloxErr>)
        requires
            old(self).wf(),
        ensures
            final(self).tokens() == old(self).tokens(),
            final(self).wf(),
            matches_spec(res, p_level(old(self).tokens(), old(self).pos(), 1), final(self).pos()),
            res is Ok ==> final(self).pos() > old(self).pos(),
        decreases old(self).tokens().len() - old(self).pos(), 6nat,
    {
        self.binary_level(1)
    }

    /// The operand parser one level tighter than `lvl`.
    fn operand(&mut self, lvl: u8) -> (res: Result<Expr, RloxErr>)
        requires
            old(self).wf(),
            1 <= lvl <= 4,
        ensures
            final(self).tokens() == old(self).tokens(),
            final(self).wf(),
            matches_spec(
                res,
                p_level(old(self).tokens(), old(self).pos(), (lvl - 1) as nat),
                final(self).pos(),
            ),
            res is Ok ==> final(self).pos() > old(self).pos(),
        decreases old(self).tokens().len() - old(self).pos(), 3 * lvl + 1,
    {
        if lvl == 4 {
            self.comparison()
        } else if lvl == 3 {
            self.term()
        } else if lvl == 2 {
            self.factor()
        } else {
            self.unary()
        }
    }

    /// One binary precedence level: the operand of the next tighter level,
    /// then as many `op operand` pairs as follow, folded to the left.
    fn binary_level(&mut self, lvl: u8) -> (res: Result<Expr, RloxErr>)
        requires
            old(self).wf(),
            1 <= lvl <= 4,
        ensures
            final(self).tokens() == old(self).tokens(),
            final(self).wf(),
            matches_spec(
                res,
                p_level(old(self).tokens(), old(self).pos(), lvl as nat),
                final(self).pos(),
            ),
            res is Ok ==> final(self).pos() > old(self).pos(),
        decreases old(self).tokens().len() - old(self).pos(), 3 * lvl + 2,
    {
        let ghost t = self.tokens();
        let ghost p0 = self.pos();
        let first = self.operand(lvl);
        let mut left = match first {
            Ok(e) => e,
            Err(e) => return Err(e),
        };
        proof {
            assert(self.pos() > p0);
        }
        loop
            invariant
                self.wf(),
                self.tokens() == t,
                t == old(self).tokens(),
                p0 == old(self).pos(),
                1 <= lvl <= 4,
                p0 < self.pos(),
                p_level(t, p0, lvl as nat) == p_rest(t, left@, self.pos(), lvl as nat),
            decreases t.len() - self.pos(),
        {
            let ghost p = self.pos();
            if !self.match_level(lvl) {
                assert(p_rest(t, left@, p, lvl as nat) == Ok::<(SpecExpr, int), SpecParseError>((left@, p)));
                return Ok(left);
            }
            let operator = self.previous().duplicate();
            let right = self.operand(lvl);
            let right = match right {
                Ok(e) => e,
                Err(e) => return Err(e),
            };
            left = Expr::Binary { left: Box::new(left), operator, right: Box::new(right) };
        }
    }

    fn unary(&mut self) -> (res: Result<Expr, RloxErr>)
        requires
            old(self).wf(),
        ensures
            final(self).tokens() == old(self).tokens(),
            final(self).wf(),
            matches_spec(res, p_level(old(self).tokens(), old(self).pos(), 0), final(self).pos()),
            res is Ok ==> final(self).pos() > old(self).pos(),
        decreases old(self).tokens().len() - old(self).pos(), 1nat,
    {
        if self.match_level(0) {
            let operator = self.previous().duplicate();
            let right = match self.unary() {
                Ok(e) => e,
                Err(e) => return Err(e),
            };
            return Ok(Expr::Unary { operator, right: Box::new(right) });
        }
        self.primary()
    }

    fn primary(&mut self) -> (res: Result<Expr, RloxErr>)
        requires
            old(self).wf(),
        ensures
            final(self).tokens() == old(self).tokens(),
            final(self).wf(),
            matches_spec(res, p_primary(old(self).tokens(), old(self).pos()), final(self).pos()),
            res is Ok ==> final(self).pos() > old(self).pos(),
        decreases old(self).tokens().len() - old(self).pos(), 0nat,
    {
        let ghost t = self.tokens();
        let ghost p = self.pos();
        if self.match_one(TokenType::False) {
            return Ok(Expr::Literal(Literal::Bool(false)));
        }
        if self.match_one(TokenType::True) {
            return Ok(Expr::Literal(Literal::Bool(true)));
        }
        if self.match_one(TokenType::Nil) {
            return Ok(Expr::Literal(Literal::Nil));
        }
        if self.match_one(TokenType::Number) || self.match_one(TokenType::String) {
            let tok = self.previous();
            proof {
                assert(t[p].ty == TokenType::Number || t[p].ty == TokenType::String);
                assert(t[p].literal is Some);
            }
            let lit = match &tok.literal {
                Some(l) => l.duplicate(),
                None => {
                    assert(false);
                    Literal::Nil
                },
            };
            return Ok(Expr::Literal(lit));
        }
        if self.match_one(TokenType::LeftParen) {
            let expr = match self.expression() {
                Ok(e) => e,
                Err(e) => return Err(e),
            };
            match self.consume(TokenType::RightParen, "expected ')' after expression") {
                Ok(()) => {},
                Err(e) => return Err(e),
            }
            return Ok(Expr::Grouping { expressing: Box::new(expr) });
        }
        Err(RloxErr::Parse(ParseError::UnexpectedToken { token: self.peek().duplicate() }))
    }

    // --------------------------------------------------------------------
    // helpers
    // --------------------------------------------------------------------

    /// Consumes the next token if it is an operator of level `lvl`.
    fn match_level(&mut self, lvl: u8) -> (res: bool)
        requires
            old(self).wf(),
            lvl <= 4,
        ensures
            final(self).tokens() == old(self).tokens(),
            final(self).wf(),
            res == is_level_op(lvl as nat, old(self).tokens()[old(self).pos()].ty),
            final(self).pos() == old(self).pos() + if res {
                1int
            } else {
                0int
            },
    {
        if lvl == 4 {
            let ops = [TokenType::BangEqual, TokenType::EqualEqual];
            assert(ops@ =~= seq![TokenType::BangEqual, TokenType::EqualEqual]);
            self.match_tokens(&ops)
        } else if lvl == 3 {
            let ops = [
                TokenType::Less,
                TokenType::LessEqual,
                TokenType::Greater,
                TokenType::GreaterEqual,
            ];
            assert(ops@ =~= seq![
                TokenType::Less,
                TokenType::LessEqual,
                TokenType::Greater,
                TokenType::GreaterEqual,
            ]);
            self.match_tokens(&ops)
        } else if lvl == 2 {
            let ops = [TokenType::Plus, TokenType::Minus];
            assert(ops@ =~= seq![TokenType::Plus, TokenType::Minus]);
            self.match_tokens(&ops)
        } else if lvl == 1 {
            let ops = [TokenType::Star, TokenType::Slash];
            assert(ops@ =~= seq![TokenType::Star, TokenType::Slash]);
            self.match_tokens(&ops)
        } else {
            let ops = [TokenType::Bang, TokenType::Minus];
            assert(ops@ =~= seq![TokenType::Bang, TokenType::Minus]);
            self.match_tokens(&ops)
        }
    }

    fn match_one(&mut self, ty: TokenType) -> (res: bool)
        requires
            old(self).wf(),
            ty != TokenType::Eof,
        ensures
            final(self).tokens() == old(self).tokens(),
            final(self).wf(),
            res == (old(self).tokens()[old(self).pos()].ty == ty),
            final(self).pos() == old(self).pos() + if res {
                1int
            } else {
                0int
            },
    {
        let ops = [ty];
        assert(ops@ =~= seq![ty]);
        self.match_tokens(&ops)
    }

    /// Consumes the next token if its kind is one of `types`.
    fn match_tokens(&mut self, types: &[TokenType]) -> (res: bool)
        requires
            old(self).wf(),
            !types@.contains(TokenType::Eof),
        ensures
            final(self).tokens() == old(self).tokens(),
            final(self).wf(),
            res == types@.contains(old(self).tokens()[old(self).pos()].ty),
            final(self).pos() == old(self).pos() + if res {
                1int
            } else {
                0int
            },
    {
        let mut i: usize = 0;
        while i < types.len()
            invariant
                self.wf(),
                *self == *old(self),
                !types@.contains(TokenType::Eof),
                0 <= i <= types@.len(),
                forall|j: int| 0 <= j < i ==> types@[j] != self.tokens()[self.pos()].ty,
            decreases types.len() - i,
        {
            let ty = types[i];
            if self.check(ty) {
                self.advance();
                return true;
            }
            i += 1;
        }
        false
    }

    fn check(&self, ty: TokenType) -> (res: bool)
        requires
            self.wf(),
        ensures
            res == (self.tokens()[self.pos()].ty != TokenType::Eof && self.tokens()[self.pos()].ty
                == ty),
    {
        !self.is_at_end() && self.peek().ty == ty
    }

    fn advance(&mut self)
        requires
            old(self).wf(),
            old(self).tokens()[old(self).pos()].ty != TokenType::Eof,
        ensures
            final(self).tokens() == old(self).tokens(),
            final(self).wf(),
            final(self).pos() == old(self).pos() + 1,
    {
        if !self.is_at_end() {
            proof {
                let t = self.tokens();
                assert(t[self.pos()].ty != t.last().ty);
            }
            assert(self.current < self.tokens.len());
            self.current += 1;
        }
    }

    fn consume(&mut self, ty: TokenType, msg: &str) -> (res: Result<(), RloxErr>)
        requires
            old(self).wf(),
            ty != TokenType::Eof,
        ensures
            final(self).tokens() == old(self).tokens(),
            final(self).wf(),
            old(self).tokens()[old(self).pos()].ty == ty ==> res is Ok && final(self).pos() == old(
                self,
            ).pos() + 1,
            old(self).tokens()[old(self).pos()].ty != ty ==> (res matches Err(
                RloxErr::Parse(ParseError::ExpectedToken { expected, message }),
            ) && expected == ty && message@ == msg@),
    {
        if self.check(ty) {
            self.advance();
            Ok(())
        } else {
            Err(RloxErr::Parse(ParseError::ExpectedToken { expected: ty, message: msg.to_owned() }))
        }
    }

    fn peek(&self) -> (res: &Token)
        requires
            self.wf(),
        ensures
            res@ == self.tokens()[self.pos()],
    {
        &self.tokens[self.current]
    }

    fn previous(&self) -> (res: &Token)
        requires
            self.wf(),
            self.current >= 1,
        ensures
            res@ == self.tokens()[self.pos() - 1],
    {
        &self.tokens[self.current - 1]
    }

    fn is_at_end(&self) -> (res: bool)
        requires
            self.wf(),
        ensures
            res == (self.tokens()[self.pos()].ty == TokenType::Eof),
    {
        self.peek().ty == TokenType::Eof
    }
}

} // verus!
