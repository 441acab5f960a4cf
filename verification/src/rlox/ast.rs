//! Lox expression trees.

use vstd::prelude::*;
use crate::rlox::token::{Literal, SpecLiteral, SpecToken, Token};

verus! {

/// An expression tree as the parser builds it.
#[derive(Debug)]
pub enum Expr {
    Literal(Literal),
    Unary { operator: Token, right: Box<Expr> },
    Binary { left: Box<Expr>, operator: Token, right: Box<Expr> },
    Grouping { expressing: Box<Expr> },
}

/// The mathematical value of an expression tree.
pub enum SpecExpr {
    Literal(SpecLiteral),
    Unary(SpecToken, Box<SpecExpr>),
    Binary(Box<SpecExpr>, SpecToken, Box<SpecExpr>),
    Grouping(Box<SpecExpr>),
}

pub open spec fn expr_view(e: Expr) -> SpecExpr
    decreases e,
{
    match e {
        Expr::Literal(l) => SpecExpr::Literal(l@),
        Expr::Unary { operator, right } => SpecExpr::Unary(operator@, Box::new(expr_view(*right))),
        Expr::Binary { left, operator, right } => SpecExpr::Binary(
            Box::new(expr_view(*left)),
            operator@,
            Box::new(expr_view(*right)),
        ),
        Expr::Grouping { expressing } => SpecExpr::Grouping(Box::new(expr_view(*expressing))),
    }
}

impl View for Expr {
    type V = SpecExpr;

    open spec fn view(&self) -> SpecExpr {
        expr_view(*self)
    }
}

} // verus!
