//! The expression tree that the parser builds.

use crate::token::TokenKind;
use vstd::prelude::*;

verus! {

/// An expression. A binary node owns its two operands.
#[derive(Debug, PartialEq)]
pub enum Expr {
    Ident(String),
    Literal(Literal),
    Binary { op: TokenKind, lhs: Box<Expr>, rhs: Box<Expr> },
}

/// A literal value. A float is kept as the text of its numeral, which is a
/// run of digits, a `.` and a run of digits wherever the lexer made it.
#[derive(Debug, PartialEq)]
pub enum Literal {
    Int(usize),
    Float(String),
    String(String),
}

/// What a literal is: its number, or the characters of its text.
pub enum LiteralView {
    Int(usize),
    Float(Seq<char>),
    String(Seq<char>),
}

/// What an expression is: the same tree over characters.
pub enum ExprView {
    Ident(Seq<char>),
    Literal(LiteralView),
    Binary { op: TokenKind, lhs: Box<ExprView>, rhs: Box<ExprView> },
}

impl View for Literal {
    type V = LiteralView;

    open spec fn view(&self) -> LiteralView {
        match self {
            Literal::Int(value) => LiteralView::Int(*value),
            Literal::Float(text) => LiteralView::Float(text@),
            Literal::String(text) => LiteralView::String(text@),
        }
    }
}

impl View for Expr {
    type V = ExprView;

    open spec fn view(&self) -> ExprView
        decreases self,
    {
        match self {
            Expr::Ident(name) => ExprView::Ident(name@),
            Expr::Literal(literal) => ExprView::Literal(literal@),
            Expr::Binary { op, lhs, rhs } => ExprView::Binary {
                op: *op,
                lhs: Box::new((**lhs).view()),
                rhs: Box::new((**rhs).view()),
            },
        }
    }
}

impl Clone for Literal {
    /// A copy of the literal.
    fn clone(&self) -> (r: Self)
        ensures
            r@ == self@,
    {
        match self {
            Literal::Int(value) => Literal::Int(*value),
            Literal::Float(text) => Literal::Float(text.clone()),
            Literal::String(text) => Literal::String(text.clone()),
        }
    }
}

impl Clone for Expr {
    /// A copy of the whole tree.
    fn clone(&self) -> (r: Self)
        ensures
            r@ == self@,
        decreases self,
    {
        match self {
            Expr::Ident(name) => Expr::Ident(name.clone()),
            Expr::Literal(literal) => Expr::Literal(literal.clone()),
            Expr::Binary { op, lhs, rhs } => Expr::Binary {
                op: *op,
                lhs: Box::new((**lhs).clone()),
                rhs: Box::new((**rhs).clone()),
            },
        }
    }
}

/// The binary node of `op` over `lhs` and `rhs`.
pub fn binop(lhs: Expr, op: TokenKind, rhs: Expr) -> (r: Expr)
    ensures
        r@ == (ExprView::Binary { op, lhs: Box::new(lhs@), rhs: Box::new(rhs@) }),
{
    Expr::Binary { op, lhs: Box::new(lhs), rhs: Box::new(rhs) }
}

/// The integer literal of `it`.
pub fn integer(it: usize) -> (r: Expr)
    ensures
        r@ == ExprView::Literal(LiteralView::Int(it)),
{
    Expr::Literal(Literal::Int(it))
}

/// The float literal whose numeral is `it`.
pub fn float(it: &str) -> (r: Expr)
    ensures
        r@ == ExprView::Literal(LiteralView::Float(it@)),
{
    Expr::Literal(Literal::Float(it.to_owned()))
}

/// The string literal whose content is `it`.
pub fn string(it: &str) -> (r: Expr)
    ensures
        r@ == ExprView::Literal(LiteralView::String(it@)),
{
    Expr::Literal(Literal::String(it.to_owned()))
}

/// The identifier named `it`.
pub fn ident(it: &str) -> (r: Expr)
    ensures
        r@ == ExprView::Ident(it@),
{
    Expr::Ident(it.to_owned())
}

} // verus!
