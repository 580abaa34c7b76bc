//! What a parse keeps: read from left to right, the tree holds the operands
//! and the operators of the tokens that were consumed, in their order. The
//! parentheses alone are gone; the shape of the tree stands for them.

use super::ast::ExprView;
use super::expressions::{
    atom_of, binding_power_of, expression_of, lemma_operators_consume, lemma_parse_consumes,
    lemma_primary_consumes, node, operators_of, primary_of,
};
use super::front;
use crate::token::{Token, TokenKind};
use vstd::prelude::*;

verus! {

/// One step of an expression read from left to right.
pub enum Piece {
    Operand(ExprView),
    Operator(TokenKind),
}

/// The operands and the operators of an expression, from left to right.
pub open spec fn reading(expr: ExprView) -> Seq<Piece>
    decreases expr,
{
    match expr {
        ExprView::Binary { op, lhs, rhs } => reading(*lhs) + seq![Piece::Operator(op)] + reading(
            *rhs,
        ),
        _ => seq![Piece::Operand(expr)],
    }
}

/// The operands and the operators among `tokens`, in their order: each
/// literal or identifier, and each binary operator. Other tokens are left
/// out.
pub open spec fn token_reading(s: Seq<u8>, tokens: Seq<Token>) -> Seq<Piece>
    decreases tokens.len(),
{
    if tokens.len() == 0 {
        Seq::empty()
    } else if binding_power_of(tokens[0].kind) is Some {
        seq![Piece::Operator(tokens[0].kind)] + token_reading(s, tokens.drop_first())
    } else if atom_of(s, tokens[0]) is Some {
        seq![Piece::Operand(atom_of(s, tokens[0]).unwrap())] + token_reading(
            s,
            tokens.drop_first(),
        )
    } else {
        token_reading(s, tokens.drop_first())
    }
}

/// The reading of one token: itself where it is an operator or an operand,
/// else nothing.
pub proof fn lemma_token_reading_of_one(s: Seq<u8>, token: Token)
    ensures
        token_reading(s, seq![token]) == (if binding_power_of(token.kind) is Some {
            seq![Piece::Operator(token.kind)]
        } else if atom_of(s, token) is Some {
            seq![Piece::Operand(atom_of(s, token).unwrap())]
        } else {
            Seq::empty()
        }),
{
    reveal_with_fuel(token_reading, 2);
    let one = seq![token];
    assert(one[0] == token);
    assert(one.drop_first() =~= Seq::<Token>::empty());
    assert(token_reading(s, one.drop_first()) =~= Seq::<Piece>::empty());
    let piece = Piece::Operator(token.kind);
    assert(seq![piece] + Seq::<Piece>::empty() =~= seq![piece]);
    if atom_of(s, token) is Some {
        let operand = Piece::Operand(atom_of(s, token).unwrap());
        assert(seq![operand] + Seq::<Piece>::empty() =~= seq![operand]);
    }
}

/// The reading of two runs of tokens, one after the other, is the reading
/// of the first and then that of the second.
pub proof fn lemma_token_reading_joins(s: Seq<u8>, a: Seq<Token>, b: Seq<Token>)
    ensures
        token_reading(s, a + b) == token_reading(s, a) + token_reading(s, b),
    decreases a.len(),
{
    if a.len() == 0 {
        assert(a + b =~= b);
        assert(token_reading(s, a) + token_reading(s, b) =~= token_reading(s, b));
    } else {
        assert((a + b).drop_first() =~= a.drop_first() + b);
        assert((a + b)[0] == a[0]);
        lemma_token_reading_joins(s, a.drop_first(), b);
        let tail = token_reading(s, b);
        assert(token_reading(s, a + b) =~= token_reading(s, a) + tail);
    }
}

/// A primary holds what its tokens hold.
pub proof fn lemma_primary_keeps_the_reading(s: Seq<u8>, tokens: Seq<Token>)
    ensures
        primary_of(s, tokens) matches Ok((expr, rest)) ==> rest.len() <= tokens.len() && reading(
            expr,
        ) == token_reading(s, tokens.take(tokens.len() - rest.len())),
    decreases tokens.len(), 0int,
{
    lemma_primary_consumes(s, tokens);
    match primary_of(s, tokens) {
        Ok((expr, rest)) => {
            let token = tokens[0];
            let taken = tokens.take(tokens.len() - rest.len());
            if token.kind == TokenKind::LParen {
                let inside = tokens.drop_first();
                lemma_parse_consumes(s, inside, 0);
                lemma_parse_keeps_the_reading(s, inside, 0);
                match expression_of(s, inside, 0) {
                    Ok((inner, after)) => {
                        let middle = inside.take(inside.len() - after.len());
                        let closing = after[0];
                        assert(taken =~= seq![token] + (middle + seq![closing]));
                        lemma_token_reading_joins(s, seq![token], middle + seq![closing]);
                        lemma_token_reading_joins(s, middle, seq![closing]);
                        lemma_token_reading_of_one(s, token);
                        lemma_token_reading_of_one(s, closing);
                        assert(seq![closing][0] == closing);
                        assert(token_reading(s, taken) =~= token_reading(s, middle));
                    },
                    Err(_) => {},
                }
            } else {
                assert(taken =~= seq![token]);
                assert(seq![token][0] == token);
                assert(atom_of(s, token) == Some(expr));
                lemma_token_reading_of_one(s, token);
            }
        },
        Err(_) => {},
    }
}

/// An expression holds what its tokens hold: read from left to right, the
/// tree gives the operands and the operators of the tokens that were
/// consumed, in their order.
pub proof fn lemma_parse_keeps_the_reading(s: Seq<u8>, tokens: Seq<Token>, min_bp: u8)
    ensures
        expression_of(s, tokens, min_bp) matches Ok((expr, rest)) ==> rest.len() <= tokens.len()
            && reading(expr) == token_reading(s, tokens.take(tokens.len() - rest.len())),
    decreases tokens.len(), 1int,
{
    lemma_parse_consumes(s, tokens, min_bp);
    lemma_primary_consumes(s, tokens);
    lemma_primary_keeps_the_reading(s, tokens);
    match primary_of(s, tokens) {
        Ok((lhs, rest)) => {
            lemma_operators_consume(s, lhs, rest, min_bp);
            lemma_operators_keep_the_reading(s, lhs, rest, min_bp);
            match operators_of(s, lhs, rest, min_bp) {
                Ok((expr, after)) => {
                    let first = tokens.take(tokens.len() - rest.len());
                    let second = rest.take(rest.len() - after.len());
                    assert(tokens.take(tokens.len() - after.len()) =~= first + second);
                    lemma_token_reading_joins(s, first, second);
                },
                Err(_) => {},
            }
        },
        Err(_) => {},
    }
}

/// The operators after an operand add to it what their tokens hold.
pub proof fn lemma_operators_keep_the_reading(
    s: Seq<u8>,
    lhs: ExprView,
    tokens: Seq<Token>,
    min_bp: u8,
)
    ensures
        operators_of(s, lhs, tokens, min_bp) matches Ok((expr, rest)) ==> rest.len() <= tokens.len()
            && reading(expr) == reading(lhs) + token_reading(
            s,
            tokens.take(tokens.len() - rest.len()),
        ),
    decreases tokens.len(), 2int,
{
    lemma_operators_consume(s, lhs, tokens, min_bp);
    match operators_of(s, lhs, tokens, min_bp) {
        Ok((expr, rest)) => {
            let token = front(s, tokens);
            if tokens.len() > 0 && binding_power_of(token.kind) is Some && min_bp
                <= binding_power_of(token.kind).unwrap().0 {
                let right_bp = binding_power_of(token.kind).unwrap().1;
                let after_op = tokens.drop_first();
                lemma_parse_consumes(s, after_op, right_bp);
                lemma_parse_keeps_the_reading(s, after_op, right_bp);
                match expression_of(s, after_op, right_bp) {
                    Ok((rhs, middle)) => {
                        let joined = node(token.kind, lhs, rhs);
                        lemma_operators_consume(s, joined, middle, min_bp);
                        lemma_operators_keep_the_reading(s, joined, middle, min_bp);
                        let first = after_op.take(after_op.len() - middle.len());
                        let second = middle.take(middle.len() - rest.len());
                        let taken = tokens.take(tokens.len() - rest.len());
                        assert(taken =~= seq![token] + (first + second));
                        lemma_token_reading_joins(s, seq![token], first + second);
                        lemma_token_reading_joins(s, first, second);
                        lemma_token_reading_of_one(s, token);
                        assert(reading(joined) =~= reading(lhs) + seq![Piece::Operator(token.kind)]
                            + reading(rhs));
                        assert(reading(expr) =~= reading(lhs) + token_reading(s, taken));
                    },
                    Err(_) => {},
                }
            } else {
                assert(tokens.take(0) =~= Seq::<Token>::empty());
                assert(reading(lhs) + Seq::<Piece>::empty() =~= reading(lhs));
            }
        },
        Err(_) => {},
    }
}

} // verus!
