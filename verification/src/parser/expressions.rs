//! Precedence climbing: an expression is a primary followed by binary
//! operators, each of which takes as its right operand all that binds
//! tighter than itself.

use super::ast::{binop, float, ident, integer, string, Expr, ExprView, LiteralView};
use super::{consumed, front, ParseError, Parser};
use crate::lexer::rules::is_digit;
use crate::token::{lemma_ascii_boundaries, text_between, Token, TokenKind};
use vstd::prelude::*;

verus! {

/// The left and the right binding power of a binary operator. The right one
/// is the greater: operators of one level group to the left.
pub open spec fn binding_power_of(kind: TokenKind) -> Option<(u8, u8)> {
    match kind {
        TokenKind::Plus | TokenKind::Minus => Some((1u8, 2u8)),
        TokenKind::Star | TokenKind::Slash => Some((3u8, 4u8)),
        _ => None,
    }
}

impl TokenKind {
    /// The binding powers of the kind, if it is a binary operator.
    pub fn binary_binding_power(&self) -> (r: Option<(u8, u8)>)
        ensures
            r == binding_power_of(*self),
    {
        match self {
            TokenKind::Plus | TokenKind::Minus => Some((1, 2)),
            TokenKind::Star | TokenKind::Slash => Some((3, 4)),
            _ => None,
        }
    }
}

/// The number that a run of decimal digits names.
pub open spec fn decimal_value(digits: Seq<u8>) -> nat
    decreases digits.len(),
{
    if digits.len() == 0 {
        0
    } else {
        decimal_value(digits.drop_last()) * 10 + (digits.last() - 0x30) as nat
    }
}

/// Whether all bytes are decimal digits.
pub open spec fn all_digits(digits: Seq<u8>) -> bool {
    forall|i: int| 0 <= i < digits.len() ==> is_digit(#[trigger] digits[i])
}

/// The machine integer that a numeral names: it has one where it is a run
/// of digits, not empty, whose number fits.
pub open spec fn integer_value(digits: Seq<u8>) -> Option<usize> {
    if digits.len() > 0 && all_digits(digits) && decimal_value(digits) <= usize::MAX {
        Some(decimal_value(digits) as usize)
    } else {
        None
    }
}

/// A numeral names at least what any of its prefixes names.
pub proof fn lemma_decimal_prefix(digits: Seq<u8>, k: int)
    requires
        all_digits(digits),
        0 <= k <= digits.len(),
    ensures
        decimal_value(digits.subrange(0, k)) <= decimal_value(digits),
    decreases digits.len(),
{
    if k < digits.len() {
        let shorter = digits.drop_last();
        assert(shorter.subrange(0, k) =~= digits.subrange(0, k));
        lemma_decimal_prefix(shorter, k);
    } else {
        assert(digits.subrange(0, k) =~= digits);
    }
}

/// Reads the numeral between two offsets of the text.
pub fn parse_integer(input: &[u8], start: usize, end: usize) -> (r: Option<usize>)
    requires
        start <= end <= input.len(),
    ensures
        r == integer_value(input@.subrange(start as int, end as int)),
{
    let ghost numeral = input@.subrange(start as int, end as int);
    if start == end {
        return None;
    }
    let mut value: usize = 0;
    let mut i: usize = start;
    while i < end
        invariant
            start <= i <= end <= input.len(),
            numeral == input@.subrange(start as int, end as int),
            all_digits(numeral.subrange(0, i - start)),
            value == decimal_value(numeral.subrange(0, i - start)),
        decreases end - i,
    {
        let b: u8 = input[i];
        assert(numeral[i - start] == b);
        if b < 0x30 || b > 0x39 {
            return None;
        }
        proof {
            assert(numeral.subrange(0, i + 1 - start).drop_last() =~= numeral.subrange(
                0,
                i - start,
            ));
            assert(numeral.subrange(0, i + 1 - start).last() == b);
            if all_digits(numeral) {
                lemma_decimal_prefix(numeral, i + 1 - start);
            }
        }
        let digit: usize = (b - 0x30) as usize;
        let shifted: usize = match value.checked_mul(10) {
            Some(v) => v,
            None => {
                return None;
            },
        };
        value = match shifted.checked_add(digit) {
            Some(v) => v,
            None => {
                return None;
            },
        };
        i += 1;
    }
    assert(numeral.subrange(0, end - start) =~= numeral);
    Some(value)
}

/// What a primary at the front of `tokens` parses to, and the tokens that
/// are left after it: a literal, an identifier, or an expression in
/// parentheses. Any other token there is an error.
pub open spec fn primary_of(s: Seq<u8>, tokens: Seq<Token>) -> Result<
    (ExprView, Seq<Token>),
    ParseError,
>
    decreases tokens.len(), 0int,
{
    let token = front(s, tokens);
    let start = token.span.start as int;
    let end = token.span.end as int;
    match token.kind {
        TokenKind::Int => match integer_value(s.subrange(start, end)) {
            Some(value) => Ok((ExprView::Literal(LiteralView::Int(value)), tokens.drop_first())),
            None => Err(ParseError::InvalidNumber { found: token }),
        },
        TokenKind::Float => Ok(
            (ExprView::Literal(LiteralView::Float(text_between(s, start, end))), tokens.drop_first()),
        ),
        TokenKind::String => Ok(
            (
                ExprView::Literal(LiteralView::String(text_between(s, start + 1, end - 1))),
                tokens.drop_first(),
            ),
        ),
        TokenKind::Identifier => Ok(
            (ExprView::Ident(text_between(s, start, end)), tokens.drop_first()),
        ),
        TokenKind::LParen => match expression_of(s, tokens.drop_first(), 0) {
            Ok((inner, after)) => match consumed(s, after, TokenKind::RParen) {
                Ok(_) => Ok((inner, after.drop_first())),
                Err(error) => Err(error),
            },
            Err(error) => Err(error),
        },
        _ => Err(ParseError::UnexpectedToken { found: token }),
    }
}

/// What an expression at the front of `tokens` parses to under the minimum
/// binding power `min_bp`, and the tokens that are left after it: a primary,
/// extended by the operators that follow it.
///
/// A primary consumes at least one token (`lemma_parse_consumes`), so the
/// test on the lengths always holds: it is what shows that the recursion
/// ends.
pub open spec fn expression_of(s: Seq<u8>, tokens: Seq<Token>, min_bp: u8) -> Result<
    (ExprView, Seq<Token>),
    ParseError,
>
    decreases tokens.len(), 1int,
{
    match primary_of(s, tokens) {
        Ok((lhs, rest)) => if rest.len() < tokens.len() {
            operators_of(s, lhs, rest, min_bp)
        } else {
            Err(ParseError::UnexpectedToken { found: front(s, tokens) })
        },
        Err(error) => Err(error),
    }
}

/// What the operand `lhs` followed by `tokens` parses to under the minimum
/// binding power `min_bp`. The end of the stream or a `)` ends the
/// expression, and so does an operator whose left binding power is below
/// `min_bp`: it belongs to an enclosing expression. Any other operator takes
/// as its right operand the expression after it under its right binding
/// power, and the node of the two is the operand for what follows. A token
/// that is none of these is an error.
///
/// The right operand consumes at least one token, so the test on the lengths
/// always holds here too.
pub open spec fn operators_of(s: Seq<u8>, lhs: ExprView, tokens: Seq<Token>, min_bp: u8) -> Result<
    (ExprView, Seq<Token>),
    ParseError,
>
    decreases tokens.len(), 2int,
{
    let token = front(s, tokens);
    match token.kind {
        TokenKind::Eof | TokenKind::RParen => Ok((lhs, tokens)),
        TokenKind::Plus | TokenKind::Minus | TokenKind::Star | TokenKind::Slash => {
            let (left_bp, right_bp) = binding_power_of(token.kind).unwrap();
            if min_bp > left_bp {
                Ok((lhs, tokens))
            } else {
                match expression_of(s, tokens.drop_first(), right_bp) {
                    Ok((rhs, rest)) => if rest.len() < tokens.len() {
                        operators_of(
                            s,
                            ExprView::Binary {
                                op: token.kind,
                                lhs: Box::new(lhs),
                                rhs: Box::new(rhs),
                            },
                            rest,
                            min_bp,
                        )
                    } else {
                        Err(ParseError::UnknownOperator { found: token })
                    },
                    Err(error) => Err(error),
                }
            }
        },
        _ => Err(ParseError::UnknownOperator { found: token }),
    }
}

/// Whether `rest` is what is left of `tokens` after some of them were taken
/// from the front.
pub open spec fn left_of(rest: Seq<Token>, tokens: Seq<Token>) -> bool {
    rest.len() <= tokens.len() && rest == tokens.skip(tokens.len() - rest.len())
}

/// Whether an expression under the minimum binding power `min_bp` ends
/// before `rest`: at the end of the stream, at a `)`, or at an operator that
/// binds less than `min_bp`.
pub open spec fn ends_before(s: Seq<u8>, rest: Seq<Token>, min_bp: u8) -> bool {
    let kind = front(s, rest).kind;
    ||| kind == TokenKind::Eof
    ||| kind == TokenKind::RParen
    ||| binding_power_of(kind) is Some && min_bp > binding_power_of(kind).unwrap().0
}

/// A primary consumes at least one token, and only from the front.
pub proof fn lemma_primary_consumes(s: Seq<u8>, tokens: Seq<Token>)
    ensures
        primary_of(s, tokens) matches Ok((_, rest)) ==> rest.len() < tokens.len() && left_of(
            rest,
            tokens,
        ),
    decreases tokens.len(), 0int,
{
    if tokens.len() > 0 {
        assert(tokens.drop_first() =~= tokens.skip(1));
        if front(s, tokens).kind == TokenKind::LParen {
            lemma_parse_consumes(s, tokens.drop_first(), 0);
            match expression_of(s, tokens.drop_first(), 0) {
                Ok((_, after)) => {
                    if after.len() > 0 {
                        assert(after.drop_first() =~= tokens.skip(
                            tokens.len() - after.drop_first().len(),
                        ));
                    }
                },
                Err(_) => {},
            }
        }
    }
}

/// An expression consumes at least one token, and only from the front; it
/// ends where `ends_before` says; and it is its primary extended by the
/// operators that follow: the test on the lengths in `expression_of` never
/// fails.
pub proof fn lemma_parse_consumes(s: Seq<u8>, tokens: Seq<Token>, min_bp: u8)
    ensures
        expression_of(s, tokens, min_bp) matches Ok((_, rest)) ==> rest.len() < tokens.len()
            && left_of(rest, tokens) && ends_before(s, rest, min_bp),
        expression_of(s, tokens, min_bp) == (match primary_of(s, tokens) {
            Ok((lhs, rest)) => operators_of(s, lhs, rest, min_bp),
            Err(error) => Err(error),
        }),
    decreases tokens.len(), 1int,
{
    lemma_primary_consumes(s, tokens);
    match primary_of(s, tokens) {
        Ok((lhs, rest)) => {
            lemma_operators_consume(s, lhs, rest, min_bp);
            match operators_of(s, lhs, rest, min_bp) {
                Ok((_, after)) => {
                    assert(after =~= tokens.skip(tokens.len() - after.len()));
                },
                Err(_) => {},
            }
        },
        Err(_) => {},
    }
}

/// The operators after an operand consume only from the front and end
/// where `ends_before` says, and an operator that is taken has as its right
/// operand the expression after it: the test on the lengths in
/// `operators_of` never fails.
pub proof fn lemma_operators_consume(s: Seq<u8>, lhs: ExprView, tokens: Seq<Token>, min_bp: u8)
    ensures
        operators_of(s, lhs, tokens, min_bp) matches Ok((_, rest)) ==> left_of(rest, tokens)
            && ends_before(s, rest, min_bp),
        tokens.len() > 0 && binding_power_of(tokens[0].kind) is Some && min_bp <= binding_power_of(
            tokens[0].kind,
        ).unwrap().0 ==> operators_of(s, lhs, tokens, min_bp) == (match expression_of(
            s,
            tokens.drop_first(),
            binding_power_of(tokens[0].kind).unwrap().1,
        ) {
            Ok((rhs, rest)) => operators_of(
                s,
                ExprView::Binary { op: tokens[0].kind, lhs: Box::new(lhs), rhs: Box::new(rhs) },
                rest,
                min_bp,
            ),
            Err(error) => Err(error),
        }),
    decreases tokens.len(), 2int,
{
    let token = front(s, tokens);
    assert(tokens =~= tokens.skip(0));
    if tokens.len() > 0 && binding_power_of(token.kind) is Some {
        let (left_bp, right_bp) = binding_power_of(token.kind).unwrap();
        if min_bp <= left_bp {
            assert(tokens.drop_first() =~= tokens.skip(1));
            lemma_parse_consumes(s, tokens.drop_first(), right_bp);
            match expression_of(s, tokens.drop_first(), right_bp) {
                Ok((rhs, rest)) => {
                    let node = ExprView::Binary {
                        op: token.kind,
                        lhs: Box::new(lhs),
                        rhs: Box::new(rhs),
                    };
                    lemma_operators_consume(s, node, rest, min_bp);
                    match operators_of(s, node, rest, min_bp) {
                        Ok((_, after)) => {
                            assert(after =~= tokens.skip(tokens.len() - after.len()));
                        },
                        Err(_) => {},
                    }
                },
                Err(_) => {},
            }
        }
    }
}

/// The expression that `token` is by itself, where it is a literal or an
/// identifier.
pub open spec fn atom_of(s: Seq<u8>, token: Token) -> Option<ExprView> {
    if token.kind == TokenKind::LParen {
        None
    } else {
        match primary_of(s, seq![token]) {
            Ok((expr, _)) => Some(expr),
            Err(_) => None,
        }
    }
}

/// The binary node of `op` over two operands.
pub open spec fn node(op: TokenKind, lhs: ExprView, rhs: ExprView) -> ExprView {
    ExprView::Binary { op, lhs: Box::new(lhs), rhs: Box::new(rhs) }
}

/// A literal or an identifier at the front of a stream is a primary, and
/// leaves the rest of the stream.
pub proof fn lemma_atom_is_primary(s: Seq<u8>, token: Token, rest: Seq<Token>, min_bp: u8)
    requires
        atom_of(s, token) is Some,
    ensures
        primary_of(s, seq![token] + rest) == Ok::<(ExprView, Seq<Token>), ParseError>(
            (atom_of(s, token).unwrap(), rest),
        ),
        expression_of(s, seq![token] + rest, min_bp) == operators_of(
            s,
            atom_of(s, token).unwrap(),
            rest,
            min_bp,
        ),
{
    let tokens = seq![token] + rest;
    assert(tokens[0] == token);
    assert(seq![token][0] == token);
    assert(tokens.drop_first() =~= rest);
    lemma_parse_consumes(s, tokens, min_bp);
}

/// Precedence and associativity: of three operands joined by two operators,
/// the first two are grouped where the first operator binds as tight as the
/// second or tighter, and the last two where the second binds tighter. So
/// `*` and `/` bind tighter than `+` and `-`, and operators of one level
/// group to the left.
pub proof fn lemma_two_operators_group(
    s: Seq<u8>,
    a: Token,
    first: Token,
    b: Token,
    second: Token,
    c: Token,
)
    requires
        atom_of(s, a) is Some,
        atom_of(s, b) is Some,
        atom_of(s, c) is Some,
        binding_power_of(first.kind) is Some,
        binding_power_of(second.kind) is Some,
    ensures
        expression_of(s, seq![a, first, b, second, c], 0) == Ok::<
            (ExprView, Seq<Token>),
            ParseError,
        >(
            (
                if binding_power_of(first.kind).unwrap().0 >= binding_power_of(
                    second.kind,
                ).unwrap().0 {
                    node(
                        second.kind,
                        node(first.kind, atom_of(s, a).unwrap(), atom_of(s, b).unwrap()),
                        atom_of(s, c).unwrap(),
                    )
                } else {
                    node(
                        first.kind,
                        atom_of(s, a).unwrap(),
                        node(second.kind, atom_of(s, b).unwrap(), atom_of(s, c).unwrap()),
                    )
                },
                Seq::<Token>::empty(),
            ),
        ),
{
    let ea = atom_of(s, a).unwrap();
    let eb = atom_of(s, b).unwrap();
    let ec = atom_of(s, c).unwrap();
    let t0 = Seq::<Token>::empty();
    let t1 = seq![c];
    let t2 = seq![second, c];
    let t3 = seq![b, second, c];
    let t4 = seq![first, b, second, c];
    let t5 = seq![a, first, b, second, c];
    assert(t5 =~= seq![a] + t4);
    assert(t3 =~= seq![b] + t2);
    assert(t1 =~= seq![c] + t0);
    assert(t4.drop_first() =~= t3);
    assert(t2.drop_first() =~= t1);
    let right_of_first = binding_power_of(first.kind).unwrap().1;
    let right_of_second = binding_power_of(second.kind).unwrap().1;
    lemma_atom_is_primary(s, a, t4, 0);
    lemma_atom_is_primary(s, b, t2, right_of_first);
    lemma_atom_is_primary(s, c, t0, right_of_second);
    lemma_operators_consume(s, ea, t4, 0);
    assert(operators_of(s, ec, t0, right_of_second) == Ok::<(ExprView, Seq<Token>), ParseError>(
        (ec, t0),
    ));
    if binding_power_of(first.kind).unwrap().0 >= binding_power_of(second.kind).unwrap().0 {
        assert(operators_of(s, eb, t2, right_of_first) == Ok::<
            (ExprView, Seq<Token>),
            ParseError,
        >((eb, t2)));
        let inner = node(first.kind, ea, eb);
        lemma_operators_consume(s, inner, t2, 0);
        assert(operators_of(s, node(second.kind, inner, ec), t0, 0) == Ok::<
            (ExprView, Seq<Token>),
            ParseError,
        >((node(second.kind, inner, ec), t0)));
    } else {
        lemma_operators_consume(s, eb, t2, right_of_first);
        let inner = node(second.kind, eb, ec);
        assert(operators_of(s, inner, t0, right_of_first) == Ok::<
            (ExprView, Seq<Token>),
            ParseError,
        >((inner, t0)));
        assert(operators_of(s, node(first.kind, ea, inner), t0, 0) == Ok::<
            (ExprView, Seq<Token>),
            ParseError,
        >((node(first.kind, ea, inner), t0)));
    }
}

/// Grouping overrides precedence: two operands joined by an operator in
/// parentheses are one operand of the operator that follows, however tight
/// either binds.
pub proof fn lemma_group_is_an_operand(
    s: Seq<u8>,
    opening: Token,
    a: Token,
    first: Token,
    b: Token,
    closing: Token,
    second: Token,
    c: Token,
)
    requires
        opening.kind == TokenKind::LParen,
        closing.kind == TokenKind::RParen,
        atom_of(s, a) is Some,
        atom_of(s, b) is Some,
        atom_of(s, c) is Some,
        binding_power_of(first.kind) is Some,
        binding_power_of(second.kind) is Some,
    ensures
        expression_of(s, seq![opening, a, first, b, closing, second, c], 0) == Ok::<
            (ExprView, Seq<Token>),
            ParseError,
        >(
            (
                node(
                    second.kind,
                    node(first.kind, atom_of(s, a).unwrap(), atom_of(s, b).unwrap()),
                    atom_of(s, c).unwrap(),
                ),
                Seq::<Token>::empty(),
            ),
        ),
{
    let ea = atom_of(s, a).unwrap();
    let eb = atom_of(s, b).unwrap();
    let ec = atom_of(s, c).unwrap();
    let t0 = Seq::<Token>::empty();
    let t1 = seq![c];
    let t2 = seq![second, c];
    let t3 = seq![closing, second, c];
    let t4 = seq![b, closing, second, c];
    let t5 = seq![first, b, closing, second, c];
    let t6 = seq![a, first, b, closing, second, c];
    let t7 = seq![opening, a, first, b, closing, second, c];
    assert(t7.drop_first() =~= t6);
    assert(t6 =~= seq![a] + t5);
    assert(t5.drop_first() =~= t4);
    assert(t4 =~= seq![b] + t3);
    assert(t3.drop_first() =~= t2);
    assert(t2.drop_first() =~= t1);
    assert(t1 =~= seq![c] + t0);
    let right_of_first = binding_power_of(first.kind).unwrap().1;
    let right_of_second = binding_power_of(second.kind).unwrap().1;
    let inner = node(first.kind, ea, eb);
    lemma_atom_is_primary(s, a, t5, 0);
    lemma_atom_is_primary(s, b, t3, right_of_first);
    lemma_atom_is_primary(s, c, t0, right_of_second);
    lemma_operators_consume(s, ea, t5, 0);
    assert(operators_of(s, eb, t3, right_of_first) == Ok::<(ExprView, Seq<Token>), ParseError>(
        (eb, t3),
    ));
    assert(operators_of(s, inner, t3, 0) == Ok::<(ExprView, Seq<Token>), ParseError>((inner, t3)));
    assert(expression_of(s, t6, 0) == Ok::<(ExprView, Seq<Token>), ParseError>((inner, t3)));
    assert(primary_of(s, t7) == Ok::<(ExprView, Seq<Token>), ParseError>((inner, t2)));
    lemma_parse_consumes(s, t7, 0);
    lemma_operators_consume(s, inner, t2, 0);
    assert(operators_of(s, ec, t0, right_of_second) == Ok::<(ExprView, Seq<Token>), ParseError>(
        (ec, t0),
    ));
    assert(operators_of(s, node(second.kind, inner, ec), t0, 0) == Ok::<
        (ExprView, Seq<Token>),
        ParseError,
    >((node(second.kind, inner, ec), t0)));
}

/// Whether the result `r` of a parse, with `rest` left in the stream, is
/// what `expected` says.
pub open spec fn parsed_as(
    r: Result<Expr, ParseError>,
    rest: Seq<Token>,
    expected: Result<(ExprView, Seq<Token>), ParseError>,
) -> bool {
    match expected {
        Ok((expr, after)) => r matches Ok(found) && found@ == expr && rest == after,
        Err(error) => r matches Err(found) && found == error,
    }
}

impl<'a> Parser<'a> {
    /// Parses a primary: a literal, an identifier, or an expression in
    /// parentheses.
    pub fn parse_primary(&mut self) -> (r: Result<Expr, ParseError>)
        requires
            old(self).wf(),
        ensures
            final(self).wf(),
            final(self).source() == old(self).source(),
            parsed_as(r, final(self).remaining(), primary_of(old(self).bytes(), old(self).remaining())),
            r is Ok ==> final(self).remaining().len() < old(self).remaining().len(),
        decreases old(self).remaining().len(), 0int,
    {
        let token = self.peek_token();
        match token.kind {
            TokenKind::Int | TokenKind::Float | TokenKind::String | TokenKind::Identifier => {
                let _ = self.next();
                proof {
                    let s = self.bytes();
                    vstd::utf8::encode_utf8_valid_utf8(self.source());
                    lemma_ascii_boundaries(s, token.span.start as int);
                    lemma_ascii_boundaries(s, token.span.end - 1);
                }
                match token.kind {
                    TokenKind::Int => {
                        match parse_integer(self.input_bytes(), token.span.start, token.span.end) {
                            Some(value) => Ok(integer(value)),
                            None => Err(ParseError::InvalidNumber { found: token }),
                        }
                    },
                    TokenKind::Float => Ok(float(self.text(token))),
                    TokenKind::String => Ok(
                        string(self.slice(token.span.start + 1, token.span.end - 1)),
                    ),
                    _ => Ok(ident(self.text(token))),
                }
            },
            TokenKind::LParen => {
                let _ = self.next();
                let inner = match self.parse_expression(0) {
                    Ok(expr) => expr,
                    Err(error) => {
                        return Err(error);
                    },
                };
                match self.consume(TokenKind::RParen) {
                    Ok(_) => Ok(inner),
                    Err(error) => Err(error),
                }
            },
            _ => Err(ParseError::UnexpectedToken { found: token }),
        }
    }

    /// Parses one expression under the minimum binding power
    /// `binding_power`, 0 for a whole expression. On success the stream
    /// stands at the token that ended the expression.
    pub fn parse_expression(&mut self, binding_power: u8) -> (r: Result<Expr, ParseError>)
        requires
            old(self).wf(),
        ensures
            final(self).wf(),
            final(self).source() == old(self).source(),
            parsed_as(
                r,
                final(self).remaining(),
                expression_of(old(self).bytes(), old(self).remaining(), binding_power),
            ),
            r is Ok ==> final(self).remaining().len() < old(self).remaining().len(),
        decreases old(self).remaining().len(), 1int,
    {
        let mut lhs = match self.parse_primary() {
            Ok(expr) => expr,
            Err(error) => {
                return Err(error);
            },
        };
        loop
            invariant
                self.wf(),
                self.source() == old(self).source(),
                self.remaining().len() < old(self).remaining().len(),
                operators_of(self.bytes(), lhs@, self.remaining(), binding_power) == expression_of(
                    old(self).bytes(),
                    old(self).remaining(),
                    binding_power,
                ),
            decreases self.remaining().len(),
        {
            let token = self.peek_token();
            let op = token.kind;
            match op {
                TokenKind::Plus | TokenKind::Minus | TokenKind::Star | TokenKind::Slash => {},
                TokenKind::Eof | TokenKind::RParen => {
                    return Ok(lhs);
                },
                _ => {
                    return Err(ParseError::UnknownOperator { found: token });
                },
            }
            let (left_bp, right_bp) = match op.binary_binding_power() {
                Some(powers) => powers,
                None => {
                    return Ok(lhs);
                },
            };
            if binding_power > left_bp {
                return Ok(lhs);
            }
            match self.consume(op) {
                Ok(_) => {},
                Err(error) => {
                    return Err(error);
                },
            }
            let rhs = match self.parse_expression(right_bp) {
                Ok(expr) => expr,
                Err(error) => {
                    return Err(error);
                },
            };
            lhs = binop(lhs, op, rhs);
        }
    }
}

} // verus!
