//! The parser: a token stream without whitespace, one token of lookahead,
//! and precedence climbing over it.

pub mod ast;
pub mod expressions;
pub mod reading;

use crate::lexer::{tokens_from, well_spanned, Lexer};
use crate::token::{on_char_boundaries, slice_text, text_between, Span, Token, TokenKind};
use ast::Expr;
use expressions::expression_of;
use vstd::prelude::*;
use vstd::string::StringSliceAdditionalSpecFns;

verus! {

/// Why a parse was given up.
#[derive(Debug, Copy, Clone, PartialEq, Eq, Structural)]
pub enum ParseError {
    /// A token stands where an expression has to start, and starts none.
    UnexpectedToken { found: Token },
    /// A token of one kind was to be consumed, and another was found.
    Mismatch { expected: TokenKind, found: Token },
    /// A token stands after an operand that neither is a binary operator
    /// nor ends the expression.
    UnknownOperator { found: Token },
    /// The digits of an integer literal name no machine integer.
    InvalidNumber { found: Token },
}

/// Whether a token reaches the parser: every token does but whitespace.
pub open spec fn is_significant(token: Token) -> bool {
    token.kind != TokenKind::Whitespace
}

/// The test of `is_significant`, as a value.
pub open spec fn significant_only() -> spec_fn(Token) -> bool {
    |token: Token| is_significant(token)
}

/// The tokens of a sequence that are not whitespace, in their order.
pub open spec fn significant(tokens: Seq<Token>) -> Seq<Token> {
    tokens.filter(significant_only())
}

/// Filtering goes token by token: the first token stays unless it is
/// whitespace, and the others are filtered in turn.
pub proof fn lemma_significant_step(tokens: Seq<Token>)
    ensures
        tokens.len() == 0 ==> significant(tokens) == Seq::<Token>::empty(),
        tokens.len() > 0 ==> significant(tokens) == (if is_significant(tokens[0]) {
            seq![tokens[0]] + significant(tokens.drop_first())
        } else {
            significant(tokens.drop_first())
        }),
{
    reveal_with_fuel(Seq::filter, 2);
    if tokens.len() > 0 {
        let head = seq![tokens[0]];
        assert(tokens =~= head + tokens.drop_first());
        assert(head.drop_last() =~= Seq::<Token>::empty());
        assert(head.filter(significant_only()) =~= if is_significant(tokens[0]) {
            head
        } else {
            Seq::empty()
        });
        Seq::filter_distributes_over_add(head, tokens.drop_first(), significant_only());
        assert(Seq::<Token>::empty() + significant(tokens.drop_first()) =~= significant(
            tokens.drop_first(),
        ));
    }
}

/// The token at the front of a stream over the text `s`: its first token, or
/// `Eof` at the end of the text where the stream is exhausted.
pub open spec fn front(s: Seq<u8>, tokens: Seq<Token>) -> Token {
    if tokens.len() > 0 {
        tokens[0]
    } else {
        Token { kind: TokenKind::Eof, span: Span { start: s.len() as usize, end: s.len() as usize } }
    }
}

/// The lexer's tokens with the whitespace left out.
pub struct TokenIter<'a> {
    lexer: Lexer<'a>,
}

impl<'a> TokenIter<'a> {
    /// The lexer below is well formed.
    pub closed spec fn wf(&self) -> bool {
        self.lexer.wf()
    }

    /// The characters of the text that is read.
    pub closed spec fn source(&self) -> Seq<char> {
        self.lexer.source()
    }

    /// The tokens that are still to come.
    pub closed spec fn pending(&self) -> Seq<Token> {
        significant(self.lexer.pending())
    }

    /// The stream of the tokens of `input` that are not whitespace.
    pub fn new(input: &'a str) -> (r: Self)
        ensures
            r.wf(),
            r.source() == input@,
            r.pending() == significant(tokens_from(input.spec_bytes(), 0)),
    {
        Self { lexer: crate::lexer::new(input) }
    }

    /// Yields the next token that is not whitespace, and nothing once `Eof`
    /// has been yielded.
    pub fn next(&mut self) -> (r: Option<Token>)
        requires
            old(self).wf(),
        ensures
            final(self).wf(),
            final(self).source() == old(self).source(),
            r is None <==> old(self).pending().len() == 0,
            r is None ==> final(self).pending() == old(self).pending(),
            r is Some ==> r.unwrap() == old(self).pending()[0]
                && final(self).pending() == old(self).pending().drop_first()
                && r.unwrap().kind != TokenKind::Whitespace
                && well_spanned(vstd::utf8::encode_utf8(old(self).source()), r.unwrap()),
    {
        loop
            invariant
                self.lexer.wf(),
                self.lexer.source() == old(self).lexer.source(),
                significant(self.lexer.pending()) == significant(old(self).lexer.pending()),
            decreases self.lexer.pending().len(),
        {
            let ghost before = self.lexer.pending();
            proof {
                lemma_significant_step(before);
            }
            match self.lexer.next() {
                None => {
                    return None;
                },
                Some(token) => {
                    if token.kind != TokenKind::Whitespace {
                        assert(significant(before).drop_first() =~= significant(
                            before.drop_first(),
                        ));
                        return Some(token);
                    }
                },
            }
        }
    }
}

/// A parser over one source text: the text, the stream of its tokens, and
/// one token of lookahead.
pub struct Parser<'a> {
    input: &'a str,
    tokens: TokenIter<'a>,
    peeked: Option<Token>,
}

/// A parser at the start of `input`.
pub fn new(input: &str) -> (parser: Parser<'_>)
    ensures
        parser.wf(),
        parser.source() == input@,
        parser.remaining() == significant(tokens_from(input.spec_bytes(), 0)),
{
    Parser { input, tokens: TokenIter::new(input), peeked: None }
}

/// Parses `input` as one expression: the expression at the front of its
/// tokens, whatever follows it.
pub fn parse(input: &str) -> (r: Result<Expr, ParseError>)
    ensures
        match expression_of(
            input.spec_bytes(),
            significant(tokens_from(input.spec_bytes(), 0)),
            0,
        ) {
            Ok((expr, _)) => r matches Ok(found) && found@ == expr,
            Err(error) => r matches Err(found) && found == error,
        },
{
    let mut parser = new(input);
    parser.parse_expression(0)
}

impl<'a> Parser<'a> {
    /// The characters of the text that is parsed.
    pub closed spec fn source(&self) -> Seq<char> {
        self.input@
    }

    /// The bytes of the text that is parsed.
    pub open spec fn bytes(&self) -> Seq<u8> {
        vstd::utf8::encode_utf8(self.source())
    }

    /// The tokens that have not been consumed, the one in the lookahead
    /// first.
    pub closed spec fn remaining(&self) -> Seq<Token> {
        match self.peeked {
            Some(token) => seq![token] + self.tokens.pending(),
            None => self.tokens.pending(),
        }
    }

    /// The stream reads the parser's text, and the token in the lookahead
    /// came from it.
    pub closed spec fn wf(&self) -> bool {
        &&& self.tokens.wf()
        &&& self.tokens.source() == self.input@
        &&& self.peeked is Some ==> well_spanned(self.input.spec_bytes(), self.peeked.unwrap())
    }

    /// The part of the text that the span of `token` names.
    pub fn text(&self, token: Token) -> (r: &'a str)
        requires
            on_char_boundaries(self.bytes(), token.span.start as int, token.span.end as int),
        ensures
            r@ == text_between(self.bytes(), token.span.start as int, token.span.end as int),
    {
        token.text(self.input)
    }

    /// The part of the text between two offsets.
    pub(crate) fn slice(&self, start: usize, end: usize) -> (r: &'a str)
        requires
            on_char_boundaries(self.bytes(), start as int, end as int),
        ensures
            r@ == text_between(self.bytes(), start as int, end as int),
    {
        slice_text(self.input, start, end)
    }

    /// The bytes of the text.
    pub(crate) fn input_bytes(&self) -> (r: &'a [u8])
        ensures
            r@ == self.bytes(),
    {
        self.input.as_bytes()
    }

    /// The next token without consuming it: `Eof` at the end of the text
    /// where the stream is exhausted.
    pub fn peek_token(&mut self) -> (r: Token)
        requires
            old(self).wf(),
        ensures
            final(self).wf(),
            final(self).source() == old(self).source(),
            final(self).remaining() == old(self).remaining(),
            r == front(old(self).bytes(), old(self).remaining()),
            old(self).remaining().len() > 0 ==> well_spanned(old(self).bytes(), r),
    {
        if self.peeked.is_none() {
            let ghost before = self.tokens.pending();
            self.peeked = self.tokens.next();
            assert(before.len() > 0 ==> seq![before[0]] + before.drop_first() =~= before);
        }
        match self.peeked {
            Some(token) => token,
            None => {
                let end: usize = self.input.len();
                Token { kind: TokenKind::Eof, span: Span { start: end, end } }
            },
        }
    }

    /// The kind of the next token without consuming it, `Eof` where the
    /// stream is exhausted.
    pub fn peek(&mut self) -> (r: TokenKind)
        requires
            old(self).wf(),
        ensures
            final(self).wf(),
            final(self).source() == old(self).source(),
            final(self).remaining() == old(self).remaining(),
            r == front(old(self).bytes(), old(self).remaining()).kind,
    {
        self.peek_token().kind
    }

    /// Whether the next token is of `kind`.
    pub fn at(&mut self, kind: TokenKind) -> (r: bool)
        requires
            old(self).wf(),
        ensures
            final(self).wf(),
            final(self).source() == old(self).source(),
            final(self).remaining() == old(self).remaining(),
            r == (front(old(self).bytes(), old(self).remaining()).kind == kind),
    {
        self.peek() == kind
    }

    /// Consumes the next token, if one is left.
    pub fn next(&mut self) -> (r: Option<Token>)
        requires
            old(self).wf(),
        ensures
            final(self).wf(),
            final(self).source() == old(self).source(),
            r is None <==> old(self).remaining().len() == 0,
            r is None ==> final(self).remaining() == old(self).remaining(),
            r is Some ==> r.unwrap() == old(self).remaining()[0]
                && final(self).remaining() == old(self).remaining().drop_first()
                && well_spanned(old(self).bytes(), r.unwrap()),
    {
        let buffered = self.peeked;
        self.peeked = None;
        match buffered {
            Some(token) => {
                assert((seq![token] + self.tokens.pending()).drop_first() =~= self.tokens.pending());
                Some(token)
            },
            None => self.tokens.next(),
        }
    }

    /// Consumes the next token, which is to be of the kind `expected`. The
    /// token is consumed also where it is of another kind, and the mismatch
    /// reported; so is the end of the stream.
    pub fn consume(&mut self, expected: TokenKind) -> (r: Result<TokenKind, ParseError>)
        requires
            old(self).wf(),
        ensures
            final(self).wf(),
            final(self).source() == old(self).source(),
            old(self).remaining().len() > 0
                ==> final(self).remaining() == old(self).remaining().drop_first(),
            old(self).remaining().len() == 0 ==> final(self).remaining() == old(self).remaining(),
            r == consumed(old(self).bytes(), old(self).remaining(), expected),
    {
        let found = self.peek_token();
        let taken = self.next();
        if taken.is_some() && found.kind == expected {
            Ok(expected)
        } else {
            Err(ParseError::Mismatch { expected, found })
        }
    }
}

/// What consuming a token of the kind `expected` from a stream gives: the
/// kind where the stream starts with such a token, else the mismatch with
/// the token found.
pub open spec fn consumed(s: Seq<u8>, tokens: Seq<Token>, expected: TokenKind) -> Result<
    TokenKind,
    ParseError,
> {
    if tokens.len() > 0 && tokens[0].kind == expected {
        Ok(expected)
    } else {
        Err(ParseError::Mismatch { expected, found: front(s, tokens) })
    }
}

} // verus!
