//! The shared vocabulary of the lexer and the parser: kinds, spans, tokens.

use vstd::prelude::*;
use vstd::string::StringSliceAdditionalSpecFns;
use vstd::utf8::{
    decode_utf8, encode_utf8_decode_utf8, encode_utf8_valid_utf8, is_char_boundary,
    is_char_boundary_iff_is_leading_byte, is_char_boundary_start_end_of_seq, valid_utf8,
    valid_utf8_split,
};

verus! {

/// The closed set of lexical categories.
#[derive(Debug, Copy, Clone, PartialEq, Eq, Structural)]
pub enum TokenKind {
    Plus,
    Minus,
    Star,
    Slash,
    Equals,
    Semicolon,
    LParen,
    RParen,
    Int,
    Float,
    String,
    Identifier,
    KeywordLet,
    Whitespace,
    Eof,
    Invalid,
}

/// A half-open range of byte offsets into the source text.
#[derive(Debug, Copy, Clone, PartialEq, Eq, Structural)]
pub struct Span {
    pub start: usize,
    pub end: usize,
}

/// A classified, located unit of source text.
#[derive(Debug, Copy, Clone, PartialEq, Eq, Structural)]
pub struct Token {
    pub kind: TokenKind,
    pub span: Span,
}

/// How a kind is written in messages: an operator or a delimiter as
/// itself, a parenthesis or the space in quotes, any other kind by a word.
pub open spec fn kind_name(kind: TokenKind) -> Seq<char> {
    match kind {
        TokenKind::Plus => "+"@,
        TokenKind::Minus => "-"@,
        TokenKind::Star => "*"@,
        TokenKind::Slash => "/"@,
        TokenKind::Equals => "="@,
        TokenKind::Semicolon => ";"@,
        TokenKind::LParen => "'('"@,
        TokenKind::RParen => "')'"@,
        TokenKind::Int => "int"@,
        TokenKind::Float => "float"@,
        TokenKind::String => "string"@,
        TokenKind::Identifier => "ident"@,
        TokenKind::KeywordLet => "let"@,
        TokenKind::Whitespace => "' '"@,
        TokenKind::Eof => "EOF"@,
        TokenKind::Invalid => "invalid"@,
    }
}

impl TokenKind {
    /// The kind as it is written in messages.
    pub fn name(&self) -> (r: &'static str)
        ensures
            r@ == kind_name(*self),
    {
        match self {
            TokenKind::Plus => "+",
            TokenKind::Minus => "-",
            TokenKind::Star => "*",
            TokenKind::Slash => "/",
            TokenKind::Equals => "=",
            TokenKind::Semicolon => ";",
            TokenKind::LParen => "'('",
            TokenKind::RParen => "')'",
            TokenKind::Int => "int",
            TokenKind::Float => "float",
            TokenKind::String => "string",
            TokenKind::Identifier => "ident",
            TokenKind::KeywordLet => "let",
            TokenKind::Whitespace => "' '",
            TokenKind::Eof => "EOF",
            TokenKind::Invalid => "invalid",
        }
    }
}

/// The characters that the bytes of `s` from `start` to `end` encode.
pub open spec fn text_between(s: Seq<u8>, start: int, end: int) -> Seq<char> {
    decode_utf8(s.subrange(start, end))
}

/// Whether `start` and `end` delimit a range of whole characters of `s`.
pub open spec fn on_char_boundaries(s: Seq<u8>, start: int, end: int) -> bool {
    &&& 0 <= start <= end <= s.len()
    &&& is_char_boundary(s, start)
    &&& is_char_boundary(s, end)
}

/// The number of bytes of the character whose first byte is `b`.
pub open spec fn char_width(b: u8) -> int {
    if b < 0x80 {
        1
    } else if b < 0xe0 {
        2
    } else if b < 0xf0 {
        3
    } else {
        4
    }
}

/// In well-formed UTF-8 the character that starts at an offset ends inside
/// the text, where the next one starts or the text ends.
pub proof fn lemma_boundary_after(s: Seq<u8>, i: int)
    requires
        valid_utf8(s),
        0 <= i < s.len(),
        is_char_boundary(s, i),
    ensures
        i + char_width(s[i]) <= s.len(),
        is_char_boundary(s, i + char_width(s[i])),
{
    is_char_boundary_iff_is_leading_byte(s, i);
    valid_utf8_split(s, i);
    let tail = s.subrange(i, s.len() as int);
    assert(tail[0] == s[i]);
    assert(vstd::utf8::valid_first_scalar(tail));
    let next = i + char_width(s[i]);
    let after = vstd::utf8::pop_first_scalar(tail);
    assert(after =~= s.subrange(next, s.len() as int));
    assert(valid_utf8(after));
    if next == s.len() {
        is_char_boundary_start_end_of_seq(s);
    } else {
        assert(after[0] == s[next]);
        assert(vstd::utf8::valid_first_scalar(after));
        is_char_boundary_iff_is_leading_byte(s, next);
    }
}

/// In well-formed UTF-8 an ASCII byte is a whole character: a character
/// starts at its offset, and the offset after it starts the next one or ends
/// the text.
pub proof fn lemma_ascii_boundaries(s: Seq<u8>, i: int)
    requires
        valid_utf8(s),
        0 <= i < s.len(),
        s[i] < 0x80,
    ensures
        is_char_boundary(s, i),
        is_char_boundary(s, i + 1),
{
    is_char_boundary_iff_is_leading_byte(s, i);
    lemma_boundary_after(s, i);
}

/// The part of `input` between two byte offsets that lie on character
/// boundaries.
pub fn slice_text<'a>(input: &'a str, start: usize, end: usize) -> (r: &'a str)
    requires
        on_char_boundaries(input.spec_bytes(), start as int, end as int),
    ensures
        r.spec_bytes() == input.spec_bytes().subrange(start as int, end as int),
        r@ == text_between(input.spec_bytes(), start as int, end as int),
{
    proof {
        encode_utf8_valid_utf8(input@);
    }
    let (head, _) = input.split_at(end);
    proof {
        encode_utf8_valid_utf8(head@);
        if start == end {
            is_char_boundary_start_end_of_seq(head.spec_bytes());
        } else {
            is_char_boundary_iff_is_leading_byte(input.spec_bytes(), start as int);
            is_char_boundary_iff_is_leading_byte(head.spec_bytes(), start as int);
        }
    }
    let (_, middle) = head.split_at(start);
    proof {
        assert(middle.spec_bytes() =~= input.spec_bytes().subrange(start as int, end as int));
        encode_utf8_decode_utf8(middle@);
    }
    middle
}

impl Token {
    /// The part of `input` that the token's span names.
    pub fn text<'a>(&self, input: &'a str) -> (r: &'a str)
        requires
            on_char_boundaries(input.spec_bytes(), self.span.start as int, self.span.end as int),
        ensures
            r@ == text_between(input.spec_bytes(), self.span.start as int, self.span.end as int),
    {
        slice_text(input, self.span.start, self.span.end)
    }
}

} // verus!
