//! The lexer: a pull-based tokenizer over an immutable source text.
//!
//! The text is read as its UTF-8 bytes, and every span is a range of byte
//! offsets. Each step yields one token; the spans of the tokens tile the text.

pub mod rules;

use crate::token::{
    lemma_ascii_boundaries, lemma_boundary_after, on_char_boundaries, Span, Token, TokenKind,
};
use rules::{
    best_rule, lemma_best_rule_bounds, lemma_best_rule_is_no_whitespace, longest_match,
    single_char_kind, unambigious_char,
};
use vstd::prelude::*;
use vstd::string::StringSliceAdditionalSpecFns;
use vstd::utf8::{
    encode_utf8_valid_utf8, is_char_boundary, is_char_boundary_iff_is_leading_byte,
    is_char_boundary_start_end_of_seq, valid_utf8,
};

verus! {

/// The number of bytes of the whitespace character that starts at `pos`, or
/// 0 where none starts there. The whitespace characters are those with the
/// Unicode property `White_Space`: U+0009 to U+000D, U+0020, U+0085, U+00A0,
/// U+1680, U+2000 to U+200A, U+2028, U+2029, U+202F, U+205F and U+3000.
pub open spec fn whitespace_width(s: Seq<u8>, pos: int) -> int {
    if !(0 <= pos < s.len()) {
        0
    } else if (0x09 <= s[pos] <= 0x0d) || s[pos] == 0x20 {
        1
    } else if pos + 1 < s.len() && s[pos] == 0xc2 && (s[pos + 1] == 0x85 || s[pos + 1] == 0xa0) {
        2
    } else if pos + 2 < s.len() && wide_whitespace(s[pos], s[pos + 1], s[pos + 2]) {
        3
    } else {
        0
    }
}

/// The three-byte encodings of whitespace characters.
pub open spec fn wide_whitespace(b0: u8, b1: u8, b2: u8) -> bool {
    ||| b0 == 0xe1 && b1 == 0x9a && b2 == 0x80
    ||| b0 == 0xe2 && b1 == 0x80 && (0x80 <= b2 <= 0x8a || b2 == 0xa8 || b2 == 0xa9 || b2 == 0xaf)
    ||| b0 == 0xe2 && b1 == 0x81 && b2 == 0x9f
    ||| b0 == 0xe3 && b1 == 0x80 && b2 == 0x80
}

/// The offset at which the run of whitespace characters from `pos` ends.
pub open spec fn whitespace_end(s: Seq<u8>, pos: int) -> int
    decreases s.len() - pos,
{
    if whitespace_width(s, pos) > 0 {
        whitespace_end(s, pos + whitespace_width(s, pos))
    } else {
        pos
    }
}

/// The token that is not whitespace at `pos`, if one starts there: a single
/// character token, or the winner of the rule table.
pub open spec fn valid_token_at(s: Seq<u8>, pos: int) -> Option<(TokenKind, int)> {
    if !(0 <= pos < s.len()) {
        None
    } else if single_char_kind(s[pos] as char) is Some {
        Some((single_char_kind(s[pos] as char).unwrap(), 1int))
    } else {
        best_rule(s, pos)
    }
}

/// Whether lexing can go on at `pos`: whitespace or a valid token starts
/// there.
pub open spec fn resumes_at(s: Seq<u8>, pos: int) -> bool {
    whitespace_width(s, pos) > 0 || valid_token_at(s, pos) is Some
}

/// The first offset at or after `pos` at which lexing can go on, or the
/// length of the text where there is none.
pub open spec fn invalid_end(s: Seq<u8>, pos: int) -> int
    decreases s.len() - pos,
{
    if 0 <= pos < s.len() && !resumes_at(s, pos) {
        invalid_end(s, pos + 1)
    } else if pos < s.len() {
        pos
    } else {
        s.len() as int
    }
}

/// Kind and length of the token that starts at `pos`, before the end of the
/// text: a run of whitespace; else a valid token; else the invalid bytes up
/// to the next offset at which lexing can go on.
pub open spec fn token_shape(s: Seq<u8>, pos: int) -> (TokenKind, int) {
    if whitespace_width(s, pos) > 0 {
        (TokenKind::Whitespace, whitespace_end(s, pos) - pos)
    } else if valid_token_at(s, pos) is Some {
        valid_token_at(s, pos).unwrap()
    } else {
        (TokenKind::Invalid, invalid_end(s, pos) - pos)
    }
}

/// The token that a lexer at offset `pos` yields: `Eof` with an empty span at
/// the end of the text, else the token of `token_shape`.
pub open spec fn token_at(s: Seq<u8>, pos: int) -> Token {
    if pos >= s.len() {
        Token { kind: TokenKind::Eof, span: Span { start: pos as usize, end: pos as usize } }
    } else {
        Token {
            kind: token_shape(s, pos).0,
            span: Span { start: pos as usize, end: (pos + token_shape(s, pos).1) as usize },
        }
    }
}

/// All tokens that a lexer at offset `pos` still yields, `Eof` last.
pub open spec fn tokens_from(s: Seq<u8>, pos: int) -> Seq<Token>
    decreases s.len() - pos,
    when 0 <= pos <= s.len()
    via tokens_from_decreases
{
    if pos >= s.len() {
        seq![token_at(s, pos)]
    } else {
        seq![token_at(s, pos)] + tokens_from(s, pos + token_shape(s, pos).1)
    }
}

#[via_fn]
proof fn tokens_from_decreases(s: Seq<u8>, pos: int) {
    if pos < s.len() {
        lemma_token_shape_bounds(s, pos);
    }
}

/// The bytes that the spans of `tokens` name, one after the other.
pub open spec fn spanned_text(s: Seq<u8>, tokens: Seq<Token>) -> Seq<u8>
    decreases tokens.len(),
{
    if tokens.len() == 0 {
        Seq::empty()
    } else {
        s.subrange(tokens[0].span.start as int, tokens[0].span.end as int) + spanned_text(
            s,
            tokens.drop_first(),
        )
    }
}

/// A run of whitespace, and an invalid region, end inside the text.
pub proof fn lemma_scan_bounds(s: Seq<u8>, pos: int)
    requires
        0 <= pos <= s.len(),
    ensures
        pos <= whitespace_end(s, pos) <= s.len(),
        pos <= invalid_end(s, pos) <= s.len(),
        whitespace_width(s, pos) > 0 ==> whitespace_end(s, pos) > pos,
        pos < s.len() && !resumes_at(s, pos) ==> invalid_end(s, pos) > pos,
    decreases s.len() - pos,
{
    if pos < s.len() {
        lemma_scan_bounds(s, pos + 1);
        if whitespace_width(s, pos) > 0 {
            lemma_scan_bounds(s, pos + whitespace_width(s, pos));
        }
    }
}

/// Before the end of the text every token holds at least one byte and ends
/// inside the text: the lexer always advances. No token there is `Eof`, and
/// a valid token is neither whitespace nor invalid.
pub proof fn lemma_token_shape_bounds(s: Seq<u8>, pos: int)
    requires
        0 <= pos < s.len(),
    ensures
        1 <= token_shape(s, pos).1 <= s.len() - pos,
        token_shape(s, pos).0 != TokenKind::Eof,
        valid_token_at(s, pos) is Some ==> valid_token_at(s, pos).unwrap().0
            != TokenKind::Whitespace && valid_token_at(s, pos).unwrap().0 != TokenKind::Invalid,
{
    lemma_scan_bounds(s, pos);
    if best_rule(s, pos) is Some {
        lemma_best_rule_bounds(s, pos);
    }
}

/// Whitespace is coalesced: no whitespace character starts where a run of
/// whitespace ends, so the token after a whitespace token is never one.
pub proof fn lemma_whitespace_is_maximal(s: Seq<u8>, pos: int)
    requires
        0 <= pos <= s.len(),
    ensures
        whitespace_width(s, whitespace_end(s, pos)) == 0,
        pos < s.len() && token_shape(s, pos).0 == TokenKind::Whitespace ==> token_at(
            s,
            pos + token_shape(s, pos).1,
        ).kind != TokenKind::Whitespace,
    decreases s.len() - pos,
{
    if whitespace_width(s, pos) > 0 {
        lemma_whitespace_is_maximal(s, pos + whitespace_width(s, pos));
    }
    lemma_scan_bounds(s, pos);
    if whitespace_end(s, pos) < s.len() {
        lemma_token_shape_bounds(s, whitespace_end(s, pos));
    }
}

/// An invalid region is as small as resynchronizing allows and as large as
/// the invalid text: neither whitespace nor a valid token starts inside it,
/// and it ends at the end of the text or where one of them starts, so the
/// next token is not invalid.
pub proof fn lemma_invalid_is_maximal(s: Seq<u8>, pos: int, i: int)
    requires
        0 <= pos < s.len(),
        token_shape(s, pos).0 == TokenKind::Invalid,
        pos <= i < pos + token_shape(s, pos).1,
    ensures
        !resumes_at(s, i),
        pos + token_shape(s, pos).1 == s.len() || (resumes_at(s, pos + token_shape(s, pos).1)
            && token_shape(s, pos + token_shape(s, pos).1).0 != TokenKind::Invalid),
{
    lemma_token_shape_bounds(s, pos);
    lemma_invalid_scan(s, pos, i);
    let end = invalid_end(s, pos);
    if end < s.len() {
        lemma_token_shape_bounds(s, end);
    }
}

/// Lexing cannot go on before the end of an invalid region, and can at its
/// end unless that is the end of the text.
proof fn lemma_invalid_scan(s: Seq<u8>, pos: int, i: int)
    requires
        0 <= pos <= i < invalid_end(s, pos),
        pos <= s.len(),
    ensures
        !resumes_at(s, i),
        invalid_end(s, pos) <= s.len(),
        invalid_end(s, pos) < s.len() ==> resumes_at(s, invalid_end(s, pos)),
    decreases s.len() - pos,
{
    lemma_scan_bounds(s, pos);
    if pos < s.len() && !resumes_at(s, pos) {
        if i > pos {
            lemma_invalid_scan(s, pos + 1, i);
        } else if pos + 1 < invalid_end(s, pos + 1) {
            lemma_invalid_scan(s, pos + 1, pos + 1);
        } else {
            lemma_scan_bounds(s, pos + 1);
        }
    }
}

/// What holds of the span of every token that the lexer yields: it names
/// whole characters of the text, and that of a literal or an identifier is
/// not empty and starts and ends with an ASCII byte. A string literal holds
/// its two quotes.
pub open spec fn well_spanned(s: Seq<u8>, token: Token) -> bool {
    &&& on_char_boundaries(s, token.span.start as int, token.span.end as int)
    &&& (token.kind == TokenKind::Int || token.kind == TokenKind::Float || token.kind
        == TokenKind::String || token.kind == TokenKind::Identifier) ==> {
        &&& token.span.start < token.span.end
        &&& s[token.span.start as int] < 0x80
        &&& s[token.span.end - 1] < 0x80
    }
    &&& token.kind == TokenKind::String ==> token.span.start + 2 <= token.span.end
}

/// A run of whitespace that starts where a character starts ends where one
/// starts, or at the end of the text.
pub proof fn lemma_whitespace_boundaries(s: Seq<u8>, pos: int)
    requires
        valid_utf8(s),
        0 <= pos <= s.len(),
        is_char_boundary(s, pos),
    ensures
        is_char_boundary(s, whitespace_end(s, pos)),
    decreases s.len() - pos,
{
    if whitespace_width(s, pos) > 0 {
        lemma_boundary_after(s, pos);
        lemma_whitespace_boundaries(s, pos + whitespace_width(s, pos));
    }
}

/// In well-formed UTF-8 every token of a lexer that stands where a character
/// starts is well spanned: the lexer never splits a character.
pub proof fn lemma_token_well_spanned(s: Seq<u8>, pos: int)
    requires
        valid_utf8(s),
        0 <= pos <= s.len() <= usize::MAX,
        is_char_boundary(s, pos),
    ensures
        well_spanned(s, token_at(s, pos)),
{
    if pos < s.len() {
        lemma_token_shape_bounds(s, pos);
        let end = pos + token_shape(s, pos).1;
        if whitespace_width(s, pos) > 0 {
            lemma_whitespace_boundaries(s, pos);
        } else if valid_token_at(s, pos) is Some {
            if single_char_kind(s[pos] as char) is None {
                lemma_best_rule_bounds(s, pos);
            }
            assert(s[end - 1] < 0x80);
            lemma_ascii_boundaries(s, end - 1);
        } else if end < s.len() {
            lemma_invalid_is_maximal(s, pos, pos);
            if whitespace_width(s, end) == 0 && single_char_kind(s[end] as char) is None {
                lemma_best_rule_is_no_whitespace(s, end);
            }
            is_char_boundary_iff_is_leading_byte(s, end);
        } else {
            is_char_boundary_start_end_of_seq(s);
        }
    }
}

/// The spans of the tokens from an offset are laid end to end: the first
/// starts at the offset, each next one starts where the one before it ends,
/// and the last one, `Eof`, is empty and lies at the end of the text.
pub proof fn lemma_spans_contiguous(s: Seq<u8>, pos: int, i: int)
    requires
        0 <= pos <= s.len() <= usize::MAX,
        0 <= i < tokens_from(s, pos).len(),
    ensures
        tokens_from(s, pos)[0].span.start == pos,
        tokens_from(s, pos)[i].span.start <= tokens_from(s, pos)[i].span.end <= s.len(),
        i + 1 < tokens_from(s, pos).len() ==> tokens_from(s, pos)[i + 1].span.start == tokens_from(
            s,
            pos,
        )[i].span.end && tokens_from(s, pos)[i].kind != TokenKind::Eof,
        i + 1 == tokens_from(s, pos).len() ==> tokens_from(s, pos)[i] == (Token {
            kind: TokenKind::Eof,
            span: Span { start: s.len() as usize, end: s.len() as usize },
        }),
    decreases s.len() - pos,
{
    if pos < s.len() {
        lemma_token_shape_bounds(s, pos);
        let next = pos + token_shape(s, pos).1;
        lemma_scan_bounds(s, pos);
        if i > 0 {
            lemma_spans_contiguous(s, next, i - 1);
        } else {
            lemma_spans_contiguous(s, next, 0);
        }
    }
}

/// Span coverage: the bytes named by the spans of the tokens from an offset,
/// taken in order, are the text from that offset on. From offset 0 they are
/// the whole text.
pub proof fn lemma_spans_cover(s: Seq<u8>, pos: int)
    requires
        0 <= pos <= s.len() <= usize::MAX,
    ensures
        spanned_text(s, tokens_from(s, pos)) == s.subrange(pos, s.len() as int),
        pos == 0 ==> spanned_text(s, tokens_from(s, pos)) == s,
    decreases s.len() - pos,
{
    let tokens = tokens_from(s, pos);
    if pos < s.len() {
        lemma_token_shape_bounds(s, pos);
        let next = pos + token_shape(s, pos).1;
        lemma_spans_cover(s, next);
        assert(tokens.drop_first() =~= tokens_from(s, next));
        assert(s.subrange(pos, next) + s.subrange(next, s.len() as int) =~= s.subrange(
            pos,
            s.len() as int,
        ));
    } else {
        assert(tokens.drop_first() =~= Seq::<Token>::empty());
        assert(spanned_text(s, tokens.drop_first()) =~= Seq::<u8>::empty());
        assert(s.subrange(pos, pos) + Seq::<u8>::empty() =~= s.subrange(pos, s.len() as int));
    }
    assert(s.subrange(0, s.len() as int) =~= s);
}

/// The number of bytes of the whitespace character at `pos`, 0 for none.
pub fn whitespace_len(input: &[u8], pos: usize) -> (r: usize)
    ensures
        r as int == whitespace_width(input@, pos as int),
{
    if pos >= input.len() {
        return 0;
    }
    let b0: u8 = input[pos];
    if (b0 >= 0x09 && b0 <= 0x0d) || b0 == 0x20 {
        return 1;
    }
    let rest: usize = input.len() - pos;
    if rest >= 2 && b0 == 0xc2 && (input[pos + 1] == 0x85 || input[pos + 1] == 0xa0) {
        return 2;
    }
    if rest >= 3 {
        let b1: u8 = input[pos + 1];
        let b2: u8 = input[pos + 2];
        if (b0 == 0xe1 && b1 == 0x9a && b2 == 0x80) || (b0 == 0xe2 && b1 == 0x80 && ((b2 >= 0x80
            && b2 <= 0x8a) || b2 == 0xa8 || b2 == 0xa9 || b2 == 0xaf)) || (b0 == 0xe2 && b1 == 0x81
            && b2 == 0x9f) || (b0 == 0xe3 && b1 == 0x80 && b2 == 0x80) {
            return 3;
        }
    }
    0
}

/// The valid token at `pos`: a single character token, else the longest
/// match of the rule table; `None` where neither is there.
pub fn valid_token(input: &[u8], pos: usize) -> (r: Option<(TokenKind, usize)>)
    ensures
        r is Some <==> valid_token_at(input@, pos as int) is Some,
        r is Some ==> r.unwrap().0 == valid_token_at(input@, pos as int).unwrap().0
            && r.unwrap().1 as int == valid_token_at(input@, pos as int).unwrap().1,
{
    if pos >= input.len() {
        return None;
    }
    match unambigious_char(input[pos] as char) {
        Some(kind) => Some((kind, 1)),
        None => longest_match(input, pos),
    }
}

/// The length of the invalid region at `pos`: the bytes up to the next
/// offset at which whitespace or a valid token starts, or up to the end of
/// the text.
pub fn invalid_size(input: &[u8], pos: usize) -> (r: usize)
    requires
        pos <= input.len(),
    ensures
        r as int == invalid_end(input@, pos as int) - pos,
        pos + r <= input.len(),
{
    let mut i: usize = pos;
    while i < input.len() && whitespace_len(input, i) == 0 && valid_token(input, i).is_none()
        invariant
            pos <= i <= input.len(),
            invalid_end(input@, pos as int) == invalid_end(input@, i as int),
        decreases input.len() - i,
    {
        i += 1;
    }
    i - pos
}

/// Kind and length of the token that starts at `pos`.
pub fn next_token(input: &[u8], pos: usize) -> (r: (TokenKind, usize))
    requires
        pos < input.len(),
    ensures
        r.0 == token_shape(input@, pos as int).0,
        r.1 as int == token_shape(input@, pos as int).1,
        1 <= r.1 <= input.len() - pos,
{
    proof {
        lemma_token_shape_bounds(input@, pos as int);
    }
    if whitespace_len(input, pos) > 0 {
        let mut i: usize = pos;
        loop
            invariant
                pos <= i <= input.len(),
                whitespace_end(input@, pos as int) == whitespace_end(input@, i as int),
            ensures
                whitespace_end(input@, pos as int) == i,
            decreases input.len() - i,
        {
            let w: usize = whitespace_len(input, i);
            if w == 0 {
                break ;
            }
            i += w;
        }
        (TokenKind::Whitespace, i - pos)
    } else {
        match valid_token(input, pos) {
            Some(found) => found,
            None => (TokenKind::Invalid, invalid_size(input, pos)),
        }
    }
}

/// A tokenizer over one source text: an offset into it, and whether `Eof`
/// has been yielded.
pub struct Lexer<'a> {
    input: &'a str,
    position: usize,
    finished: bool,
}

/// A lexer at the start of `input`.
pub fn new(input: &str) -> (lexer: Lexer<'_>)
    ensures
        lexer.wf(),
        lexer.source() == input@,
        lexer.offset() == 0,
        !lexer.is_finished(),
{
    proof {
        encode_utf8_valid_utf8(input@);
        is_char_boundary_start_end_of_seq(input.spec_bytes());
    }
    Lexer { input, position: 0, finished: false }
}

impl<'a> Lexer<'a> {
    /// The characters of the text that the lexer reads.
    pub closed spec fn source(&self) -> Seq<char> {
        self.input@
    }

    /// The bytes of the text that the lexer reads.
    pub open spec fn bytes(&self) -> Seq<u8> {
        vstd::utf8::encode_utf8(self.source())
    }

    /// The offset of the next token.
    pub closed spec fn offset(&self) -> int {
        self.position as int
    }

    /// Whether `Eof` has been yielded.
    pub closed spec fn is_finished(&self) -> bool {
        self.finished
    }

    /// The offset lies inside the text, where a character starts or the
    /// text ends.
    pub closed spec fn wf(&self) -> bool {
        &&& self.position <= self.input.spec_bytes().len()
        &&& is_char_boundary(self.input.spec_bytes(), self.position as int)
    }

    /// The tokens that the lexer still yields.
    pub open spec fn pending(&self) -> Seq<Token> {
        if self.is_finished() {
            Seq::empty()
        } else {
            tokens_from(self.bytes(), self.offset())
        }
    }

    /// The span from `start` to the lexer's offset.
    pub fn span(&self, start: usize) -> (r: Span)
        ensures
            r.start == start,
            r.end as int == self.offset(),
    {
        Span { start, end: self.position }
    }

    /// Yields the next token, `Eof` once at the end of the text, and nothing
    /// after that.
    pub fn next(&mut self) -> (r: Option<Token>)
        requires
            old(self).wf(),
        ensures
            final(self).wf(),
            final(self).source() == old(self).source(),
            old(self).is_finished() ==> r is None && final(self).is_finished()
                && final(self).offset() == old(self).offset(),
            !old(self).is_finished() ==> r == Some(token_at(old(self).bytes(), old(self).offset()))
                && final(self).offset() == r.unwrap().span.end
                && (final(self).is_finished() <==> old(self).offset() >= old(self).bytes().len()),
            r is Some ==> well_spanned(old(self).bytes(), r.unwrap()),
            r is None <==> old(self).pending().len() == 0,
            r is None ==> final(self).pending() == old(self).pending(),
            r is Some ==> r.unwrap() == old(self).pending()[0]
                && final(self).pending() == old(self).pending().drop_first(),
    {
        if self.finished {
            return None;
        }
        let start: usize = self.position;
        let bytes = self.input.as_bytes();
        let total: usize = bytes.len();
        proof {
            encode_utf8_valid_utf8(self.input@);
            lemma_token_well_spanned(bytes@, start as int);
        }
        if self.position >= total {
            self.finished = true;
            assert(old(self).pending().drop_first() =~= Seq::<Token>::empty());
            return Some(Token { kind: TokenKind::Eof, span: self.span(start) });
        }
        let (kind, len) = next_token(bytes, self.position);
        self.position += len;
        assert(old(self).pending().drop_first() =~= self.pending());
        Some(Token { kind, span: self.span(start) })
    }
}

/// All tokens of `input`, in order, `Eof` last. Each names whole characters
/// of `input`, and their spans, one after the other, name all of it.
pub fn tokenize(input: &str) -> (tokens: Vec<Token>)
    ensures
        tokens@ == tokens_from(input.spec_bytes(), 0),
        spanned_text(input.spec_bytes(), tokens@) == input.spec_bytes(),
        forall|i: int| 0 <= i < tokens.len() ==> well_spanned(input.spec_bytes(), #[trigger] tokens[i]),
{
    let mut lexer = new(input);
    let mut tokens: Vec<Token> = Vec::new();
    let length: usize = input.as_bytes().len();
    proof {
        assert(input.spec_bytes().len() == length);
        lemma_spans_cover(input.spec_bytes(), 0);
    }
    loop
        invariant
            lexer.wf(),
            lexer.source() == input@,
            tokens@ + lexer.pending() == tokens_from(input.spec_bytes(), 0),
            forall|i: int|
                0 <= i < tokens.len() ==> well_spanned(input.spec_bytes(), #[trigger] tokens[i]),
        ensures
            tokens@ == tokens_from(input.spec_bytes(), 0),
            forall|i: int|
                0 <= i < tokens.len() ==> well_spanned(input.spec_bytes(), #[trigger] tokens[i]),
        decreases lexer.pending().len(),
    {
        let ghost before = lexer.pending();
        match lexer.next() {
            Some(token) => {
                assert(tokens@.push(token) + before.drop_first() =~= tokens@ + before);
                tokens.push(token);
            },
            None => {
                assert(tokens@ + before =~= tokens@);
                break ;
            },
        }
    }
    tokens
}

} // verus!
