//! The rule table: one matcher per multi-character token shape, each giving
//! the length of the longest prefix of the text at an offset that has the
//! shape, and the policy that picks among them.
//!
//! All matchers work on the bytes of the source text. Every shape is made of
//! ASCII bytes except for the inside of a string literal, so a match never
//! ends inside a multi-byte character.

use crate::token::TokenKind;
use vstd::prelude::*;

verus! {

/// An ASCII decimal digit.
pub open spec fn is_digit(b: u8) -> bool {
    0x30 <= b <= 0x39
}

/// A byte that may start an identifier: an ASCII letter or `_`.
pub open spec fn is_ident_start(b: u8) -> bool {
    ||| 0x41 <= b <= 0x5a
    ||| 0x61 <= b <= 0x7a
    ||| b == 0x5f
}

/// A byte that may continue an identifier.
pub open spec fn is_ident_part(b: u8) -> bool {
    is_ident_start(b) || is_digit(b)
}

/// The offset at which the run of digits that starts at `pos` ends.
pub open spec fn digits_end(s: Seq<u8>, pos: int) -> int
    decreases s.len() - pos,
{
    if 0 <= pos < s.len() && is_digit(s[pos]) {
        digits_end(s, pos + 1)
    } else {
        pos
    }
}

/// The offset at which the run of identifier bytes that starts at `pos` ends.
pub open spec fn ident_end(s: Seq<u8>, pos: int) -> int
    decreases s.len() - pos,
{
    if 0 <= pos < s.len() && is_ident_part(s[pos]) {
        ident_end(s, pos + 1)
    } else {
        pos
    }
}

/// The offset of the first `"` at or after `pos`, or the length of the text
/// where there is none.
pub open spec fn quote_pos(s: Seq<u8>, pos: int) -> int
    decreases s.len() - pos,
{
    if 0 <= pos < s.len() && s[pos] != 0x22 {
        quote_pos(s, pos + 1)
    } else if pos < s.len() {
        pos
    } else {
        s.len() as int
    }
}

/// Length of the integer at `pos`: the longest run of digits, if not empty.
pub open spec fn integer_len(s: Seq<u8>, pos: int) -> Option<int> {
    if digits_end(s, pos) > pos {
        Some(digits_end(s, pos) - pos)
    } else {
        None
    }
}

/// Length of the float at `pos`: an integer, a `.`, and another integer.
pub open spec fn float_len(s: Seq<u8>, pos: int) -> Option<int> {
    let dot = digits_end(s, pos);
    if dot > pos && dot < s.len() && s[dot] == 0x2e && digits_end(s, dot + 1) > dot + 1 {
        Some(digits_end(s, dot + 1) - pos)
    } else {
        None
    }
}

/// Length of the string literal at `pos`: from a `"` through the next `"`.
pub open spec fn string_len(s: Seq<u8>, pos: int) -> Option<int> {
    if 0 <= pos < s.len() && s[pos] == 0x22 && quote_pos(s, pos + 1) < s.len() {
        Some(quote_pos(s, pos + 1) + 1 - pos)
    } else {
        None
    }
}

/// Length of the keyword `let` at `pos`: 3 where the text there starts with it.
pub open spec fn keyword_let_len(s: Seq<u8>, pos: int) -> Option<int> {
    if 0 <= pos && pos + 3 <= s.len() && s[pos] == 0x6c && s[pos + 1] == 0x65 && s[pos + 2]
        == 0x74 {
        Some(3)
    } else {
        None
    }
}

/// Length of the identifier at `pos`: a start byte and the longest run of
/// identifier bytes after it.
pub open spec fn identifier_len(s: Seq<u8>, pos: int) -> Option<int> {
    if 0 <= pos < s.len() && is_ident_start(s[pos]) {
        Some(ident_end(s, pos + 1) - pos)
    } else {
        None
    }
}

/// What the rule of a kind matches at `pos`. Kinds without a rule match
/// nothing.
pub open spec fn rule_len(kind: TokenKind, s: Seq<u8>, pos: int) -> Option<int> {
    match kind {
        TokenKind::Identifier => identifier_len(s, pos),
        TokenKind::KeywordLet => keyword_let_len(s, pos),
        TokenKind::String => string_len(s, pos),
        TokenKind::Int => integer_len(s, pos),
        TokenKind::Float => float_len(s, pos),
        _ => None,
    }
}

/// A rule of the table: the kind of token that it recognizes. What it
/// matches is `rule_len` of its kind.
#[derive(Debug, Copy, Clone, PartialEq, Eq, Structural)]
pub struct Rule {
    pub kind: TokenKind,
}

/// The rule table.
pub open spec fn rule_table() -> Seq<Rule> {
    seq![
        Rule { kind: TokenKind::Identifier },
        Rule { kind: TokenKind::KeywordLet },
        Rule { kind: TokenKind::String },
        Rule { kind: TokenKind::Int },
        Rule { kind: TokenKind::Float },
    ]
}

/// Whether a match of `len` bytes by the rule of `kind` is preferred to the
/// match `best`: the longer match is, and of two of one length the keyword.
pub open spec fn preferred(kind: TokenKind, len: int, best: Option<(TokenKind, int)>) -> bool {
    match best {
        None => true,
        Some((_, best_len)) => len > best_len || (len == best_len && kind
            == TokenKind::KeywordLet),
    }
}

/// The winner among the rules of a table at `pos`: the preferred one of all
/// matches.
pub open spec fn winner(table: Seq<Rule>, s: Seq<u8>, pos: int) -> Option<(TokenKind, int)>
    decreases table.len(),
{
    if table.len() == 0 {
        None
    } else {
        let before = winner(table.drop_last(), s, pos);
        let kind = table.last().kind;
        match rule_len(kind, s, pos) {
            Some(len) => if preferred(kind, len, before) {
                Some((kind, len))
            } else {
                before
            },
            None => before,
        }
    }
}

/// The winner among the rules at `pos`: the longest match, the keyword
/// before the identifier where both match the same length.
pub open spec fn best_rule(s: Seq<u8>, pos: int) -> Option<(TokenKind, int)> {
    winner(rule_table(), s, pos)
}

/// The kind of a token that is a single character by itself.
pub open spec fn single_char_kind(c: char) -> Option<TokenKind> {
    if c == '+' {
        Some(TokenKind::Plus)
    } else if c == '-' {
        Some(TokenKind::Minus)
    } else if c == '*' {
        Some(TokenKind::Star)
    } else if c == '/' {
        Some(TokenKind::Slash)
    } else if c == '=' {
        Some(TokenKind::Equals)
    } else if c == ';' {
        Some(TokenKind::Semicolon)
    } else if c == '(' {
        Some(TokenKind::LParen)
    } else if c == ')' {
        Some(TokenKind::RParen)
    } else {
        None
    }
}

/// Every run ends at or after its start and inside the text.
pub proof fn lemma_run_bounds(s: Seq<u8>, pos: int)
    requires
        0 <= pos <= s.len(),
    ensures
        pos <= digits_end(s, pos) <= s.len(),
        pos <= ident_end(s, pos) <= s.len(),
        pos <= quote_pos(s, pos) <= s.len(),
    decreases s.len() - pos,
{
    if pos < s.len() {
        lemma_run_bounds(s, pos + 1);
    }
}

/// A run that is not empty ends after a byte of its kind, and a quote that is
/// found is a quote.
pub proof fn lemma_run_last(s: Seq<u8>, pos: int)
    requires
        0 <= pos <= s.len(),
    ensures
        digits_end(s, pos) > pos ==> is_digit(s[digits_end(s, pos) - 1]),
        ident_end(s, pos) > pos ==> is_ident_part(s[ident_end(s, pos) - 1]),
        quote_pos(s, pos) < s.len() ==> s[quote_pos(s, pos)] == 0x22,
    decreases s.len() - pos,
{
    if pos < s.len() {
        lemma_run_last(s, pos + 1);
        lemma_run_bounds(s, pos + 1);
    }
}

/// The winner of a table is a match of one of its rules.
pub proof fn lemma_winner_is_a_match(table: Seq<Rule>, s: Seq<u8>, pos: int)
    requires
        winner(table, s, pos) is Some,
    ensures
        rule_len(winner(table, s, pos).unwrap().0, s, pos) == Some(winner(table, s, pos).unwrap().1),
        exists|i: int| 0 <= i < table.len() && table[i].kind == winner(table, s, pos).unwrap().0,
    decreases table.len(),
{
    if table.len() > 0 {
        let before = table.drop_last();
        let last = table.len() - 1;
        if winner(table, s, pos) == winner(before, s, pos) {
            lemma_winner_is_a_match(before, s, pos);
            let i = choose|i: int|
                0 <= i < before.len() && before[i].kind == winner(before, s, pos).unwrap().0;
            assert(table[i] == before[i]);
        } else {
            assert(table[last].kind == winner(table, s, pos).unwrap().0);
        }
    }
}

/// No rule of a table matches more than the winner, and a keyword rule that
/// matches as much as the winner is the winner.
pub proof fn lemma_winner_is_maximal(table: Seq<Rule>, s: Seq<u8>, pos: int, i: int)
    requires
        0 <= i < table.len(),
        rule_len(table[i].kind, s, pos) is Some,
    ensures
        winner(table, s, pos) is Some,
        rule_len(table[i].kind, s, pos).unwrap() <= winner(table, s, pos).unwrap().1,
        table[i].kind == TokenKind::KeywordLet && rule_len(table[i].kind, s, pos) == Some(
            winner(table, s, pos).unwrap().1,
        ) ==> winner(table, s, pos).unwrap().0 == TokenKind::KeywordLet,
    decreases table.len(),
{
    let before = table.drop_last();
    if i < table.len() - 1 {
        assert(before[i] == table[i]);
        lemma_winner_is_maximal(before, s, pos, i);
    }
}

/// Maximal munch: where any rule matches at an offset, the winner is a rule
/// that matches there, no rule matches more than the winner, and the keyword
/// wins wherever it matches as much as the winner.
pub proof fn lemma_maximal_munch(s: Seq<u8>, pos: int, kind: TokenKind)
    requires
        rule_len(kind, s, pos) is Some,
    ensures
        best_rule(s, pos) is Some,
        rule_len(best_rule(s, pos).unwrap().0, s, pos) == Some(best_rule(s, pos).unwrap().1),
        rule_len(kind, s, pos).unwrap() <= best_rule(s, pos).unwrap().1,
        rule_len(TokenKind::KeywordLet, s, pos) == Some(best_rule(s, pos).unwrap().1)
            ==> best_rule(s, pos).unwrap().0 == TokenKind::KeywordLet,
{
    let table = rule_table();
    let i: int = match kind {
        TokenKind::Identifier => 0,
        TokenKind::KeywordLet => 1,
        TokenKind::String => 2,
        TokenKind::Int => 3,
        _ => 4,
    };
    assert(table[i].kind == kind);
    lemma_winner_is_maximal(table, s, pos, i);
    lemma_winner_is_a_match(table, s, pos);
    if keyword_let_len(s, pos) is Some {
        assert(table[1].kind == TokenKind::KeywordLet);
        lemma_winner_is_maximal(table, s, pos, 1);
    }
}

/// The winner by the shape of the text: the keyword where `let` is not
/// followed by an identifier byte, else an identifier where one starts; a
/// string literal where one starts; a float where an integer is followed by
/// `.` and an integer, else the integer.
pub proof fn lemma_best_rule_by_shape(s: Seq<u8>, pos: int)
    requires
        0 <= pos <= s.len(),
    ensures
        best_rule(s, pos) == (if keyword_let_len(s, pos) is Some && !(pos + 3 < s.len()
            && is_ident_part(s[pos + 3])) {
            Some((TokenKind::KeywordLet, 3int))
        } else if identifier_len(s, pos) is Some {
            Some((TokenKind::Identifier, identifier_len(s, pos).unwrap()))
        } else if string_len(s, pos) is Some {
            Some((TokenKind::String, string_len(s, pos).unwrap()))
        } else if float_len(s, pos) is Some {
            Some((TokenKind::Float, float_len(s, pos).unwrap()))
        } else if integer_len(s, pos) is Some {
            Some((TokenKind::Int, integer_len(s, pos).unwrap()))
        } else {
            None
        }),
{
    let table = rule_table();
    let t4 = table.drop_last();
    let t3 = t4.drop_last();
    let t2 = t3.drop_last();
    let t1 = t2.drop_last();
    assert(table.last().kind == TokenKind::Float);
    assert(t4.last().kind == TokenKind::Int);
    assert(t3.last().kind == TokenKind::String);
    assert(t2.last().kind == TokenKind::KeywordLet);
    assert(t1.last().kind == TokenKind::Identifier);
    assert(t1.drop_last().len() == 0);
    reveal_with_fuel(winner, 6);
    lemma_run_bounds(s, pos);
    if pos < s.len() {
        lemma_run_bounds(s, pos + 1);
    }
    let dot = digits_end(s, pos);
    if dot < s.len() {
        lemma_run_bounds(s, dot + 1);
    }
    if keyword_let_len(s, pos) is Some {
        assert(is_ident_part(s[pos + 1]) && is_ident_part(s[pos + 2]));
        lemma_run_bounds(s, pos + 3);
        if pos + 3 < s.len() {
            lemma_run_bounds(s, pos + 4);
        }
        assert(ident_end(s, pos + 1) == ident_end(s, pos + 3)) by {
            reveal_with_fuel(ident_end, 3);
        }
    }
    let w1 = winner(t1, s, pos);
    let w2 = winner(t2, s, pos);
    let w3 = winner(t3, s, pos);
    let w4 = winner(t4, s, pos);
    assert(w1 == match identifier_len(s, pos) {
        Some(len) => Some((TokenKind::Identifier, len)),
        None => None,
    });
    assert(w2 == if keyword_let_len(s, pos) is Some && preferred(TokenKind::KeywordLet, 3, w1) {
        Some((TokenKind::KeywordLet, 3int))
    } else {
        w1
    });
    assert(w3 == if string_len(s, pos) is Some && preferred(
        TokenKind::String,
        string_len(s, pos).unwrap(),
        w2,
    ) {
        Some((TokenKind::String, string_len(s, pos).unwrap()))
    } else {
        w2
    });
    assert(w4 == if integer_len(s, pos) is Some && preferred(
        TokenKind::Int,
        integer_len(s, pos).unwrap(),
        w3,
    ) {
        Some((TokenKind::Int, integer_len(s, pos).unwrap()))
    } else {
        w3
    });
}

/// Every match of the winner is at least one byte long and ends inside the
/// text; it starts with an ASCII byte and ends with one; and a string
/// literal holds its two quotes.
pub proof fn lemma_best_rule_bounds(s: Seq<u8>, pos: int)
    requires
        0 <= pos <= s.len(),
        best_rule(s, pos) is Some,
    ensures
        1 <= best_rule(s, pos).unwrap().1 <= s.len() - pos,
        s[pos] < 0x80,
        s[pos + best_rule(s, pos).unwrap().1 - 1] < 0x80,
        rule_len(best_rule(s, pos).unwrap().0, s, pos) == Some(best_rule(s, pos).unwrap().1),
        best_rule(s, pos).unwrap().0 == TokenKind::String ==> best_rule(s, pos).unwrap().1 >= 2,
{
    lemma_winner_is_a_match(rule_table(), s, pos);
    lemma_run_bounds(s, pos);
    lemma_run_last(s, pos);
    if pos < s.len() {
        lemma_run_bounds(s, pos + 1);
        lemma_run_last(s, pos + 1);
    }
    let dot = digits_end(s, pos);
    if dot < s.len() {
        lemma_run_bounds(s, dot + 1);
        lemma_run_last(s, dot + 1);
    }
}

/// Every match of the winner starts with a digit, a letter, `_` or `"`, and
/// is of a kind that has a rule.
pub proof fn lemma_best_rule_is_no_whitespace(s: Seq<u8>, pos: int)
    requires
        0 <= pos <= s.len(),
        best_rule(s, pos) is Some,
    ensures
        pos < s.len(),
        is_digit(s[pos]) || is_ident_start(s[pos]) || s[pos] == 0x22,
        rule_len(best_rule(s, pos).unwrap().0, s, pos) is Some,
{
    lemma_winner_is_a_match(rule_table(), s, pos);
    lemma_run_bounds(s, pos);
}

/// The integer rule.
pub fn match_integer(input: &[u8], pos: usize) -> (r: Option<usize>)
    ensures
        r is Some <==> integer_len(input@, pos as int) is Some,
        r is Some ==> r.unwrap() as int == integer_len(input@, pos as int).unwrap(),
{
    let mut i: usize = pos;
    while i < input.len() && input[i] >= 0x30 && input[i] <= 0x39
        invariant
            pos <= i,
            i <= input.len() || i == pos,
            digits_end(input@, pos as int) == digits_end(input@, i as int),
        decreases input.len() - i,
    {
        i += 1;
    }
    if i > pos {
        Some(i - pos)
    } else {
        None
    }
}

/// The float rule.
pub fn match_float(input: &[u8], pos: usize) -> (r: Option<usize>)
    ensures
        r is Some <==> float_len(input@, pos as int) is Some,
        r is Some ==> r.unwrap() as int == float_len(input@, pos as int).unwrap(),
{
    let whole = match match_integer(input, pos) {
        Some(n) => n,
        None => {
            return None;
        },
    };
    proof {
        if pos <= input.len() {
            lemma_run_bounds(input@, pos as int);
        }
    }
    let dot: usize = pos + whole;
    if dot >= input.len() || input[dot] != 0x2e {
        return None;
    }
    proof {
        lemma_run_bounds(input@, dot + 1);
    }
    match match_integer(input, dot + 1) {
        Some(fraction) => Some(whole + 1 + fraction),
        None => None,
    }
}

/// The string rule.
pub fn match_string(input: &[u8], pos: usize) -> (r: Option<usize>)
    ensures
        r is Some <==> string_len(input@, pos as int) is Some,
        r is Some ==> r.unwrap() as int == string_len(input@, pos as int).unwrap(),
{
    if pos >= input.len() || input[pos] != 0x22 {
        return None;
    }
    let mut i: usize = pos + 1;
    while i < input.len() && input[i] != 0x22
        invariant
            pos < i <= input.len(),
            quote_pos(input@, pos + 1) == quote_pos(input@, i as int),
        decreases input.len() - i,
    {
        i += 1;
    }
    if i < input.len() {
        Some(i + 1 - pos)
    } else {
        None
    }
}

/// The rule of the keyword `let`.
pub fn match_keyword_let(input: &[u8], pos: usize) -> (r: Option<usize>)
    ensures
        r is Some <==> keyword_let_len(input@, pos as int) is Some,
        r is Some ==> r.unwrap() as int == keyword_let_len(input@, pos as int).unwrap(),
{
    if pos < input.len() && input.len() - pos >= 3 && input[pos] == 0x6c && input[pos + 1] == 0x65
        && input[pos + 2] == 0x74 {
        Some(3)
    } else {
        None
    }
}

/// The identifier rule.
pub fn match_identifier(input: &[u8], pos: usize) -> (r: Option<usize>)
    ensures
        r is Some <==> identifier_len(input@, pos as int) is Some,
        r is Some ==> r.unwrap() as int == identifier_len(input@, pos as int).unwrap(),
{
    if pos >= input.len() || !ident_start(input[pos]) {
        return None;
    }
    let mut i: usize = pos + 1;
    while i < input.len() && (ident_start(input[i]) || (input[i] >= 0x30 && input[i] <= 0x39))
        invariant
            pos < i <= input.len(),
            ident_end(input@, pos + 1) == ident_end(input@, i as int),
        decreases input.len() - i,
    {
        i += 1;
    }
    Some(i - pos)
}

fn ident_start(b: u8) -> (r: bool)
    ensures
        r == is_ident_start(b),
{
    (b >= 0x41 && b <= 0x5a) || (b >= 0x61 && b <= 0x7a) || b == 0x5f
}

/// The rule that recognizes tokens of `kind`.
pub fn rule(kind: TokenKind) -> (r: Rule)
    ensures
        r == (Rule { kind }),
{
    Rule { kind }
}

/// The rules of the table, in the order in which they are tried.
pub fn rules() -> (table: [Rule; 5])
    ensures
        table@ == rule_table(),
{
    let table = [
        rule(TokenKind::Identifier),
        rule(TokenKind::KeywordLet),
        rule(TokenKind::String),
        rule(TokenKind::Int),
        rule(TokenKind::Float),
    ];
    assert(table@ =~= rule_table());
    table
}

impl Rule {
    /// The length of what the rule matches at `pos`, if it matches.
    pub fn matches(&self, input: &[u8], pos: usize) -> (r: Option<usize>)
        ensures
            r is Some <==> rule_len(self.kind, input@, pos as int) is Some,
            r is Some ==> r.unwrap() as int == rule_len(self.kind, input@, pos as int).unwrap(),
    {
        match self.kind {
            TokenKind::Identifier => match_identifier(input, pos),
            TokenKind::KeywordLet => match_keyword_let(input, pos),
            TokenKind::String => match_string(input, pos),
            TokenKind::Int => match_integer(input, pos),
            TokenKind::Float => match_float(input, pos),
            _ => None,
        }
    }
}

/// Evaluates every rule of the table at `pos` and returns the winner: the
/// longest match, and of two of one length the keyword.
pub fn longest_match(input: &[u8], pos: usize) -> (r: Option<(TokenKind, usize)>)
    ensures
        r is Some <==> best_rule(input@, pos as int) is Some,
        r is Some ==> r.unwrap().0 == best_rule(input@, pos as int).unwrap().0
            && r.unwrap().1 as int == best_rule(input@, pos as int).unwrap().1,
{
    let table = rules();
    let mut best: Option<(TokenKind, usize)> = None;
    let mut i: usize = 0;
    while i < 5
        invariant
            i <= 5,
            table@ == rule_table(),
            best is Some <==> winner(table@.subrange(0, i as int), input@, pos as int) is Some,
            best is Some ==> best.unwrap().0 == winner(
                table@.subrange(0, i as int),
                input@,
                pos as int,
            ).unwrap().0 && best.unwrap().1 as int == winner(
                table@.subrange(0, i as int),
                input@,
                pos as int,
            ).unwrap().1,
        decreases 5 - i,
    {
        let candidate = table[i];
        proof {
            assert(table@.subrange(0, i + 1).drop_last() =~= table@.subrange(0, i as int));
            assert(table@.subrange(0, i + 1).last() == candidate);
        }
        if let Some(len) = candidate.matches(input, pos) {
            let better = match best {
                None => true,
                Some((_, best_len)) => len > best_len || (len == best_len && candidate.kind
                    == TokenKind::KeywordLet),
            };
            if better {
                best = Some((candidate.kind, len));
            }
        }
        i += 1;
    }
    assert(table@.subrange(0, 5) =~= table@);
    best
}

/// The kind of a token that is one character by itself, if `c` is one.
pub fn unambigious_char(c: char) -> (r: Option<TokenKind>)
    ensures
        r == single_char_kind(c),
{
    match c {
        '+' => Some(TokenKind::Plus),
        '-' => Some(TokenKind::Minus),
        '*' => Some(TokenKind::Star),
        '/' => Some(TokenKind::Slash),
        '=' => Some(TokenKind::Equals),
        ';' => Some(TokenKind::Semicolon),
        '(' => Some(TokenKind::LParen),
        ')' => Some(TokenKind::RParen),
        _ => None,
    }
}

} // verus!
