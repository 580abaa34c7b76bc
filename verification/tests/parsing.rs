use exprlang::parser;
use exprlang::parser::ast::{binop, float, ident, integer, string, Expr, Literal};
use exprlang::parser::expressions::parse_integer;
use exprlang::parser::{ParseError, TokenIter};
use exprlang::token::{Span, Token, TokenKind};

fn parse(input: &str) -> Expr {
    parser::new(input).parse_expression(0).unwrap()
}

fn token(kind: TokenKind, start: usize, end: usize) -> Token {
    Token { kind, span: Span { start, end } }
}

#[test]
fn expressions_basic_int() {
    let expr = parse("1");

    assert_eq!(expr, integer(1));
}

#[test]
fn expressions_basic_float() {
    let expr = parse("1.125");

    assert_eq!(expr, float("1.125"));
    match expr {
        Expr::Literal(Literal::Float(text)) => assert_eq!(text.parse::<f64>().unwrap(), 1.125),
        _ => panic!("not a float"),
    }
}

#[test]
fn expressions_basic_string() {
    let expr = parse("\"hello\"");

    assert_eq!(expr, string("hello"))
}

#[test]
fn expressions_basic_ident() {
    let expr = parse("hallo");

    assert_eq!(expr, ident("hallo"));
}

#[test]
fn binary_op() {
    let expr = parse("3 * 2");

    assert_eq!(expr, binop(integer(3), TokenKind::Star, integer(2)));
}

#[test]
fn binary_op_binding_power() {
    let expr = parse("1 + 2 * 3");

    assert_eq!(
        expr,
        binop(integer(1), TokenKind::Plus, binop(integer(2), TokenKind::Star, integer(3)))
    );
}

#[test]
fn grouped_expression_has_priority_over_binding_power() {
    let expr = parse("(1 + 2) * 3");

    assert_eq!(
        expr,
        binop(binop(integer(1), TokenKind::Plus, integer(2)), TokenKind::Star, integer(3))
    );
}

#[test]
fn operators_of_one_level_group_to_the_left() {
    assert_eq!(
        parse("1 - 2 - 3"),
        binop(binop(integer(1), TokenKind::Minus, integer(2)), TokenKind::Minus, integer(3))
    );
    assert_eq!(
        parse("8 / 4 * 2"),
        binop(binop(integer(8), TokenKind::Slash, integer(4)), TokenKind::Star, integer(2))
    );
    assert_eq!(
        parse("1 * 2 + 3"),
        binop(binop(integer(1), TokenKind::Star, integer(2)), TokenKind::Plus, integer(3))
    );
    assert_eq!(
        parse("a + b * c - d"),
        binop(
            binop(ident("a"), TokenKind::Plus, binop(ident("b"), TokenKind::Star, ident("c"))),
            TokenKind::Minus,
            ident("d")
        )
    );
}

#[test]
fn string_literal_loses_its_quotes() {
    assert_eq!(parse("\"hi\""), Expr::Literal(Literal::String("hi".to_string())));
    assert_eq!(parse("\"\""), string(""));
    assert_eq!(parse("\"h\u{e9} \u{1f600}\""), string("h\u{e9} \u{1f600}"));
    assert_eq!(
        parse("\"a\" + \"b\""),
        binop(string("a"), TokenKind::Plus, string("b"))
    );
}

#[test]
fn parse_is_parse_expression_at_zero() {
    for input in ["1", "1 + 2 * 3", "(1 + 2) * 3", "x", "1 +", "", ")", "1 2", "((1)"] {
        assert_eq!(parser::parse(input), parser::new(input).parse_expression(0));
    }
    assert_eq!(parser::parse("2 * (3 + 4)"), Ok(binop(
        integer(2),
        TokenKind::Star,
        binop(integer(3), TokenKind::Plus, integer(4))
    )));
}

#[test]
fn nested_groups() {
    assert_eq!(parse("((7))"), integer(7));
    assert_eq!(
        parse("(1 + (2 - x)) / 2.5"),
        binop(
            binop(integer(1), TokenKind::Plus, binop(integer(2), TokenKind::Minus, ident("x"))),
            TokenKind::Slash,
            float("2.5")
        )
    );
}

#[test]
fn expression_ends_at_a_closing_parenthesis() {
    let mut parser = parser::new("1 + 2 ) 3");
    assert_eq!(
        parser.parse_expression(0),
        Ok(binop(integer(1), TokenKind::Plus, integer(2)))
    );
    assert_eq!(parser.peek(), TokenKind::RParen);
    assert_eq!(parser.next(), Some(token(TokenKind::RParen, 6, 7)));
    assert_eq!(parser.next(), Some(token(TokenKind::Int, 8, 9)));
}

#[test]
fn minimum_binding_power_stops_the_expression() {
    let mut parser = parser::new("1 * 2 + 3");
    assert_eq!(
        parser.parse_expression(2),
        Ok(binop(integer(1), TokenKind::Star, integer(2)))
    );
    assert_eq!(parser.peek(), TokenKind::Plus);
    let mut parser = parser::new("1 * 2 + 3");
    assert_eq!(parser.parse_expression(4), Ok(integer(1)));
    assert_eq!(parser.peek(), TokenKind::Star);
    let mut parser = parser::new("1 * 2 + 3");
    assert_eq!(
        parser.parse_expression(1),
        Ok(binop(binop(integer(1), TokenKind::Star, integer(2)), TokenKind::Plus, integer(3)))
    );
    let mut parser = parser::new("1 * 2 + 3");
    assert_eq!(
        parser.parse_expression(3),
        Ok(binop(integer(1), TokenKind::Star, integer(2)))
    );
}

#[test]
fn binding_powers() {
    assert_eq!(TokenKind::Plus.binary_binding_power(), Some((1, 2)));
    assert_eq!(TokenKind::Minus.binary_binding_power(), Some((1, 2)));
    assert_eq!(TokenKind::Star.binary_binding_power(), Some((3, 4)));
    assert_eq!(TokenKind::Slash.binary_binding_power(), Some((3, 4)));
    assert_eq!(TokenKind::Equals.binary_binding_power(), None);
    assert_eq!(TokenKind::Int.binary_binding_power(), None);
    assert_eq!(TokenKind::Eof.binary_binding_power(), None);
}

#[test]
fn unexpected_token_in_primary_position() {
    assert_eq!(
        parser::parse("+ 1"),
        Err(ParseError::UnexpectedToken { found: token(TokenKind::Plus, 0, 1) })
    );
    assert_eq!(
        parser::parse(""),
        Err(ParseError::UnexpectedToken { found: token(TokenKind::Eof, 0, 0) })
    );
    assert_eq!(
        parser::parse("1 + "),
        Err(ParseError::UnexpectedToken { found: token(TokenKind::Eof, 4, 4) })
    );
    assert_eq!(
        parser::parse("let x"),
        Err(ParseError::UnexpectedToken { found: token(TokenKind::KeywordLet, 0, 3) })
    );
    assert_eq!(
        parser::parse("()"),
        Err(ParseError::UnexpectedToken { found: token(TokenKind::RParen, 1, 2) })
    );
    assert_eq!(
        parser::parse("# 1"),
        Err(ParseError::UnexpectedToken { found: token(TokenKind::Invalid, 0, 1) })
    );
}

#[test]
fn mismatch_on_consume() {
    assert_eq!(
        parser::parse("(1 + 2"),
        Err(ParseError::Mismatch {
            expected: TokenKind::RParen,
            found: token(TokenKind::Eof, 6, 6)
        })
    );
    let mut parser = parser::new("1 + 2");
    assert_eq!(
        parser.consume(TokenKind::Plus),
        Err(ParseError::Mismatch { expected: TokenKind::Plus, found: token(TokenKind::Int, 0, 1) })
    );
    assert_eq!(parser.consume(TokenKind::Plus), Ok(TokenKind::Plus));
    assert_eq!(parser.consume(TokenKind::Int), Ok(TokenKind::Int));
    assert_eq!(parser.consume(TokenKind::Eof), Ok(TokenKind::Eof));
    assert_eq!(
        parser.consume(TokenKind::Eof),
        Err(ParseError::Mismatch { expected: TokenKind::Eof, found: token(TokenKind::Eof, 5, 5) })
    );
}

#[test]
fn unknown_operator() {
    assert_eq!(
        parser::parse("1 2"),
        Err(ParseError::UnknownOperator { found: token(TokenKind::Int, 2, 3) })
    );
    assert_eq!(
        parser::parse("x = 1"),
        Err(ParseError::UnknownOperator { found: token(TokenKind::Equals, 2, 3) })
    );
    assert_eq!(
        parser::parse("1 # 2"),
        Err(ParseError::UnknownOperator { found: token(TokenKind::Invalid, 2, 3) })
    );
    assert_eq!(
        parser::parse("(1 ; 2)"),
        Err(ParseError::UnknownOperator { found: token(TokenKind::Semicolon, 3, 4) })
    );
}

#[test]
fn integer_that_does_not_fit() {
    let max = usize::MAX.to_string();
    assert_eq!(parser::parse(&max), Ok(integer(usize::MAX)));
    let over = format!("{}0", max);
    assert_eq!(
        parser::parse(&over),
        Err(ParseError::InvalidNumber { found: token(TokenKind::Int, 0, over.len()) })
    );
    let mut next = max.clone().into_bytes();
    let last = next.len() - 1;
    next[last] += 1;
    let next = String::from_utf8(next).unwrap();
    assert_eq!(
        parser::parse(&next),
        Err(ParseError::InvalidNumber { found: token(TokenKind::Int, 0, next.len()) })
    );
}

#[test]
fn numerals() {
    assert_eq!(parse_integer("123".as_bytes(), 0, 3), Some(123));
    assert_eq!(parse_integer("007".as_bytes(), 0, 3), Some(7));
    assert_eq!(parse_integer("a42b".as_bytes(), 1, 3), Some(42));
    assert_eq!(parse_integer("0".as_bytes(), 0, 1), Some(0));
    assert_eq!(parse_integer("12".as_bytes(), 1, 1), None);
    assert_eq!(parse_integer("1x".as_bytes(), 0, 2), None);
    assert_eq!(parse_integer("+1".as_bytes(), 0, 2), None);
    assert_eq!(parse("0042"), integer(42));
}

#[test]
fn peek_does_not_consume() {
    let mut parser = parser::new("  a + 1");
    assert_eq!(parser.peek(), TokenKind::Identifier);
    assert_eq!(parser.peek(), TokenKind::Identifier);
    assert!(parser.at(TokenKind::Identifier));
    assert!(!parser.at(TokenKind::Plus));
    assert_eq!(parser.peek_token(), token(TokenKind::Identifier, 2, 3));
    let first = parser.next().unwrap();
    assert_eq!(first, token(TokenKind::Identifier, 2, 3));
    assert_eq!(parser.text(first), "a");
    assert_eq!(parser.next(), Some(token(TokenKind::Plus, 4, 5)));
    assert_eq!(parser.next(), Some(token(TokenKind::Int, 6, 7)));
    assert_eq!(parser.peek(), TokenKind::Eof);
    assert_eq!(parser.next(), Some(token(TokenKind::Eof, 7, 7)));
    assert_eq!(parser.peek(), TokenKind::Eof);
    assert_eq!(parser.peek_token(), token(TokenKind::Eof, 7, 7));
    assert_eq!(parser.next(), None);
    assert_eq!(parser.peek(), TokenKind::Eof);
}

#[test]
fn filter_leaves_whitespace_out() {
    let mut tokens = TokenIter::new("1 + 3");
    assert_eq!(tokens.next(), Some(token(TokenKind::Int, 0, 1)));
    assert_eq!(tokens.next(), Some(token(TokenKind::Plus, 2, 3)));
    assert_eq!(tokens.next(), Some(token(TokenKind::Int, 4, 5)));
    assert_eq!(tokens.next(), Some(token(TokenKind::Eof, 5, 5)));
    assert_eq!(tokens.next(), None);
    assert_eq!(tokens.next(), None);
}

#[test]
fn filter_keeps_the_order_of_the_rest() {
    let input = "  let\tx =\n(1.5 * \"s\") ;  ";
    let mut tokens = TokenIter::new(input);
    let mut filtered = Vec::new();
    while let Some(t) = tokens.next() {
        filtered.push(t);
    }
    let expected: Vec<Token> = exprlang::lexer::tokenize(input)
        .into_iter()
        .filter(|t| t.kind != TokenKind::Whitespace)
        .collect();
    assert_eq!(filtered, expected);
    assert_eq!(filtered.len(), 10);
}

#[test]
fn token_text_is_the_span_of_the_input() {
    let input = "ab + 12";
    assert_eq!(token(TokenKind::Identifier, 0, 2).text(input), "ab");
    assert_eq!(token(TokenKind::Int, 5, 7).text(input), "12");
    assert_eq!(token(TokenKind::Eof, 7, 7).text(input), "");
    assert_eq!(exprlang::token::slice_text("h\u{e9}llo", 1, 3), "\u{e9}");
}

#[test]
fn clone_copies_the_tree() {
    let expr = parse("(a + 1.5) * \"s\" - 2");
    let copy = expr.clone();
    assert_eq!(copy, expr);
    assert_eq!(
        copy,
        binop(
            binop(
                binop(ident("a"), TokenKind::Plus, float("1.5")),
                TokenKind::Star,
                string("s")
            ),
            TokenKind::Minus,
            integer(2)
        )
    );
    assert_eq!(Literal::Int(3).clone(), Literal::Int(3));
}

#[test]
fn builders_build_the_variants() {
    assert_eq!(integer(7), Expr::Literal(Literal::Int(7)));
    assert_eq!(float("0.5"), Expr::Literal(Literal::Float("0.5".to_string())));
    assert_eq!(string("s"), Expr::Literal(Literal::String("s".to_string())));
    assert_eq!(ident("x"), Expr::Ident("x".to_string()));
    assert_eq!(
        binop(integer(1), TokenKind::Slash, ident("y")),
        Expr::Binary {
            op: TokenKind::Slash,
            lhs: Box::new(Expr::Literal(Literal::Int(1))),
            rhs: Box::new(Expr::Ident("y".to_string())),
        }
    );
}

#[test]
fn kind_names() {
    let names: Vec<&str> = [
        TokenKind::Plus,
        TokenKind::Minus,
        TokenKind::Star,
        TokenKind::Slash,
        TokenKind::Equals,
        TokenKind::Semicolon,
        TokenKind::LParen,
        TokenKind::RParen,
        TokenKind::Int,
        TokenKind::Float,
        TokenKind::String,
        TokenKind::Identifier,
        TokenKind::KeywordLet,
        TokenKind::Whitespace,
        TokenKind::Eof,
        TokenKind::Invalid,
    ]
    .iter()
    .map(|kind| kind.name())
    .collect();
    assert_eq!(
        names,
        vec![
            "+", "-", "*", "/", "=", ";", "'('", "')'", "int", "float", "string", "ident", "let",
            "' '", "EOF", "invalid"
        ]
    );
}

#[test]
fn numerals_name_what_the_standard_library_reads() {
    let texts = [
        "0",
        "7",
        "0042",
        "4294967295",
        "4294967296",
        "18446744073709551615",
        "18446744073709551616",
        "99999999999999999999999",
        "000000000000000000000000000001",
    ];
    for text in texts {
        assert_eq!(parse_integer(text.as_bytes(), 0, text.len()), text.parse::<usize>().ok());
    }
}

#[test]
fn filtered_stream_is_the_lexer_without_whitespace() {
    for input in ["", " ", "1", " 1 ", "a  +\t\n b", "\u{2003}(\u{a0})"] {
        let mut tokens = TokenIter::new(input);
        let mut filtered = Vec::new();
        while let Some(t) = tokens.next() {
            assert!(t.kind != TokenKind::Whitespace);
            filtered.push(t);
        }
        let expected: Vec<Token> = exprlang::lexer::tokenize(input)
            .into_iter()
            .filter(|t| t.kind != TokenKind::Whitespace)
            .collect();
        assert_eq!(filtered, expected);
    }
}

fn read(expr: &Expr, out: &mut Vec<String>) {
    match expr {
        Expr::Binary { op, lhs, rhs } => {
            read(lhs, out);
            out.push(op.name().to_string());
            read(rhs, out);
        }
        Expr::Ident(name) => out.push(name.clone()),
        Expr::Literal(Literal::Int(value)) => out.push(value.to_string()),
        Expr::Literal(Literal::Float(text)) => out.push(text.clone()),
        Expr::Literal(Literal::String(text)) => out.push(format!("\"{}\"", text)),
    }
}

#[test]
fn tree_reads_as_its_tokens() {
    let inputs = [
        "1",
        "1 + 2 * 3",
        "(1 + 2) * 3",
        "1 - 2 - 3",
        "a * (b + c) / 2.5 - \"s\"",
        "((x)) + (y - (z * 7))",
    ];
    for input in inputs {
        let mut pieces = Vec::new();
        read(&parse(input), &mut pieces);
        let expected: Vec<String> = exprlang::lexer::tokenize(input)
            .iter()
            .filter(|t| {
                !matches!(
                    t.kind,
                    TokenKind::Whitespace | TokenKind::LParen | TokenKind::RParen | TokenKind::Eof
                )
            })
            .map(|t| t.text(input).to_string())
            .collect();
        assert_eq!(pieces, expected);
    }
}
