use lexparse::lexer::{lexer, LexerToken};
use lexparse::parser::{parser, Expression, ParseError, SyntaxTree, TokenKind};

fn parse_ok(input: &str) -> Box<SyntaxTree> {
    let tokens = lexer(input.to_string()).expect("tokenization should succeed");
    match parser(tokens) {
        Ok(tree) => tree,
        Err(e) => panic!("expected a parse of {:?}, got error {:?}", input, e),
    }
}

fn parse_err(input: &str) -> ParseError {
    let tokens = lexer(input.to_string()).expect("tokenization should succeed");
    match parser(tokens) {
        Ok(_) => panic!("expected a parse error for {:?}", input),
        Err(e) => e,
    }
}

fn literal_value(e: &Expression) -> i64 {
    match e {
        Expression::LiteralExpression(LexerToken::LiteralInt(v)) => *v,
        other => panic!("expected an integer literal, got {:?} node", name_of(other)),
    }
}

fn as_binary(e: &Expression) -> (&Expression, &LexerToken, &Expression) {
    match e {
        Expression::BinaryExpression(l, op, r) => (l, op, r),
        other => panic!("expected a binary node, got {:?}", name_of(other)),
    }
}

fn as_parentheses(e: &Expression) -> &Expression {
    match e {
        Expression::ParenthesesExpression(open, inner, close) => {
            assert!(matches!(open, LexerToken::OpenParenthesis));
            assert!(matches!(close, LexerToken::CloseParenthesis));
            inner
        }
        other => panic!("expected a parentheses node, got {:?}", name_of(other)),
    }
}

fn name_of(e: &Expression) -> &'static str {
    match e {
        Expression::LiteralExpression(_) => "LiteralExpression",
        Expression::BinaryExpression(_, _, _) => "BinaryExpression",
        Expression::UnaryExpression(_, _) => "UnaryExpression",
        Expression::ParenthesesExpression(_, _, _) => "ParenthesesExpression",
    }
}

#[test]
fn parse_single_literal() {
    let tree = parse_ok("42");
    assert_eq!(literal_value(&tree.inner_expression), 42);
    assert!(matches!(tree.end_of_file_token, LexerToken::EndOfFile));
}

#[test]
fn parse_multiplication_binds_tighter_than_addition() {
    // 1+2*3 parses as 1 + (2*3)
    let tree = parse_ok("1+2*3");
    let (l, op, r) = as_binary(&tree.inner_expression);
    assert!(matches!(op, LexerToken::Plus));
    assert_eq!(literal_value(l), 1);
    let (rl, rop, rr) = as_binary(r);
    assert!(matches!(rop, LexerToken::Star));
    assert_eq!(literal_value(rl), 2);
    assert_eq!(literal_value(rr), 3);
}

#[test]
fn parse_parentheses_override_precedence() {
    // (1+2)*3 parses as a product whose left factor is the group
    let tree = parse_ok("(1+2)*3");
    let (l, op, r) = as_binary(&tree.inner_expression);
    assert!(matches!(op, LexerToken::Star));
    assert_eq!(literal_value(r), 3);
    let inner = as_parentheses(l);
    let (il, iop, ir) = as_binary(inner);
    assert!(matches!(iop, LexerToken::Plus));
    assert_eq!(literal_value(il), 1);
    assert_eq!(literal_value(ir), 2);
}

#[test]
fn parse_addition_left_associates() {
    // 1+2+3 parses as (1+2)+3
    let tree = parse_ok("1+2+3");
    let (l, op, r) = as_binary(&tree.inner_expression);
    assert!(matches!(op, LexerToken::Plus));
    assert_eq!(literal_value(r), 3);
    let (ll, lop, lr) = as_binary(l);
    assert!(matches!(lop, LexerToken::Plus));
    assert_eq!(literal_value(ll), 1);
    assert_eq!(literal_value(lr), 2);
}

#[test]
fn parse_division_left_associates() {
    // 8/4/2 parses as (8/4)/2
    let tree = parse_ok("8/4/2");
    let (l, op, r) = as_binary(&tree.inner_expression);
    assert!(matches!(op, LexerToken::Slash));
    assert_eq!(literal_value(r), 2);
    let (ll, lop, lr) = as_binary(l);
    assert!(matches!(lop, LexerToken::Slash));
    assert_eq!(literal_value(ll), 8);
    assert_eq!(literal_value(lr), 4);
}

#[test]
fn parse_mixed_tiers() {
    // 1*2-3 parses as (1*2)-3
    let tree = parse_ok("1*2-3");
    let (l, op, r) = as_binary(&tree.inner_expression);
    assert!(matches!(op, LexerToken::Dash));
    assert_eq!(literal_value(r), 3);
    let (ll, lop, lr) = as_binary(l);
    assert!(matches!(lop, LexerToken::Star));
    assert_eq!(literal_value(ll), 1);
    assert_eq!(literal_value(lr), 2);
}

#[test]
fn parse_ignores_whitespace_and_comments() {
    let tree = parse_ok("1 + 2 // sum");
    let (l, op, r) = as_binary(&tree.inner_expression);
    assert!(matches!(op, LexerToken::Plus));
    assert_eq!(literal_value(l), 1);
    assert_eq!(literal_value(r), 2);
}

#[test]
fn parse_missing_close_parenthesis_fails() {
    let e = parse_err("(1+2");
    match e {
        ParseError::UnexpectedToken(found, expected) => {
            assert!(matches!(found, LexerToken::EndOfFile));
            assert_eq!(expected, TokenKind::CloseParenthesis);
        }
        other => panic!("expected an unexpected-token error, got {:?}", other),
    }
}

#[test]
fn parse_trailing_token_fails_expecting_end_of_file() {
    let e = parse_err("1 2");
    match e {
        ParseError::UnexpectedToken(found, expected) => {
            assert!(matches!(found, LexerToken::LiteralInt(2)));
            assert_eq!(expected, TokenKind::EndOfFile);
        }
        other => panic!("expected an unexpected-token error, got {:?}", other),
    }
}

#[test]
fn parse_non_integer_literals_are_rejected_as_primaries() {
    // the grammar's primary rule accepts only integer literals
    assert!(matches!(parse_err("1.5"), ParseError::UnexpectedToken(_, TokenKind::LiteralInt)));
    assert!(matches!(parse_err("true"), ParseError::UnexpectedToken(_, TokenKind::LiteralInt)));
    assert!(matches!(parse_err("\"x\""), ParseError::UnexpectedToken(_, TokenKind::LiteralInt)));
    assert!(matches!(parse_err("@a"), ParseError::UnexpectedToken(_, TokenKind::LiteralInt)));
}

#[test]
fn parse_empty_input_fails_on_the_end_of_file_token() {
    let e = parse_err("");
    assert!(matches!(e, ParseError::UnexpectedToken(LexerToken::EndOfFile, TokenKind::LiteralInt)));
}

#[test]
fn parse_operator_without_operand_fails() {
    let e = parse_err("1+");
    assert!(matches!(e, ParseError::UnexpectedToken(LexerToken::EndOfFile, TokenKind::LiteralInt)));
}

#[test]
fn parse_empty_token_sequence_reports_missing_input() {
    // a caller that violates the tokenizer's protocol and hands the parser
    // no tokens at all gets an error, not a crash
    match parser(Vec::new()) {
        Err(ParseError::UnexpectedEndOfInput) => {}
        Err(other) => panic!("expected an unexpected-end-of-input error, got {:?}", other),
        Ok(_) => panic!("expected an unexpected-end-of-input error, got a parse"),
    }
}
