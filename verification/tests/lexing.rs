use lexparse::errors::LexError;
use lexparse::lexer::{lexer, LexerToken};

fn lex_ok(input: &str) -> Vec<LexerToken> {
    match lexer(input.to_string()) {
        Ok(tokens) => tokens,
        Err(e) => panic!("expected tokens for {:?}, got error {:?}", input, e),
    }
}

fn lex_err(input: &str) -> LexError {
    match lexer(input.to_string()) {
        Ok(tokens) => panic!("expected an error for {:?}, got tokens {:?}", input, tokens),
        Err(e) => e,
    }
}

#[test]
fn lex_empty_input_is_just_end_of_file() {
    let tokens = lex_ok("");
    assert_eq!(tokens.len(), 1);
    assert!(matches!(tokens[0], LexerToken::EndOfFile));
}

#[test]
fn lex_ends_in_exactly_one_end_of_file() {
    let tokens = lex_ok("a b // trailing comment");
    assert!(matches!(tokens.last(), Some(LexerToken::EndOfFile)));
    let eof_count = tokens
        .iter()
        .filter(|t| matches!(t, LexerToken::EndOfFile))
        .count();
    assert_eq!(eof_count, 1);
}

#[test]
fn lex_simple_expression() {
    let tokens = lex_ok("1+2*3");
    assert!(matches!(
        tokens.as_slice(),
        [
            LexerToken::LiteralInt(1),
            LexerToken::Plus,
            LexerToken::LiteralInt(2),
            LexerToken::Star,
            LexerToken::LiteralInt(3),
            LexerToken::EndOfFile,
        ]
    ));
}

#[test]
fn lex_collapses_whitespace_runs() {
    let tokens = lex_ok("a  \t\n b");
    assert!(matches!(
        tokens.as_slice(),
        [
            LexerToken::Identifier(_),
            LexerToken::Whitespace,
            LexerToken::Identifier(_),
            LexerToken::EndOfFile,
        ]
    ));
}

#[test]
fn lex_keywords_and_identifiers() {
    let tokens = lex_ok("true false float int bool selector string fn foo_1");
    let significant: Vec<&LexerToken> = tokens
        .iter()
        .filter(|t| !matches!(t, LexerToken::Whitespace))
        .collect();
    assert!(matches!(significant[0], LexerToken::TrueKeyword));
    assert!(matches!(significant[1], LexerToken::FalseKeyword));
    assert!(matches!(significant[2], LexerToken::FloatKeyword));
    assert!(matches!(significant[3], LexerToken::IntKeyword));
    assert!(matches!(significant[4], LexerToken::BoolKeyword));
    assert!(matches!(significant[5], LexerToken::SelectorKeyword));
    assert!(matches!(significant[6], LexerToken::StringKeyword));
    assert!(matches!(significant[7], LexerToken::FunctionKeyword));
    match significant[8] {
        LexerToken::Identifier(name) => assert_eq!(name, "foo_1"),
        other => panic!("expected an identifier, got {:?}", other),
    }
    assert!(matches!(significant[9], LexerToken::EndOfFile));
}

#[test]
fn lex_identifier_can_start_with_keyword_text() {
    let tokens = lex_ok("intx");
    match &tokens[0] {
        LexerToken::Identifier(name) => assert_eq!(name, "intx"),
        other => panic!("expected an identifier, got {:?}", other),
    }
}

#[test]
fn lex_digit_then_letter_splits_tokens() {
    let tokens = lex_ok("1a");
    assert!(matches!(tokens[0], LexerToken::LiteralInt(1)));
    match &tokens[1] {
        LexerToken::Identifier(name) => assert_eq!(name, "a"),
        other => panic!("expected an identifier, got {:?}", other),
    }
}

#[test]
fn lex_line_comment_stops_at_newline() {
    let tokens = lex_ok("//hello world\nx");
    match &tokens[0] {
        LexerToken::Comment(text) => assert_eq!(text, "hello world"),
        other => panic!("expected a comment, got {:?}", other),
    }
    assert!(matches!(tokens[1], LexerToken::Whitespace));
    assert!(matches!(tokens[2], LexerToken::Identifier(_)));
}

#[test]
fn lex_lone_slash_is_division() {
    let tokens = lex_ok("1/2");
    assert!(matches!(
        tokens.as_slice(),
        [
            LexerToken::LiteralInt(1),
            LexerToken::Slash,
            LexerToken::LiteralInt(2),
            LexerToken::EndOfFile,
        ]
    ));
}

#[test]
fn lex_lookahead_for_bang_and_equals() {
    let tokens = lex_ok("=!=!");
    assert!(matches!(
        tokens.as_slice(),
        [
            LexerToken::Equals,
            LexerToken::BangEquals,
            LexerToken::Bang,
            LexerToken::EndOfFile,
        ]
    ));
    let tokens = lex_ok("==");
    assert!(matches!(
        tokens.as_slice(),
        [LexerToken::DoubleEquals, LexerToken::EndOfFile]
    ));
}

#[test]
fn lex_fixed_punctuation() {
    let tokens = lex_ok("();.-=!");
    assert!(matches!(
        tokens.as_slice(),
        [
            LexerToken::OpenParenthesis,
            LexerToken::CloseParenthesis,
            LexerToken::Semicolon,
            LexerToken::Period,
            LexerToken::Dash,
            LexerToken::Equals,
            LexerToken::Bang,
            LexerToken::EndOfFile,
        ]
    ));
}

#[test]
fn lex_string_literal_verbatim() {
    let tokens = lex_ok("\"hi there\"");
    match &tokens[0] {
        LexerToken::LiteralString(text) => assert_eq!(text, "hi there"),
        other => panic!("expected a string literal, got {:?}", other),
    }
    assert!(matches!(tokens[1], LexerToken::EndOfFile));
}

#[test]
fn lex_empty_string_literal() {
    let tokens = lex_ok("\"\"");
    match &tokens[0] {
        LexerToken::LiteralString(text) => assert_eq!(text, ""),
        other => panic!("expected a string literal, got {:?}", other),
    }
    assert!(matches!(tokens[1], LexerToken::EndOfFile));
}

#[test]
fn lex_comment_at_end_of_input() {
    let tokens = lex_ok("//abc");
    match &tokens[0] {
        LexerToken::Comment(text) => assert_eq!(text, "abc"),
        other => panic!("expected a comment, got {:?}", other),
    }
    assert!(matches!(tokens[1], LexerToken::EndOfFile));
}

#[test]
fn lex_unterminated_string_is_an_error_not_a_crash() {
    let e = lex_err("\"abc");
    assert!(matches!(e, LexError::UnterminatedLiteralGroup));
}

#[test]
fn lex_float_literal_keeps_its_text() {
    let tokens = lex_ok("1.5");
    match &tokens[0] {
        LexerToken::LiteralFloat(text) => assert_eq!(text, "1.5"),
        other => panic!("expected a float literal, got {:?}", other),
    }
}

#[test]
fn lex_trailing_dot_float_is_accepted() {
    let tokens = lex_ok("7.");
    match &tokens[0] {
        LexerToken::LiteralFloat(text) => assert_eq!(text, "7."),
        other => panic!("expected a float literal, got {:?}", other),
    }
}

#[test]
fn lex_two_dots_is_a_malformed_float() {
    let e = lex_err("1.2.3");
    match e {
        LexError::MalformedNumericLiteral(text) => assert_eq!(text, "1.2.3"),
        other => panic!("expected a malformed numeric literal, got {:?}", other),
    }
}

#[test]
fn lex_int_at_the_i64_limit() {
    let tokens = lex_ok("9223372036854775807");
    assert!(matches!(tokens[0], LexerToken::LiteralInt(9223372036854775807)));
}

#[test]
fn lex_int_overflow_is_an_error() {
    let e = lex_err("9223372036854775808");
    assert!(matches!(e, LexError::MalformedNumericLiteral(_)));
}

#[test]
fn lex_unrecognized_symbol_fails_with_invalid_character() {
    let e = lex_err("1 + #");
    match e {
        LexError::InvalidCharacter(c) => assert_eq!(c, '#'),
        other => panic!("expected an invalid-character error, got {:?}", other),
    }
}

#[test]
fn lex_reconcatenating_non_trivia_matches_stripped_source() {
    // structural fidelity: the non-whitespace, non-comment tokens of
    // "1 + 2 // x" are exactly those of "1+2", in order
    let spaced = lex_ok("1 + 2 // x");
    let dense = lex_ok("1+2");
    let spaced_kept: Vec<&LexerToken> = spaced
        .iter()
        .filter(|t| !matches!(t, LexerToken::Whitespace | LexerToken::Comment(_)))
        .collect();
    assert_eq!(spaced_kept.len(), dense.len());
    for (a, b) in spaced_kept.iter().zip(dense.iter()) {
        assert_eq!(format!("{:?}", a), format!("{:?}", b));
    }
}
