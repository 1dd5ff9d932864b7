use lexparse::lexer::{lexer, LexerToken};
use lexparse::parser::parser;
use lexparse::pretty::{pretty_print, PrettyPrintable};

#[test]
fn print_parse_tree_with_box_glyphs() {
    let tokens = lexer("1+2".to_string()).expect("tokenization should succeed");
    let tree = parser(tokens).expect("parse should succeed");
    let mut out = String::new();
    pretty_print(&*tree, &mut out, "", true);
    let expected = "\
└──SyntaxTree
   ├──BinaryExpression
   │  ├──LiteralExpression
   │  │  └──LiteralInt(1)
   │  ├──Plus
   │  └──LiteralExpression
   │     └──LiteralInt(2)
   └──EndOfFile
";
    assert_eq!(out, expected);
}

#[test]
fn print_single_token_line() {
    let mut out = String::new();
    pretty_print(&LexerToken::Semicolon, &mut out, "", true);
    assert_eq!(out, "└──Semicolon\n");
}

#[test]
fn print_appends_after_existing_text() {
    let mut out = String::from("before\n");
    pretty_print(&LexerToken::Plus, &mut out, "", false);
    assert_eq!(out, "before\n├──Plus\n");
}

#[test]
fn print_token_labels_carry_payloads() {
    assert_eq!(LexerToken::LiteralInt(42).stringify(), "LiteralInt(42)");
    assert_eq!(LexerToken::LiteralInt(-7).stringify(), "LiteralInt(-7)");
    assert_eq!(
        LexerToken::LiteralInt(i64::MIN).stringify(),
        "LiteralInt(-9223372036854775808)"
    );
    assert_eq!(
        LexerToken::Identifier("hi".to_string()).stringify(),
        "Identifier(hi)"
    );
    assert_eq!(
        LexerToken::LiteralFloat("1.5".to_string()).stringify(),
        "LiteralFloat(1.5)"
    );
}

#[test]
fn print_selector_label() {
    let tokens = lexer("@a[limit=1]".to_string()).expect("tokenization should succeed");
    assert_eq!(
        tokens[0].stringify(),
        "LiteralSelector(PlayerAll, limit=1)"
    );
}

#[test]
fn print_tokens_have_no_children() {
    assert!(LexerToken::Star.get_children().is_empty());
}
