use lexparse::errors::LexError;
use lexparse::lexer::{lexer, LexerToken};
use lexparse::selector::{Selector, SelectorType};

fn lex_one_selector(input: &str) -> Selector {
    match lexer(input.to_string()) {
        Ok(tokens) => match tokens.into_iter().next() {
            Some(LexerToken::LiteralSelector(sel)) => sel,
            other => panic!("expected a selector token for {:?}, got {:?}", input, other),
        },
        Err(e) => panic!("expected tokens for {:?}, got error {:?}", input, e),
    }
}

#[test]
fn selector_with_limit_one_body() {
    let sel = lex_one_selector("@a[limit=1]");
    assert_eq!(sel.selector_type, SelectorType::PlayerAll);
    assert_eq!(sel.body, "limit=1");
    assert!(!sel.selects_multiple());
}

#[test]
fn selector_without_body_selects_multiple_by_kind() {
    let sel = lex_one_selector("@a");
    assert_eq!(sel.selector_type, SelectorType::PlayerAll);
    assert_eq!(sel.body, "");
    assert!(sel.selects_multiple());
    assert!(lex_one_selector("@e").selects_multiple());
    assert!(!lex_one_selector("@p").selects_multiple());
    assert!(!lex_one_selector("@r").selects_multiple());
    assert!(!lex_one_selector("@s").selects_multiple());
}

#[test]
fn single_target_kinds_stay_single_with_any_body() {
    assert!(!lex_one_selector("@p[limit=1]").selects_multiple());
    assert!(!lex_one_selector("@r[foo=bar]").selects_multiple());
    assert!(!lex_one_selector("@s[limit=2]").selects_multiple());
}

#[test]
fn selector_with_empty_bracket_body() {
    let sel = lex_one_selector("@e[]");
    assert_eq!(sel.selector_type, SelectorType::EntitiesAll);
    assert_eq!(sel.body, "");
    assert!(sel.selects_multiple());
}

#[test]
fn selector_kind_characters() {
    assert_eq!(lex_one_selector("@a").selector_type, SelectorType::PlayerAll);
    assert_eq!(lex_one_selector("@e").selector_type, SelectorType::EntitiesAll);
    assert_eq!(lex_one_selector("@p").selector_type, SelectorType::PlayerClosest);
    assert_eq!(lex_one_selector("@r").selector_type, SelectorType::PlayerRandom);
    assert_eq!(lex_one_selector("@s").selector_type, SelectorType::Caller);
}

#[test]
fn selector_new_rejects_unknown_kind() {
    match Selector::new('x', String::new()) {
        Err(LexError::MalformedSelector(Some(c))) => assert_eq!(c, 'x'),
        other => panic!("expected a malformed-selector error, got {:?}", other),
    }
    assert!(Selector::new('p', "limit=3".to_string()).is_ok());
}

#[test]
fn limit_modifier_variants() {
    // a limit of one written with a sign or leading zeros still counts
    assert!(!lex_one_selector("@e[limit=01]").selects_multiple());
    assert!(!lex_one_selector("@a[limit=+1]").selects_multiple());
    // any other limit leaves an all-kind selector multiple
    assert!(lex_one_selector("@a[limit=2]").selects_multiple());
    assert!(lex_one_selector("@a[limit=10]").selects_multiple());
    assert!(lex_one_selector("@a[limit=]").selects_multiple());
    assert!(lex_one_selector("@a[limit]").selects_multiple());
    // the modifier may sit anywhere in the comma-separated list
    assert!(!lex_one_selector("@a[foo=bar,limit=1]").selects_multiple());
    assert!(!lex_one_selector("@e[limit=1,foo=2]").selects_multiple());
    assert!(lex_one_selector("@a[mimit=1,foo=1]").selects_multiple());
    // only the last '='-segment of an item is its value
    assert!(!lex_one_selector("@a[limit=x=1]").selects_multiple());
}

#[test]
fn selector_lex_errors() {
    match lexer("@".to_string()) {
        Err(LexError::MalformedSelector(None)) => {}
        other => panic!("expected a malformed-selector error, got {:?}", other),
    }
    match lexer("@z".to_string()) {
        Err(LexError::MalformedSelector(Some('z'))) => {}
        other => panic!("expected a malformed-selector error, got {:?}", other),
    }
    match lexer("@z[foo]".to_string()) {
        Err(LexError::MalformedSelector(Some('z'))) => {}
        other => panic!("expected a malformed-selector error, got {:?}", other),
    }
    match lexer("@a[foo".to_string()) {
        Err(LexError::UnterminatedLiteralGroup) => {}
        other => panic!("expected an unterminated-group error, got {:?}", other),
    }
}
