use gshell::enums::Token;
use gshell::lexer::tokenize;
use gshell::text::{is_whitespace, str_equals};

fn lex(line: &str) -> Vec<Token> {
    let mut tokens = Vec::new();
    tokenize(&line.to_string(), &mut tokens);
    tokens
}

#[test]
fn whitespace_test_follows_unicode() {
    // A no-break space and an ideographic space separate words; `越` does not.
    assert_eq!(lex("ab\u{a0}cd\u{3000}ef"), vec![
        Token::Input("ab".to_string()),
        Token::Input("cd".to_string()),
        Token::Input("ef".to_string()),
    ]);
    assert_eq!(lex("越越 越越"), vec![Token::Input("越越".to_string()), Token::Input("越越".to_string())]);
}

#[test]
fn words_are_built_character_by_character() {
    assert_eq!(lex("héllo wörld"), vec![Token::Input("héllo".to_string()), Token::Input("wörld".to_string())]);
}

#[test]
fn str_equals_compares_characters() {
    assert!(str_equals("cd", "cd"));
    assert!(!str_equals("cd", "c"));
    assert!(!str_equals("cd", "ce"));
    assert!(str_equals("", ""));
}


#[test]
fn whitespace_test_agrees_with_std_on_every_char() {
    for u in 0u32..=0x10FFFF {
        if let Some(c) = char::from_u32(u) {
            assert_eq!(is_whitespace(c), c.is_whitespace(), "U+{:04X}", u);
        }
    }
}
