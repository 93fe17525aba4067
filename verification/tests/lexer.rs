use gshell::enums::{Op, Token};
use gshell::lexer::{keep_while, keep_while_ex, read_until_close_paren, tokenize, CharStream};

fn input(s: &str) -> Token {
    Token::Input(s.to_string())
}

fn op(o: Op) -> Token {
    Token::Operator(o)
}

fn lex(line: &str) -> Vec<Token> {
    let mut tokens = Vec::new();
    tokenize(&line.to_string(), &mut tokens);
    tokens
}

fn stream(s: &str) -> CharStream {
    CharStream::from_chars(s.chars().collect())
}

fn rest(mut st: CharStream) -> String {
    let mut out = String::new();
    while let Some(c) = st.next() {
        out.push(c);
    }
    out
}

#[test]
fn test_tokenize() {}

#[test]
fn tokenize_redirect_input() {
    assert_eq!(lex("sort < foo.txt"), vec![input("sort"), op(Op::RedirectLeft), input("foo.txt")]);
}

#[test]
fn tokenize_redirect_output() {
    assert_eq!(
        lex("sort foo.txt > output.txt"),
        vec![input("sort"), input("foo.txt"), op(Op::RedirectRight), input("output.txt")]
    );
}

#[test]
fn tokenize_pipe() {
    assert_eq!(lex("sort foo.txt | uniq"), vec![input("sort"), input("foo.txt"), op(Op::Pipe), input("uniq")]);
}

#[test]
fn tokenize_background() {
    assert_eq!(lex("sleep 10 &"), vec![input("sleep"), input("10"), op(Op::Background)]);
}

#[test]
fn tokenize_and() {
    assert_eq!(lex("true && echo one"), vec![input("true"), op(Op::And), input("echo"), input("one")]);
}

#[test]
fn tokenize_or() {
    assert_eq!(lex("true || echo one"), vec![input("true"), op(Op::Or), input("echo"), input("one")]);
}

#[test]
fn tokenize_semicolon() {
    assert_eq!(
        lex("echo one; echo two"),
        vec![input("echo"), input("one"), op(Op::Semicolon), input("echo"), input("two")]
    );
}

#[test]
fn tokenize_operators_without_spaces() {
    assert_eq!(
        lex(";&&||&|<>"),
        vec![
            op(Op::Semicolon),
            op(Op::And),
            op(Op::Or),
            op(Op::Background),
            op(Op::Pipe),
            op(Op::RedirectLeft),
            op(Op::RedirectRight)
        ]
    );
}

#[test]
fn tokenize_quotes_keep_their_content() {
    assert_eq!(lex("echo 'a b' \"c | d\""), vec![input("echo"), input("'a b'"), input("\"c | d\"")]);
}

#[test]
fn tokenize_unclosed_quote_runs_to_the_end() {
    assert_eq!(lex("echo 'a b"), vec![input("echo"), input("'a b")]);
}

#[test]
fn tokenize_group() {
    assert_eq!(lex("(echo a; echo b) | wc"), vec![input("(echo a; echo b)"), op(Op::Pipe), input("wc")]);
}

#[test]
fn tokenize_nested_group_with_quoted_paren() {
    assert_eq!(lex("(a (b) ')' c) d"), vec![input("(a (b) ')' c)"), input("d")]);
}

#[test]
fn tokenize_single_character_words() {
    assert_eq!(lex("a b"), vec![input("a"), input("b")]);
    assert_eq!(lex("echo a b"), vec![input("echo"), input("a"), input("b")]);
    assert_eq!(lex("a;b"), vec![input("a"), op(Op::Semicolon), input("b")]);
    assert_eq!(lex("ab;c"), vec![input("ab"), op(Op::Semicolon), input("c")]);
}

#[test]
fn tokenize_pieces_one_after_the_other() {
    let mut one = Vec::new();
    tokenize(&"x".to_string(), &mut one);
    tokenize(&"y 'z'".to_string(), &mut one);
    assert_eq!(one, lex("x y 'z'"));
}

#[test]
fn tokenize_unicode_whitespace_separates_words() {
    assert_eq!(lex("ab\tcd\u{a0}ef\ngh"), vec![input("ab"), input("cd"), input("ef"), input("gh")]);
}

#[test]
fn tokenize_whitespace_only_gives_nothing() {
    assert_eq!(lex(" \t \n "), vec![]);
    assert_eq!(lex(""), vec![]);
}

#[test]
fn tokenize_appends_to_the_tokens_given() {
    let mut tokens = vec![input("x")];
    tokenize(&"ls".to_string(), &mut tokens);
    assert_eq!(tokens, vec![input("x"), input("ls")]);
}

#[test]
fn keep_while_stops_after_the_rejected_character() {
    let mut s = String::from("'");
    let mut st = stream("abc'def");
    keep_while(&mut s, |x| x != '\'', &mut st);
    assert_eq!(s, "'abc'");
    assert_eq!(rest(st), "def");
}

#[test]
fn keep_while_takes_everything_when_nothing_is_rejected() {
    let mut s = String::new();
    let mut st = stream("abc");
    keep_while(&mut s, |x| x != '\'', &mut st);
    assert_eq!(s, "abc");
    assert_eq!(rest(st), "");
}

#[test]
fn keep_while_ex_leaves_the_rejected_character() {
    let mut s = String::from("l");
    let mut st = stream("s -l");
    keep_while_ex(&mut s, |x| x != ' ', &mut st);
    assert_eq!(s, "ls");
    assert_eq!(rest(st), " -l");
}

#[test]
fn keep_while_ex_takes_nothing_rejected() {
    let mut s = String::new();
    let mut st = stream(" x");
    keep_while_ex(&mut s, |_| false, &mut st);
    assert_eq!(s, "");
    assert_eq!(rest(st), " x");
    let mut s = String::from("a");
    let mut st = stream(" b");
    keep_while_ex(&mut s, |x| !x.is_whitespace(), &mut st);
    assert_eq!(s, "a");
    assert_eq!(rest(st), " b");
}

#[test]
fn keep_while_ex_takes_everything_accepted() {
    let mut s = String::new();
    let mut st = stream("abc");
    keep_while_ex(&mut s, |_| true, &mut st);
    assert_eq!(s, "abc");
    assert_eq!(rest(st), "");
}

#[test]
fn read_until_close_paren_stops_at_the_matching_paren() {
    let mut s = String::from("(");
    let mut st = stream("a (b) \"(\" c) d");
    read_until_close_paren(&mut s, &mut st);
    assert_eq!(s, "(a (b) \"(\" c)");
    assert_eq!(rest(st), " d");
}

#[test]
fn read_until_close_paren_runs_to_the_end_when_unbalanced() {
    let mut s = String::from("(");
    let mut st = stream("a (b)");
    read_until_close_paren(&mut s, &mut st);
    assert_eq!(s, "(a (b)");
    assert_eq!(rest(st), "");
}

#[test]
fn char_stream_peek_and_next() {
    let mut st = CharStream::new(&"ab".to_string());
    assert_eq!(st.peek(), Some('a'));
    assert_eq!(st.next(), Some('a'));
    assert_eq!(st.next(), Some('b'));
    assert_eq!(st.peek(), None);
    assert_eq!(st.next(), None);
}

fn text_of(tokens: &[Token]) -> String {
    let mut out = String::new();
    for t in tokens {
        match t {
            Token::Input(s) => out.push_str(s),
            Token::Operator(o) => out.push_str(match o {
                Op::Semicolon => ";",
                Op::Pipe => "|",
                Op::RedirectLeft => "<",
                Op::RedirectRight => ">",
                Op::Or => "||",
                Op::And => "&&",
                Op::Background => "&",
                Op::Append => ">>",
            }),
        }
    }
    out
}

#[test]
fn tokens_keep_every_character_but_whitespace() {
    let line = "cat 'a  b' | (grep x;  ls) && echo done &";
    assert_eq!(text_of(&lex(line)), "cat'a  b'|(grep x;  ls)&&echodone&");
}

#[test]
fn every_word_has_a_character() {
    for line in ["a ; b", "'' \"\" ()", "x&&y||z", "  (  ) ' "] {
        for t in lex(line) {
            if let Token::Input(x) = t {
                assert!(!x.is_empty());
            }
        }
    }
}
