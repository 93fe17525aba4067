use gshell::ast::Ast;
use gshell::enums::{Op, Token};
use gshell::lexer::tokenize;
use gshell::parser::{find_last_occ, make_ast, op_debug_name};

fn input(s: &str) -> Token {
    Token::Input(s.to_string())
}

fn op(o: Op) -> Token {
    Token::Operator(o)
}

fn parse_line(line: &str) -> Result<Box<Option<Ast>>, String> {
    let mut tokens = Vec::new();
    tokenize(&line.to_string(), &mut tokens);
    make_ast(&tokens)
}

fn shown(line: &str) -> String {
    match parse_line(line) {
        Ok(tree) => format!("{:?}", tree),
        Err(e) => format!("error: {}", e),
    }
}

#[test]
fn parse_command_with_arguments() {
    assert_eq!(shown("ls -l /tmp"), "Some(Leaf(\"ls\", [\"-l\", \"/tmp\"]))");
}

#[test]
fn parse_redirect_input() {
    assert_eq!(
        shown("sort < foo.txt"),
        "Some(Node(Some(Leaf(\"sort\", [])), Some(Leaf(\"foo.txt\", [])), RedirectLeft))"
    );
}

#[test]
fn parse_redirect_output() {
    assert_eq!(
        shown("sort foo.txt > output.txt"),
        "Some(Node(Some(Leaf(\"sort\", [\"foo.txt\"])), Some(Leaf(\"output.txt\", [])), RedirectRight))"
    );
}

#[test]
fn parse_pipe() {
    assert_eq!(
        shown("sort foo.txt | uniq"),
        "Some(Node(Some(Leaf(\"sort\", [\"foo.txt\"])), Some(Leaf(\"uniq\", [])), Pipe))"
    );
}

#[test]
fn parse_background_at_the_end() {
    assert_eq!(shown("sleep 10 &"), "Some(Node(Some(Leaf(\"sleep\", [\"10\"])), None, Background))");
}

#[test]
fn parse_and_or_semicolon() {
    assert_eq!(
        shown("true && echo one"),
        "Some(Node(Some(Leaf(\"true\", [])), Some(Leaf(\"echo\", [\"one\"])), And))"
    );
    assert_eq!(
        shown("true || echo one"),
        "Some(Node(Some(Leaf(\"true\", [])), Some(Leaf(\"echo\", [\"one\"])), Or))"
    );
    assert_eq!(
        shown("echo one; echo two"),
        "Some(Node(Some(Leaf(\"echo\", [\"one\"])), Some(Leaf(\"echo\", [\"two\"])), Semicolon))"
    );
}

#[test]
fn parse_splits_at_the_last_semicolon_first() {
    assert_eq!(
        shown("aa; bb | cc; dd"),
        "Some(Node(Some(Node(Some(Leaf(\"aa\", [])), Some(Node(Some(Leaf(\"bb\", [])), Some(Leaf(\"cc\", [])), Pipe)), Semicolon)), Some(Leaf(\"dd\", [])), Semicolon))"
    );
}

#[test]
fn parse_and_binds_looser_than_pipe() {
    assert_eq!(
        shown("aa | bb && cc"),
        "Some(Node(Some(Node(Some(Leaf(\"aa\", [])), Some(Leaf(\"bb\", [])), Pipe)), Some(Leaf(\"cc\", [])), And))"
    );
}

#[test]
fn parse_group() {
    assert_eq!(
        shown("(aa; bb) | cc"),
        "Some(Node(Some(Node(Some(Leaf(\"aa\", [])), Some(Leaf(\"bb\", [])), Semicolon)), Some(Leaf(\"cc\", [])), Pipe))"
    );
    assert_eq!(shown("(ls)"), "Some(Leaf(\"ls\", []))");
    assert_eq!(shown("()"), "None");
}

#[test]
fn parse_operator_at_the_start_is_an_error() {
    assert_eq!(shown("; ls"), "error: Unexpected Token found Semicolon at the start of an expression");
    assert_eq!(shown("| ls"), "error: Unexpected Token found Pipe at the start of an expression");
}

#[test]
fn parse_error_inside_a_side_is_passed_on() {
    assert_eq!(shown("ls && | wc"), "error: Unexpected Token found Pipe at the start of an expression");
}

#[test]
fn parse_nothing() {
    assert_eq!(shown(""), "None");
    assert_eq!(shown(";"), "Some(Node(None, None, Semicolon))");
}

#[test]
fn parse_operator_that_is_never_split_on() {
    let r = make_ast(&[input("ls"), op(Op::Append), input("x")]);
    assert_eq!(r.unwrap_err(), "Parsing error, should never get this error");
    let r = make_ast(&[op(Op::Append), input("x")]);
    assert_eq!(format!("{:?}", r.unwrap()), "None");
}

#[test]
fn find_last_occ_finds_the_last_one() {
    let toks = [input("a"), op(Op::Pipe), input("b"), op(Op::Pipe), input("c")];
    assert_eq!(find_last_occ(Op::Pipe, &toks), Some(3));
    assert_eq!(find_last_occ(Op::And, &toks), None);
    assert_eq!(find_last_occ(Op::Pipe, &[]), None);
}

#[test]
fn op_names() {
    assert_eq!(op_debug_name(Op::RedirectLeft), "RedirectLeft");
    assert_eq!(op_debug_name(Op::Append), format!("{:?}", Op::Append));
}

fn flat(t: &Option<Ast>, out: &mut Vec<Token>) {
    match t {
        None => {}
        Some(Ast::Leaf(c, args)) => {
            out.push(Token::Input(c.clone()));
            for a in args {
                out.push(Token::Input(a.clone()));
            }
        }
        Some(Ast::Node(l, r, o)) => {
            flat(l, out);
            out.push(Token::Operator(*o));
            flat(r, out);
        }
    }
}

#[test]
fn tree_keeps_every_token_in_order() {
    for line in ["a | b && c ; d e", "x > y < z &", "p || q | r ; s &&"] {
        let mut tokens = Vec::new();
        tokenize(&line.to_string(), &mut tokens);
        let tree = make_ast(&tokens).unwrap();
        let mut out = Vec::new();
        flat(&tree, &mut out);
        assert_eq!(out, tokens);
    }
}
