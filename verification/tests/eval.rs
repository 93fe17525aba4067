use gshell::ast::{and_goes_on, combine, or_goes_on, Action, Ast, Evaluator, Event};
use gshell::enums::{Op, Token};
use gshell::lexer::tokenize;
use gshell::parser::make_ast;

fn tree(line: &str) -> Option<Ast> {
    let mut tokens: Vec<Token> = Vec::new();
    tokenize(&line.to_string(), &mut tokens);
    *make_ast(&tokens).unwrap()
}

fn shown(a: &Action) -> String {
    format!("{:?}", a)
}

#[test]
fn run_a_command() {
    let (mut ev, a) = Evaluator::start(tree("ls -l"));
    assert_eq!(shown(&a), "Run(\"ls\", [\"-l\"])");
    assert!(ev.awaiting());
    let a = ev.step(Event::Status(Some(0)));
    assert_eq!(shown(&a), "Done(Some(0))");
    assert!(!ev.awaiting());
}

#[test]
fn and_stops_after_a_failure() {
    let (mut ev, a) = Evaluator::start(tree("false && echo one"));
    assert_eq!(shown(&a), "Run(\"false\", [])");
    let a = ev.step(Event::Status(Some(1)));
    assert_eq!(shown(&a), "Done(Some(1))");
}

#[test]
fn and_goes_on_after_a_success() {
    let (mut ev, _) = Evaluator::start(tree("true && echo one"));
    let a = ev.step(Event::Status(Some(0)));
    assert_eq!(shown(&a), "Run(\"echo\", [\"one\"])");
    let a = ev.step(Event::Status(Some(0)));
    assert_eq!(shown(&a), "Done(Some(0))");
}

#[test]
fn or_goes_on_after_a_failure_only() {
    let (mut ev, _) = Evaluator::start(tree("true || echo one"));
    let a = ev.step(Event::Status(Some(0)));
    assert_eq!(shown(&a), "Done(Some(0))");
    let (mut ev, _) = Evaluator::start(tree("false || echo one"));
    let a = ev.step(Event::Status(Some(1)));
    assert_eq!(shown(&a), "Run(\"echo\", [\"one\"])");
    let (mut ev, _) = Evaluator::start(tree("killed || echo one"));
    let a = ev.step(Event::Status(None));
    assert_eq!(shown(&a), "Done(None)");
}

#[test]
fn semicolon_runs_both_and_keeps_the_first_failure() {
    let (mut ev, _) = Evaluator::start(tree("echo one; echo two"));
    let a = ev.step(Event::Status(Some(0)));
    assert_eq!(shown(&a), "Run(\"echo\", [\"two\"])");
    let a = ev.step(Event::Status(Some(2)));
    assert_eq!(shown(&a), "Done(Some(2))");
    let (mut ev, _) = Evaluator::start(tree("aa; bb"));
    ev.step(Event::Status(Some(3)));
    let a = ev.step(Event::Status(Some(0)));
    assert_eq!(shown(&a), "Done(Some(3))");
}

#[test]
fn background_forks_then_goes_on() {
    let (mut ev, a) = Evaluator::start(tree("sleep 10 & ls"));
    assert_eq!(shown(&a), "Background(Some(Leaf(\"sleep\", [\"10\"])))");
    let a = ev.step(Event::Forked(true));
    assert_eq!(shown(&a), "Run(\"ls\", [])");
    let (mut ev, _) = Evaluator::start(tree("sleep 10 & ls"));
    let a = ev.step(Event::Forked(false));
    assert_eq!(shown(&a), "Done(None)");
    let (mut ev, _) = Evaluator::start(tree("sleep 10 &"));
    let a = ev.step(Event::Forked(true));
    assert_eq!(shown(&a), "Done(None)");
}

#[test]
fn redirections_and_pipes_give_five_once_waited_for() {
    let (mut ev, a) = Evaluator::start(tree("sort < foo.txt"));
    assert_eq!(shown(&a), "RedirectIn(Some(Leaf(\"sort\", [])), Some(\"foo.txt\"))");
    assert_eq!(shown(&ev.step(Event::Waited(true))), "Done(Some(5))");
    let (mut ev, a) = Evaluator::start(tree("sort > out.txt"));
    assert_eq!(shown(&a), "RedirectOut(Some(Leaf(\"sort\", [])), Some(\"out.txt\"))");
    assert_eq!(shown(&ev.step(Event::Waited(false))), "Done(None)");
    let (mut ev, a) = Evaluator::start(tree("sort foo.txt | uniq"));
    assert_eq!(shown(&a), "Pipe(Some(Leaf(\"sort\", [\"foo.txt\"])), Some(Leaf(\"uniq\", [])))");
    assert_eq!(shown(&ev.step(Event::Waited(true))), "Done(Some(5))");
}

#[test]
fn redirection_to_something_else_than_a_file() {
    let (_, a) = Evaluator::start(tree("sort < (aa; bb)"));
    assert_eq!(shown(&a), "RedirectIn(Some(Leaf(\"sort\", [])), None)");
}

#[test]
fn builtins() {
    let (mut ev, a) = Evaluator::start(tree("cd /tmp"));
    assert_eq!(shown(&a), "ChangeDir(Some(\"/tmp\"))");
    assert_eq!(shown(&ev.step(Event::Performed)), "Done(Some(0))");
    let (_, a) = Evaluator::start(tree("cd"));
    assert_eq!(shown(&a), "ChangeDir(None)");
    let (ev, a) = Evaluator::start(tree("exit"));
    assert_eq!(shown(&a), "Exit");
    assert!(!ev.awaiting());
}

#[test]
fn nothing_to_do() {
    let (ev, a) = Evaluator::start(None);
    assert_eq!(shown(&a), "Done(None)");
    assert!(!ev.awaiting());
    let t = Some(Ast::Node(Box::new(Some(Ast::Leaf("a".to_string(), vec![]))), Box::new(None), Op::Append));
    let (_, a) = Evaluator::start(t);
    assert_eq!(shown(&a), "Done(None)");
}

#[test]
fn result_rules() {
    assert_eq!(combine(None, None), None);
    assert_eq!(combine(None, Some(4)), Some(4));
    assert_eq!(combine(Some(4), None), Some(4));
    assert_eq!(combine(Some(0), Some(7)), Some(7));
    assert_eq!(combine(Some(3), Some(7)), Some(3));
    assert!(and_goes_on(Some(0)));
    assert!(and_goes_on(None));
    assert!(!and_goes_on(Some(1)));
    assert!(or_goes_on(Some(1)));
    assert!(!or_goes_on(Some(0)));
    assert!(!or_goes_on(None));
}
