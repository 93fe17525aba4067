//! The command tree that the parser builds, and its model.
use vstd::prelude::*;

use crate::enums::Op;
use crate::text::str_equals;

verus! {

/// A command tree: an operator with the trees on its left and on its right,
/// either of which may be missing, or a command with its arguments.
#[derive(Debug)]
pub enum Ast {
    Node(Box<Option<Ast>>, Box<Option<Ast>>, Op),
    Leaf(String, Vec<String>),
}

/// What a command tree stands for, with the characters of each word.
pub enum AstModel {
    Node(Box<Option<AstModel>>, Box<Option<AstModel>>, Op),
    Leaf(Seq<char>, Seq<Seq<char>>),
}

/// The characters of each string of a sequence.
pub open spec fn strings_model(v: Seq<String>) -> Seq<Seq<char>> {
    v.map_values(|x: String| x@)
}

/// The model of a command tree.
pub open spec fn ast_model(a: Ast) -> AstModel
    decreases a,
{
    match a {
        Ast::Node(l, r, op) => AstModel::Node(
            Box::new(opt_ast_model(*l)),
            Box::new(opt_ast_model(*r)),
            op,
        ),
        Ast::Leaf(c, args) => AstModel::Leaf(c@, strings_model(args@)),
    }
}

/// The model of a tree that may be missing.
pub open spec fn opt_ast_model(o: Option<Ast>) -> Option<AstModel>
    decreases o,
{
    match o {
        Some(a) => Some(ast_model(a)),
        None => None,
    }
}

impl View for Ast {
    type V = AstModel;

    open spec fn view(&self) -> AstModel {
        ast_model(*self)
    }
}


/// What the outside world answers to an action.
#[derive(Debug, Clone, Copy)]
pub enum Event {
    /// A command ran and ended with this exit code (none when a signal ended it).
    Status(Option<i32>),
    /// A child process was forked, or the fork failed.
    Forked(bool),
    /// The child process was waited for, or the wait failed.
    Waited(bool),
    /// The action was carried out and has nothing to report.
    Performed,
}

/// An action that the evaluation of a command tree asks of the outside world.
#[derive(Debug)]
pub enum Action {
    /// Run the command with these arguments and wait for it.
    Run(String, Vec<String>),
    /// Change the working directory to the first argument of `cd` (none when
    /// `cd` has no argument).
    ChangeDir(Option<String>),
    /// End the shell with exit code 1.
    Exit,
    /// Fork; the child evaluates the tree and exits with code 1, the shell
    /// goes on.
    Background(Box<Option<Ast>>),
    /// Fork; the child reads its standard input from the file (none when the
    /// right side of `<` is not a command), evaluates the tree and exits with
    /// code 1; the shell waits for it.
    RedirectIn(Box<Option<Ast>>, Option<String>),
    /// Fork; the child writes its standard output to the file, evaluates the
    /// tree and exits with code 1; the shell waits for it.
    RedirectOut(Box<Option<Ast>>, Option<String>),
    /// Fork; the child connects the standard output of the left tree to the
    /// standard input of the right one; the shell waits for it.
    Pipe(Box<Option<Ast>>, Box<Option<Ast>>),
    /// The evaluation is over, with this result.
    Done(Option<i32>),
}

/// What an action stands for.
pub enum ActionModel {
    Run(Seq<char>, Seq<Seq<char>>),
    ChangeDir(Option<Seq<char>>),
    Exit,
    Background(Option<AstModel>),
    RedirectIn(Option<AstModel>, Option<Seq<char>>),
    RedirectOut(Option<AstModel>, Option<Seq<char>>),
    Pipe(Option<AstModel>, Option<AstModel>),
    Done(Option<i32>),
}

/// The characters of a string that may be missing.
pub open spec fn opt_string_model(o: Option<String>) -> Option<Seq<char>> {
    match o {
        Some(s) => Some(s@),
        None => None,
    }
}

impl View for Action {
    type V = ActionModel;

    open spec fn view(&self) -> ActionModel {
        match self {
            Action::Run(c, args) => ActionModel::Run(c@, strings_model(args@)),
            Action::ChangeDir(d) => ActionModel::ChangeDir(opt_string_model(*d)),
            Action::Exit => ActionModel::Exit,
            Action::Background(t) => ActionModel::Background(opt_ast_model(**t)),
            Action::RedirectIn(t, f) => ActionModel::RedirectIn(opt_ast_model(**t), opt_string_model(*f)),
            Action::RedirectOut(t, f) => ActionModel::RedirectOut(opt_ast_model(**t), opt_string_model(*f)),
            Action::Pipe(l, r) => ActionModel::Pipe(opt_ast_model(**l), opt_ast_model(**r)),
            Action::Done(v) => ActionModel::Done(*v),
        }
    }
}

/// The result of `;`: the left result unless it is missing or zero, then the
/// right one; a missing right result leaves the left one.
pub open spec fn combine_semicolon(left: Option<i32>, right: Option<i32>) -> Option<i32> {
    match (left, right) {
        (None, r) => r,
        (Some(x), None) => Some(x),
        (Some(x), Some(y)) => if x != 0 {
            Some(x)
        } else {
            Some(y)
        },
    }
}

/// Whether `&&` goes on to its right side after this left result: when the
/// left command succeeded, or gave no result.
pub open spec fn and_continues(left: Option<i32>) -> bool {
    match left {
        Some(x) => x == 0,
        None => true,
    }
}

/// Whether `||` goes on to its right side after this left result: when the
/// left command failed.
pub open spec fn or_continues(left: Option<i32>) -> bool {
    match left {
        Some(x) => x != 0,
        None => false,
    }
}

/// The exit code that a `Status` event reports.
pub open spec fn status_value(e: Event) -> Option<i32> {
    match e {
        Event::Status(v) => v,
        _ => None,
    }
}

/// The result of a redirection or a pipe: 5 once the child was waited for.
pub open spec fn wait_value(e: Event) -> Option<i32> {
    match e {
        Event::Waited(true) => Some(5),
        _ => None,
    }
}

/// The file that the right side of a redirection names: the command word of
/// a command.
pub open spec fn redirect_target(r: Option<AstModel>) -> Option<Seq<char>> {
    match r {
        Some(AstModel::Leaf(file, _)) => Some(file),
        _ => None,
    }
}

/// The action of a command, with the kind of answer it waits for: `cd`
/// changes the directory, `exit` ends the shell, anything else is run.
pub open spec fn leaf_action(c: Seq<char>, args: Seq<Seq<char>>) -> (PendingModel, ActionModel) {
    if c == "cd"@ {
        (
            PendingModel::Dir,
            ActionModel::ChangeDir(
                if args.len() > 0 {
                    Some(args[0])
                } else {
                    None
                },
            ),
        )
    } else if c == "exit"@ {
        (PendingModel::Idle, ActionModel::Exit)
    } else {
        (PendingModel::Status, ActionModel::Run(c, args))
    }
}

/// What is left to do once a subtree has given its result.
pub enum FrameModel {
    /// After the left side of `;`: evaluate the right side.
    SemiRight(Option<AstModel>),
    /// After the right side of `;`: combine with the left result.
    SemiCombine(Option<i32>),
    /// After the left side of `&&`.
    AndRight(Option<AstModel>),
    /// After the left side of `||`.
    OrRight(Option<AstModel>),
}

/// The answer the evaluator waits for.
pub enum PendingModel {
    Idle,
    Status,
    Dir,
    Fork(Option<AstModel>),
    Wait,
}

/// The state of the evaluator: what is left to do, innermost last, and the
/// answer it waits for.
pub struct MachineModel {
    pub stack: Seq<FrameModel>,
    pub pending: PendingModel,
}

/// The size of a tree, which the evaluation of its parts makes smaller.
pub open spec fn tree_size(t: Option<AstModel>) -> nat
    decreases t,
{
    match t {
        Some(AstModel::Node(l, r, _)) => tree_size(*l) + tree_size(*r) + 3,
        _ => 1,
    }
}

pub open spec fn frame_weight(f: FrameModel) -> nat {
    match f {
        FrameModel::SemiRight(r) => tree_size(r) + 2,
        FrameModel::SemiCombine(_) => 1,
        FrameModel::AndRight(r) => tree_size(r) + 1,
        FrameModel::OrRight(r) => tree_size(r) + 1,
    }
}

pub open spec fn stack_weight(s: Seq<FrameModel>) -> nat
    decreases s.len(),
{
    if s.len() == 0 {
        0
    } else {
        stack_weight(s.drop_last()) + frame_weight(s.last())
    }
}

pub proof fn lemma_stack_weight_push(s: Seq<FrameModel>, f: FrameModel)
    ensures
        stack_weight(s.push(f)) == stack_weight(s) + frame_weight(f),
{
    assert(s.push(f).drop_last() =~= s);
}

/// The evaluator goes down the tree `t` with `stack` left to do, up to the
/// first action.
pub open spec fn descend(stack: Seq<FrameModel>, t: Option<AstModel>) -> (MachineModel, ActionModel)
    decreases stack_weight(stack) + tree_size(t), 1nat,
{
    match t {
        None => ret(stack, None),
        Some(AstModel::Leaf(c, args)) => {
            let (p, a) = leaf_action(c, args);
            (MachineModel { stack, pending: p }, a)
        },
        Some(AstModel::Node(l, r, op)) => {
            match op {
                Op::Semicolon => {
                    proof {
                        lemma_stack_weight_push(stack, FrameModel::SemiRight(*r));
                    }
                    descend(stack.push(FrameModel::SemiRight(*r)), *l)
                },
                Op::And => {
                    proof {
                        lemma_stack_weight_push(stack, FrameModel::AndRight(*r));
                    }
                    descend(stack.push(FrameModel::AndRight(*r)), *l)
                },
                Op::Or => {
                    proof {
                        lemma_stack_weight_push(stack, FrameModel::OrRight(*r));
                    }
                    descend(stack.push(FrameModel::OrRight(*r)), *l)
                },
                Op::Background => (
                    MachineModel { stack, pending: PendingModel::Fork(*r) },
                    ActionModel::Background(*l),
                ),
                Op::RedirectLeft => (
                    MachineModel { stack, pending: PendingModel::Wait },
                    ActionModel::RedirectIn(*l, redirect_target(*r)),
                ),
                Op::RedirectRight => (
                    MachineModel { stack, pending: PendingModel::Wait },
                    ActionModel::RedirectOut(*l, redirect_target(*r)),
                ),
                Op::Pipe => (
                    MachineModel { stack, pending: PendingModel::Wait },
                    ActionModel::Pipe(*l, *r),
                ),
                Op::Append => ret(stack, None),
            }
        },
    }
}

/// The evaluator hands the result `v` back up to what `stack` has left to
/// do, up to the next action.
pub open spec fn ret(stack: Seq<FrameModel>, v: Option<i32>) -> (MachineModel, ActionModel)
    decreases stack_weight(stack), 0nat,
{
    if stack.len() == 0 {
        (MachineModel { stack, pending: PendingModel::Idle }, ActionModel::Done(v))
    } else {
        let rest = stack.drop_last();
        proof {
            assert(stack == rest.push(stack.last()));
            lemma_stack_weight_push(rest, stack.last());
            lemma_stack_weight_push(rest, FrameModel::SemiCombine(v));
        }
        match stack.last() {
            FrameModel::SemiRight(r) => match r {
                Some(_) => descend(rest.push(FrameModel::SemiCombine(v)), r),
                None => ret(rest, v),
            },
            FrameModel::SemiCombine(lv) => ret(rest, combine_semicolon(lv, v)),
            FrameModel::AndRight(r) => if and_continues(v) {
                descend(rest, r)
            } else {
                ret(rest, v)
            },
            FrameModel::OrRight(r) => if or_continues(v) {
                descend(rest, r)
            } else {
                ret(rest, v)
            },
        }
    }
}

/// The evaluator takes the answer `e` to the action it waits on, and goes on
/// to the next action.
pub open spec fn step_spec(m: MachineModel, e: Event) -> (MachineModel, ActionModel) {
    match m.pending {
        PendingModel::Idle => (m, ActionModel::Done(None)),
        PendingModel::Status => ret(m.stack, status_value(e)),
        PendingModel::Dir => ret(m.stack, Some(0)),
        PendingModel::Fork(r) => match e {
            Event::Forked(true) => descend(m.stack, r),
            _ => ret(m.stack, None),
        },
        PendingModel::Wait => ret(m.stack, wait_value(e)),
    }
}


/// What is left to do once a subtree has given its result.
enum Frame {
    SemiRight(Box<Option<Ast>>),
    SemiCombine(Option<i32>),
    AndRight(Box<Option<Ast>>),
    OrRight(Box<Option<Ast>>),
}

spec fn frame_model(f: Frame) -> FrameModel {
    match f {
        Frame::SemiRight(r) => FrameModel::SemiRight(opt_ast_model(*r)),
        Frame::SemiCombine(v) => FrameModel::SemiCombine(v),
        Frame::AndRight(r) => FrameModel::AndRight(opt_ast_model(*r)),
        Frame::OrRight(r) => FrameModel::OrRight(opt_ast_model(*r)),
    }
}

spec fn frames_model(s: Seq<Frame>) -> Seq<FrameModel> {
    s.map_values(|f: Frame| frame_model(f))
}

/// The answer the evaluator waits for.
enum Pending {
    Idle,
    Status,
    Dir,
    Fork(Box<Option<Ast>>),
    Wait,
}

spec fn pending_model(p: Pending) -> PendingModel {
    match p {
        Pending::Idle => PendingModel::Idle,
        Pending::Status => PendingModel::Status,
        Pending::Dir => PendingModel::Dir,
        Pending::Fork(r) => PendingModel::Fork(opt_ast_model(*r)),
        Pending::Wait => PendingModel::Wait,
    }
}

/// Where the evaluator is: going down a tree, or handing a result back up.
enum Control {
    Descend(Option<Ast>),
    Return(Option<i32>),
}

spec fn control_result(stack: Seq<FrameModel>, c: Control) -> (MachineModel, ActionModel) {
    match c {
        Control::Descend(t) => descend(stack, opt_ast_model(t)),
        Control::Return(v) => ret(stack, v),
    }
}

spec fn control_measure(stack: Seq<FrameModel>, c: Control) -> nat {
    match c {
        Control::Descend(t) => stack_weight(stack) + tree_size(opt_ast_model(t)),
        Control::Return(_) => stack_weight(stack),
    }
}

spec fn control_rank(c: Control) -> nat {
    match c {
        Control::Descend(_) => 1,
        Control::Return(_) => 0,
    }
}

/// The evaluator of a command tree, as a machine that the shell drives: it
/// asks for one outside action at a time and is told how the action went.
pub struct Evaluator {
    stack: Vec<Frame>,
    pending: Pending,
}

impl Evaluator {
    /// The state of the evaluator.
    pub closed spec fn model(&self) -> MachineModel {
        MachineModel { stack: frames_model(self.stack@), pending: pending_model(self.pending) }
    }

    /// Whether the evaluator waits for the answer to an action.
    pub open spec fn is_awaiting(&self) -> bool {
        self.model().pending !is Idle
    }

    /// Whether the evaluator waits for the answer to an action: not before
    /// it starts, nor after `Exit` or `Done`.
    pub fn awaiting(&self) -> (b: bool)
        ensures
            b == self.is_awaiting(),
    {
        match self.pending {
            Pending::Idle => false,
            _ => true,
        }
    }

    /// Goes on from `ctl` up to the next action.
    fn advance(&mut self, from: Control) -> (a: Action)
        requires
            old(self).pending is Idle,
        ensures
            (final(self).model(), a@) == control_result(frames_model(old(self).stack@), from),
    {
        let ghost goal = control_result(frames_model(self.stack@), from);
        let mut ctl = from;
        loop
            invariant
                goal == control_result(frames_model(old(self).stack@), from),
                self.pending is Idle,
                goal == control_result(frames_model(self.stack@), ctl),
            decreases control_measure(frames_model(self.stack@), ctl), control_rank(ctl),
        {
            let ghost fs = frames_model(self.stack@);
            match ctl {
                Control::Descend(None) => {
                    ctl = Control::Return(None);
                },
                Control::Descend(Some(Ast::Leaf(c, args))) => {
                    if str_equals(c.as_str(), "cd") {
                        self.pending = Pending::Dir;
                        if args.len() > 0 {
                            let d = args[0].clone();
                            assert(strings_model(args@)[0] == args@[0]@);
                            return Action::ChangeDir(Some(d));
                        } else {
                            return Action::ChangeDir(None);
                        }
                    } else if str_equals(c.as_str(), "exit") {
                        return Action::Exit;
                    } else {
                        self.pending = Pending::Status;
                        return Action::Run(c, args);
                    }
                },
                Control::Descend(Some(Ast::Node(l, r, op))) => {
                    match op {
                        Op::Semicolon => {
                            proof {
                                lemma_stack_weight_push(fs, FrameModel::SemiRight(opt_ast_model(*r)));
                            }
                            self.stack.push(Frame::SemiRight(r));
                            assert(frames_model(self.stack@) =~= fs.push(FrameModel::SemiRight(opt_ast_model(*r))));
                            ctl = Control::Descend(*l);
                        },
                        Op::And => {
                            proof {
                                lemma_stack_weight_push(fs, FrameModel::AndRight(opt_ast_model(*r)));
                            }
                            self.stack.push(Frame::AndRight(r));
                            assert(frames_model(self.stack@) =~= fs.push(FrameModel::AndRight(opt_ast_model(*r))));
                            ctl = Control::Descend(*l);
                        },
                        Op::Or => {
                            proof {
                                lemma_stack_weight_push(fs, FrameModel::OrRight(opt_ast_model(*r)));
                            }
                            self.stack.push(Frame::OrRight(r));
                            assert(frames_model(self.stack@) =~= fs.push(FrameModel::OrRight(opt_ast_model(*r))));
                            ctl = Control::Descend(*l);
                        },
                        Op::Background => {
                            self.pending = Pending::Fork(r);
                            return Action::Background(l);
                        },
                        Op::RedirectLeft => {
                            let file = redirect_file(&r);
                            self.pending = Pending::Wait;
                            return Action::RedirectIn(l, file);
                        },
                        Op::RedirectRight => {
                            let file = redirect_file(&r);
                            self.pending = Pending::Wait;
                            return Action::RedirectOut(l, file);
                        },
                        Op::Pipe => {
                            self.pending = Pending::Wait;
                            return Action::Pipe(l, r);
                        },
                        Op::Append => {
                            ctl = Control::Return(None);
                        },
                    }
                },
                Control::Return(v) => {
                    if self.stack.len() == 0 {
                        assert(fs.len() == 0);
                        return Action::Done(v);
                    }
                    let f = self.stack.pop().unwrap();
                    let ghost rest = frames_model(self.stack@);
                    proof {
                        assert(rest =~= fs.drop_last());
                        assert(fs.last() == frame_model(f));
                        lemma_stack_weight_push(rest, fs.last());
                        assert(fs =~= rest.push(fs.last()));
                        lemma_stack_weight_push(rest, FrameModel::SemiCombine(v));
                    }
                    match f {
                        Frame::SemiRight(r) => {
                            match *r {
                                Some(t) => {
                                    self.stack.push(Frame::SemiCombine(v));
                                    assert(frames_model(self.stack@) =~= rest.push(FrameModel::SemiCombine(v)));
                                    ctl = Control::Descend(Some(t));
                                },
                                None => {
                                    ctl = Control::Return(v);
                                },
                            }
                        },
                        Frame::SemiCombine(lv) => {
                            ctl = Control::Return(combine(lv, v));
                        },
                        Frame::AndRight(r) => {
                            if and_goes_on(v) {
                                ctl = Control::Descend(*r);
                            } else {
                                ctl = Control::Return(v);
                            }
                        },
                        Frame::OrRight(r) => {
                            if or_goes_on(v) {
                                ctl = Control::Descend(*r);
                            } else {
                                ctl = Control::Return(v);
                            }
                        },
                    }
                },
            }
        }
    }

    /// Starts the evaluation of a command tree, up to its first action.
    pub fn start(tree: Option<Ast>) -> (r: (Evaluator, Action))
        ensures
            (r.0.model(), r.1@) == descend(Seq::empty(), opt_ast_model(tree)),
    {
        let mut ev = Evaluator { stack: Vec::new(), pending: Pending::Idle };
        assert(frames_model(ev.stack@) =~= Seq::<FrameModel>::empty());
        let a = ev.advance(Control::Descend(tree));
        (ev, a)
    }

    /// Takes the answer to the action the evaluator waits on, and goes on to
    /// the next action.
    pub fn step(&mut self, event: Event) -> (a: Action)
        requires
            old(self).is_awaiting(),
        ensures
            (final(self).model(), a@) == step_spec(old(self).model(), event),
    {
        let mut pending = Pending::Idle;
        std::mem::swap(&mut pending, &mut self.pending);
        match pending {
            Pending::Idle => Action::Done(None),
            Pending::Status => {
                let v = match event {
                    Event::Status(v) => v,
                    _ => None,
                };
                self.advance(Control::Return(v))
            },
            Pending::Dir => self.advance(Control::Return(Some(0))),
            Pending::Fork(r) => match event {
                Event::Forked(true) => self.advance(Control::Descend(*r)),
                _ => self.advance(Control::Return(None)),
            },
            Pending::Wait => {
                let v = match event {
                    Event::Waited(true) => Some(5),
                    _ => None,
                };
                self.advance(Control::Return(v))
            },
        }
    }
}

/// The file that the right side of a redirection names.
fn redirect_file(r: &Box<Option<Ast>>) -> (f: Option<String>)
    ensures
        opt_string_model(f) == redirect_target(opt_ast_model(**r)),
{
    match &**r {
        Some(Ast::Leaf(file, _)) => Some(file.clone()),
        _ => None,
    }
}

/// The result of `;` from the results of its two sides.
pub fn combine(left: Option<i32>, right: Option<i32>) -> (r: Option<i32>)
    ensures
        r == combine_semicolon(left, right),
        left matches Some(x) && x != 0 ==> r == left,
        left == Some(0i32) && right is Some ==> r == right,
        left is None ==> r == right,
        right is None ==> r == left,
{
    match (left, right) {
        (None, None) => None,
        (None, x) => x,
        (x, None) => x,
        (Some(x), Some(y)) => {
            if x != 0 {
                Some(x)
            } else {
                Some(y)
            }
        },
    }
}

/// Whether `&&` evaluates its right side after this left result.
pub fn and_goes_on(left: Option<i32>) -> (b: bool)
    ensures
        b == and_continues(left),
        b == (left is None || left == Some(0i32)),
{
    match left {
        Some(rv) => rv == 0,
        None => true,
    }
}

/// Whether `||` evaluates its right side after this left result.
pub fn or_goes_on(left: Option<i32>) -> (b: bool)
    ensures
        b == or_continues(left),
        b == (left matches Some(x) && x != 0),
{
    match left {
        Some(rv) => rv != 0,
        None => false,
    }
}


/// How an evaluation ends, as far as the events given to it go: with a result
/// and the events it did not use, with `exit`, or waiting for an answer that
/// did not come.
pub enum Outcome {
    Value(Option<i32>, Seq<Event>),
    Exited,
    Starved,
}

/// The evaluation of a command tree, told the answers `evs` to its actions
/// in turn: the actions it asks for, and how it ends.
///
/// A command asks to be run (or, for `cd`, to change the directory, and for
/// `exit`, to end the shell). `a ; b` evaluates `a`, then `b` if there is one,
/// and combines their results; `a && b` evaluates `b` when `a` succeeded or
/// gave no result, `a || b` when `a` failed; otherwise the result of `a`
/// stands. `a & b` forks `a` off and, once forked, evaluates `b`; `<`, `>` and
/// `|` fork a child for the whole and give 5 once it was waited for. A missing
/// tree, and `>>`, give no result.
pub open spec fn eval_tree(t: Option<AstModel>, evs: Seq<Event>) -> (Seq<ActionModel>, Outcome)
    decreases tree_size(t),
{
    match t {
        None => (seq![], Outcome::Value(None, evs)),
        Some(AstModel::Leaf(c, args)) => {
            let (p, a) = leaf_action(c, args);
            if a is Exit {
                (seq![a], Outcome::Exited)
            } else if evs.len() == 0 {
                (seq![a], Outcome::Starved)
            } else if p is Dir {
                (seq![a], Outcome::Value(Some(0), evs.drop_first()))
            } else {
                (seq![a], Outcome::Value(status_value(evs[0]), evs.drop_first()))
            }
        },
        Some(AstModel::Node(l, r, op)) => {
            match op {
                Op::Semicolon => {
                    let r1 = eval_tree(*l, evs);
                    match r1.1 {
                        Outcome::Value(lv, e1) => match *r {
                            Some(_) => {
                                let r2 = eval_tree(*r, e1);
                                (
                                    r1.0 + r2.0,
                                    match r2.1 {
                                        Outcome::Value(rv, e2) => Outcome::Value(
                                            combine_semicolon(lv, rv),
                                            e2,
                                        ),
                                        o => o,
                                    },
                                )
                            },
                            None => r1,
                        },
                        _ => r1,
                    }
                },
                Op::And => {
                    let r1 = eval_tree(*l, evs);
                    match r1.1 {
                        Outcome::Value(lv, e1) => if and_continues(lv) {
                            let r2 = eval_tree(*r, e1);
                            (r1.0 + r2.0, r2.1)
                        } else {
                            r1
                        },
                        _ => r1,
                    }
                },
                Op::Or => {
                    let r1 = eval_tree(*l, evs);
                    match r1.1 {
                        Outcome::Value(lv, e1) => if or_continues(lv) {
                            let r2 = eval_tree(*r, e1);
                            (r1.0 + r2.0, r2.1)
                        } else {
                            r1
                        },
                        _ => r1,
                    }
                },
                Op::Background => {
                    let a = ActionModel::Background(*l);
                    if evs.len() == 0 {
                        (seq![a], Outcome::Starved)
                    } else {
                        match evs[0] {
                            Event::Forked(true) => {
                                let r2 = eval_tree(*r, evs.drop_first());
                                (seq![a] + r2.0, r2.1)
                            },
                            _ => (seq![a], Outcome::Value(None, evs.drop_first())),
                        }
                    }
                },
                Op::RedirectLeft | Op::RedirectRight | Op::Pipe => {
                    let a = if op is RedirectLeft {
                        ActionModel::RedirectIn(*l, redirect_target(*r))
                    } else if op is RedirectRight {
                        ActionModel::RedirectOut(*l, redirect_target(*r))
                    } else {
                        ActionModel::Pipe(*l, *r)
                    };
                    if evs.len() == 0 {
                        (seq![a], Outcome::Starved)
                    } else {
                        (seq![a], Outcome::Value(wait_value(evs[0]), evs.drop_first()))
                    }
                },
                Op::Append => (seq![], Outcome::Value(None, evs)),
            }
        },
    }
}

/// The evaluator run from state and action `p`, told the answers `evs` in
/// turn: the actions it asks for, and how it ends.
pub open spec fn run(p: (MachineModel, ActionModel), evs: Seq<Event>) -> (Seq<ActionModel>, Outcome)
    decreases evs.len(),
{
    match p.1 {
        ActionModel::Done(v) => (seq![], Outcome::Value(v, evs)),
        ActionModel::Exit => (seq![p.1], Outcome::Exited),
        _ => if evs.len() == 0 {
            (seq![p.1], Outcome::Starved)
        } else {
            let rest = run(step_spec(p.0, evs[0]), evs.drop_first());
            (seq![p.1] + rest.0, rest.1)
        },
    }
}

/// What is left to do, `k`, carried out after a part that ended as `res`.
pub open spec fn then_cont(res: (Seq<ActionModel>, Outcome), k: Seq<FrameModel>) -> (
    Seq<ActionModel>,
    Outcome,
)
    decreases stack_weight(k), 1nat,
{
    match res.1 {
        Outcome::Value(v, e) => {
            let c = cont(k, v, e);
            (res.0 + c.0, c.1)
        },
        _ => res,
    }
}

/// What is left to do, `k`, carried out on the result `v`, told the answers
/// `evs` in turn.
pub open spec fn cont(k: Seq<FrameModel>, v: Option<i32>, evs: Seq<Event>) -> (
    Seq<ActionModel>,
    Outcome,
)
    decreases stack_weight(k), 0nat,
{
    if k.len() == 0 {
        (seq![], Outcome::Value(v, evs))
    } else {
        let rest = k.drop_last();
        proof {
            assert(k == rest.push(k.last()));
            lemma_stack_weight_push(rest, k.last());
            lemma_stack_weight_push(rest, FrameModel::SemiCombine(v));
        }
        match k.last() {
            FrameModel::SemiRight(r) => match r {
                Some(_) => then_cont(eval_tree(r, evs), rest.push(FrameModel::SemiCombine(v))),
                None => cont(rest, v, evs),
            },
            FrameModel::SemiCombine(lv) => cont(rest, combine_semicolon(lv, v), evs),
            FrameModel::AndRight(r) => if and_continues(v) {
                then_cont(eval_tree(r, evs), rest)
            } else {
                cont(rest, v, evs)
            },
            FrameModel::OrRight(r) => if or_continues(v) {
                then_cont(eval_tree(r, evs), rest)
            } else {
                cont(rest, v, evs)
            },
        }
    }
}


proof fn lemma_then_cont_assoc(a: Seq<ActionModel>, res: (Seq<ActionModel>, Outcome), k: Seq<FrameModel>)
    ensures
        then_cont((a + res.0, res.1), k) == (a + then_cont(res, k).0, then_cont(res, k).1),
{
    match res.1 {
        Outcome::Value(v, e) => {
            let c = cont(k, v, e);
            assert(a + res.0 + c.0 =~= a + (res.0 + c.0));
        },
        _ => {},
    }
}

/// Going down a tree, then running: the evaluation of the tree, then what is
/// left to do.
proof fn lemma_run_descend(k: Seq<FrameModel>, t: Option<AstModel>, evs: Seq<Event>)
    ensures
        run(descend(k, t), evs) == then_cont(eval_tree(t, evs), k),
    decreases evs.len(), stack_weight(k) + tree_size(t), 1nat,
{
    match t {
        None => {
            lemma_run_ret(k, None, evs);
            assert(then_cont(eval_tree(t, evs), k).0 =~= cont(k, None, evs).0);
        },
        Some(AstModel::Leaf(c, args)) => {
            let (p, a) = leaf_action(c, args);
            if a is Exit {
            } else if evs.len() == 0 {
            } else {
                let v = if p is Dir { Some(0) } else { status_value(evs[0]) };
                lemma_run_ret(k, v, evs.drop_first());
            }
        },
        Some(AstModel::Node(l, r, op)) => {
            match op {
                Op::Semicolon => {
                    let f = FrameModel::SemiRight(*r);
                    lemma_stack_weight_push(k, f);
                    lemma_run_descend(k.push(f), *l, evs);
                    let r1 = eval_tree(*l, evs);
                    assert(k.push(f).drop_last() =~= k);
                    match r1.1 {
                        Outcome::Value(lv, e1) => {
                            match *r {
                                Some(_) => {
                                    let kc = k.push(FrameModel::SemiCombine(lv));
                                    assert(kc.drop_last() =~= k);
                                    let r2 = eval_tree(*r, e1);
                                    lemma_then_cont_assoc(r1.0, r2, kc);
                                    match r2.1 {
                                        Outcome::Value(rv, e2) => {
                                            let c3 = cont(k, combine_semicolon(lv, rv), e2);
                                            assert(r1.0 + (r2.0 + c3.0) =~= r1.0 + r2.0 + c3.0);
                                        },
                                        _ => {},
                                    }
                                },
                                None => {},
                            }
                        },
                        _ => {},
                    }
                },
                Op::And | Op::Or => {
                    let f = if op is And {
                        FrameModel::AndRight(*r)
                    } else {
                        FrameModel::OrRight(*r)
                    };
                    lemma_stack_weight_push(k, f);
                    lemma_run_descend(k.push(f), *l, evs);
                    let r1 = eval_tree(*l, evs);
                    assert(k.push(f).drop_last() =~= k);
                    match r1.1 {
                        Outcome::Value(lv, e1) => {
                            let r2 = eval_tree(*r, e1);
                            lemma_then_cont_assoc(r1.0, r2, k);
                            match r2.1 {
                                Outcome::Value(rv, e2) => {
                                    let c3 = cont(k, rv, e2);
                                    assert(r1.0 + (r2.0 + c3.0) =~= r1.0 + r2.0 + c3.0);
                                },
                                _ => {},
                            }
                        },
                        _ => {},
                    }
                },
                Op::Background => {
                    if evs.len() > 0 {
                        match evs[0] {
                            Event::Forked(true) => {
                                lemma_run_descend(k, *r, evs.drop_first());
                                let r2 = eval_tree(*r, evs.drop_first());
                                lemma_then_cont_assoc(seq![ActionModel::Background(*l)], r2, k);
                            },
                            _ => {
                                lemma_run_ret(k, None, evs.drop_first());
                            },
                        }
                    }
                },
                Op::RedirectLeft | Op::RedirectRight | Op::Pipe => {
                    if evs.len() > 0 {
                        lemma_run_ret(k, wait_value(evs[0]), evs.drop_first());
                    }
                },
                Op::Append => {
                    lemma_run_ret(k, None, evs);
                    assert(then_cont(eval_tree(t, evs), k).0 =~= cont(k, None, evs).0);
                },
            }
        },
    }
}

/// Handing a result back up, then running: what is left to do, carried out
/// on the result.
proof fn lemma_run_ret(k: Seq<FrameModel>, v: Option<i32>, evs: Seq<Event>)
    ensures
        run(ret(k, v), evs) == cont(k, v, evs),
    decreases evs.len(), stack_weight(k), 0nat,
{
    if k.len() > 0 {
        let rest = k.drop_last();
        assert(k == rest.push(k.last()));
        lemma_stack_weight_push(rest, k.last());
        lemma_stack_weight_push(rest, FrameModel::SemiCombine(v));
        match k.last() {
            FrameModel::SemiRight(r) => match r {
                Some(_) => {
                    lemma_run_descend(rest.push(FrameModel::SemiCombine(v)), r, evs);
                },
                None => {
                    lemma_run_ret(rest, v, evs);
                },
            },
            FrameModel::SemiCombine(lv) => {
                lemma_run_ret(rest, combine_semicolon(lv, v), evs);
            },
            FrameModel::AndRight(r) => {
                if and_continues(v) {
                    lemma_run_descend(rest, r, evs);
                } else {
                    lemma_run_ret(rest, v, evs);
                }
            },
            FrameModel::OrRight(r) => {
                if or_continues(v) {
                    lemma_run_descend(rest, r, evs);
                } else {
                    lemma_run_ret(rest, v, evs);
                }
            },
        }
    }
}

/// The evaluator does what the evaluation of the tree says: started on a
/// tree and told the answers `evs` to its actions in turn, it asks for the
/// actions of `eval_tree` and ends as it does.
pub proof fn lemma_evaluator_follows_tree(t: Option<AstModel>, evs: Seq<Event>)
    ensures
        run(descend(Seq::empty(), t), evs) == eval_tree(t, evs),
{
    lemma_run_descend(Seq::empty(), t, evs);
    let res = eval_tree(t, evs);
    match res.1 {
        Outcome::Value(v, e) => {
            assert(res.0 + cont(Seq::empty(), v, e).0 =~= res.0);
        },
        _ => {},
    }
}


/// `a && b` after a failure of `a`: `b` asks for nothing, and the whole ends
/// as `a` did.
pub proof fn lemma_and_stops_after_failure(l: Option<AstModel>, r: Option<AstModel>, evs: Seq<Event>)
    requires
        eval_tree(l, evs).1 matches Outcome::Value(Some(x), _) && x != 0,
    ensures
        eval_tree(Some(AstModel::Node(Box::new(l), Box::new(r), Op::And)), evs) == eval_tree(l, evs),
{
}

/// `a || b` after a success of `a`: `b` asks for nothing, and the whole ends
/// as `a` did.
pub proof fn lemma_or_stops_after_success(l: Option<AstModel>, r: Option<AstModel>, evs: Seq<Event>)
    requires
        eval_tree(l, evs).1 matches Outcome::Value(Some(x), _) && x == 0,
    ensures
        eval_tree(Some(AstModel::Node(Box::new(l), Box::new(r), Op::Or)), evs) == eval_tree(l, evs),
{
}

/// `a ; b` goes on to `b` whatever `a` gave: the actions of `a`, then those
/// of `b` told the answers `a` left, and the combined result.
pub proof fn lemma_semicolon_runs_both(l: Option<AstModel>, r: AstModel, evs: Seq<Event>)
    requires
        eval_tree(l, evs).1 is Value,
    ensures
        ({
            let r1 = eval_tree(l, evs);
            let r2 = eval_tree(Some(r), r1.1->Value_1);
            let whole = eval_tree(Some(AstModel::Node(Box::new(l), Box::new(Some(r)), Op::Semicolon)), evs);
            &&& whole.0 == r1.0 + r2.0
            &&& r2.1 matches Outcome::Value(rv, e2) ==> whole.1 == Outcome::Value(
                combine_semicolon(r1.1->Value_0, rv),
                e2,
            )
            &&& r2.1 matches Outcome::Value(rv, e2) ==> whole.1 == Outcome::Value(
                if r1.1->Value_0 matches Some(x) && x != 0 {
                    r1.1->Value_0
                } else if rv is Some {
                    rv
                } else {
                    r1.1->Value_0
                },
                e2,
            )
            &&& !(r2.1 is Value) ==> whole.1 == r2.1
        }),
{
}

/// `a || b` goes on to `b` after any failure of `a`, whatever its non-zero
/// code: the actions of `a`, then those of `b`, and `b`'s ending. After a
/// success of `a`, or no result, the whole ends as `a` did.
pub proof fn lemma_or_law(l: Option<AstModel>, r: Option<AstModel>, evs: Seq<Event>)
    ensures
        ({
            let r1 = eval_tree(l, evs);
            let whole = eval_tree(Some(AstModel::Node(Box::new(l), Box::new(r), Op::Or)), evs);
            &&& (r1.1 matches Outcome::Value(Some(x), e1) && x != 0) ==> whole == (
                r1.0 + eval_tree(r, r1.1->Value_1).0,
                eval_tree(r, r1.1->Value_1).1,
            )
            &&& (r1.1 matches Outcome::Value(v, _) && (v is None || v == Some(0i32))) ==> whole == r1
            &&& !(r1.1 is Value) ==> whole == r1
        }),
{
}

/// `a && b` goes on to `b` after a success of `a`, or when `a` gave no
/// result: the actions of `a`, then those of `b`, and `b`'s ending. After any
/// failure of `a` the whole ends as `a` did.
pub proof fn lemma_and_law(l: Option<AstModel>, r: Option<AstModel>, evs: Seq<Event>)
    ensures
        ({
            let r1 = eval_tree(l, evs);
            let whole = eval_tree(Some(AstModel::Node(Box::new(l), Box::new(r), Op::And)), evs);
            &&& (r1.1 matches Outcome::Value(v, e1) && (v is None || v == Some(0i32))) ==> whole == (
                r1.0 + eval_tree(r, r1.1->Value_1).0,
                eval_tree(r, r1.1->Value_1).1,
            )
            &&& (r1.1 matches Outcome::Value(Some(x), _) && x != 0) ==> whole == r1
            &&& !(r1.1 is Value) ==> whole == r1
        }),
{
}

/// The built-ins: a command whose word is `exit` ends the shell whatever its
/// arguments, with no answer awaited; one whose word is `cd` changes to its
/// first argument; any other command is run with its arguments.
pub proof fn lemma_builtins(stack: Seq<FrameModel>, c: Seq<char>, args: Seq<Seq<char>>)
    ensures
        c == "exit"@ ==> descend(stack, Some(AstModel::Leaf(c, args))) == (
            MachineModel { stack, pending: PendingModel::Idle },
            ActionModel::Exit,
        ),
        c == "cd"@ ==> descend(stack, Some(AstModel::Leaf(c, args))).1 == ActionModel::ChangeDir(
            if args.len() > 0 {
                Some(args[0])
            } else {
                None
            },
        ),
        c != "cd"@ && c != "exit"@ ==> descend(stack, Some(AstModel::Leaf(c, args))).1
            == ActionModel::Run(c, args),
{
    reveal_strlit("exit");
    reveal_strlit("cd");
    assert("exit"@[0] != "cd"@[0]);
}

/// Evaluating `exit`, whatever its arguments, asks for `Exit` alone and ends
/// there, whatever answers follow.
pub proof fn lemma_exit_ends(args: Seq<Seq<char>>, evs: Seq<Event>)
    ensures
        eval_tree(Some(AstModel::Leaf("exit"@, args)), evs) == (
            seq![ActionModel::Exit],
            Outcome::Exited,
        ),
{
    lemma_builtins(Seq::empty(), "exit"@, args);
}


/// `;` with its right side missing gives the left side alone.
pub proof fn lemma_semicolon_alone(l: Option<AstModel>, evs: Seq<Event>)
    ensures
        eval_tree(Some(AstModel::Node(Box::new(l), Box::new(None), Op::Semicolon)), evs) == eval_tree(l, evs),
{
}

/// A command that is not a built-in asks to be run, and its result is the
/// exit code that the answer reports (none for any other answer).
pub proof fn lemma_run_command(c: Seq<char>, args: Seq<Seq<char>>, evs: Seq<Event>)
    requires
        c != "cd"@,
        c != "exit"@,
        evs.len() > 0,
    ensures
        eval_tree(Some(AstModel::Leaf(c, args)), evs) == (
            seq![ActionModel::Run(c, args)],
            Outcome::Value(
                match evs[0] {
                    Event::Status(v) => v,
                    _ => None,
                },
                evs.drop_first(),
            ),
        ),
{
}

/// `cd` asks to change to its first argument and gives 0, whatever the
/// answer.
pub proof fn lemma_cd_gives_zero(args: Seq<Seq<char>>, evs: Seq<Event>)
    requires
        evs.len() > 0,
    ensures
        eval_tree(Some(AstModel::Leaf("cd"@, args)), evs) == (
            seq![ActionModel::ChangeDir(if args.len() > 0 { Some(args[0]) } else { None })],
            Outcome::Value(Some(0), evs.drop_first()),
        ),
{
    lemma_builtins(Seq::empty(), "cd"@, args);
}

/// `<`, `>` and `|` each ask for one forked child over the whole, with the
/// file that a command on the right of `<` or `>` names, and give 5 once the
/// child was waited for, no result otherwise.
pub proof fn lemma_redirect_and_pipe(
    l: Option<AstModel>,
    r: Option<AstModel>,
    op: Op,
    evs: Seq<Event>,
)
    requires
        op == Op::RedirectLeft || op == Op::RedirectRight || op == Op::Pipe,
        evs.len() > 0,
    ensures
        ({
            let file = match r {
                Some(AstModel::Leaf(f, _)) => Some(f),
                _ => None,
            };
            let a = if op == Op::RedirectLeft {
                ActionModel::RedirectIn(l, file)
            } else if op == Op::RedirectRight {
                ActionModel::RedirectOut(l, file)
            } else {
                ActionModel::Pipe(l, r)
            };
            eval_tree(Some(AstModel::Node(Box::new(l), Box::new(r), op)), evs) == (
                seq![a],
                Outcome::Value(
                    if evs[0] == Event::Waited(true) {
                        Some(5i32)
                    } else {
                        None
                    },
                    evs.drop_first(),
                ),
            )
        }),
{
}

/// `a & b` asks for `a` to be forked off; once forked it goes on to `b`,
/// and when the fork failed it gives no result.
pub proof fn lemma_background(l: Option<AstModel>, r: Option<AstModel>, evs: Seq<Event>)
    requires
        evs.len() > 0,
    ensures
        ({
            let whole = eval_tree(Some(AstModel::Node(Box::new(l), Box::new(r), Op::Background)), evs);
            let rest = eval_tree(r, evs.drop_first());
            &&& evs[0] == Event::Forked(true) ==> whole == (
                seq![ActionModel::Background(l)] + rest.0,
                rest.1,
            )
            &&& evs[0] != Event::Forked(true) ==> whole == (
                seq![ActionModel::Background(l)],
                Outcome::Value(None, evs.drop_first()),
            )
        }),
{
}

} // verus!
