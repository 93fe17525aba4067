//! The parser: from a sequence of tokens to a command tree.
use vstd::prelude::*;

use crate::ast::{Ast, AstModel, opt_ast_model, strings_model};
use crate::enums::{
    Op, Token, TokenModel, lemma_tokens_text_append, op_symbol, token_text, tokens_model, tokens_text,
};
use crate::lexer::{lemma_lex_text_len, lex, tokenize};
use crate::text::str_equals;

verus! {

/// The operators in the order the parser splits on them: a line is first cut
/// at its last `;`, then at its last `&`, and so on to `>`.
pub open spec fn precedence(k: nat) -> Op {
    if k == 0 {
        Op::Semicolon
    } else if k == 1 {
        Op::Background
    } else if k == 2 {
        Op::And
    } else if k == 3 {
        Op::Or
    } else if k == 4 {
        Op::Pipe
    } else if k == 5 {
        Op::RedirectLeft
    } else {
        Op::RedirectRight
    }
}

/// The number of operators in `precedence`.
pub open spec fn num_precedence() -> nat {
    7
}

/// The position of the last occurrence of the operator `op` among `toks`.
pub open spec fn last_occ(op: Op, toks: Seq<TokenModel>) -> Option<nat>
    decreases toks.len(),
{
    if toks.len() == 0 {
        None
    } else if toks.last() == TokenModel::Operator(op) {
        Some((toks.len() - 1) as nat)
    } else {
        last_occ(op, toks.drop_last())
    }
}

/// The first operator, from the `k`-th on in precedence order, that occurs
/// among `toks`, with the position of its last occurrence.
pub open spec fn split_from(toks: Seq<TokenModel>, k: nat) -> Option<(Op, nat)>
    decreases num_precedence() - k,
{
    if k >= num_precedence() {
        None
    } else {
        match last_occ(precedence(k), toks) {
            Some(n) => Some((precedence(k), n)),
            None => split_from(toks, k + 1),
        }
    }
}

/// Where the parser splits `toks`: at the last occurrence of the first
/// operator in precedence order that occurs.
pub open spec fn split_point(toks: Seq<TokenModel>) -> Option<(Op, nat)> {
    split_from(toks, 0)
}

/// How `Op` is written by `{:?}`.
pub open spec fn op_name(op: Op) -> Seq<char> {
    match op {
        Op::Semicolon => "Semicolon"@,
        Op::Pipe => "Pipe"@,
        Op::RedirectLeft => "RedirectLeft"@,
        Op::RedirectRight => "RedirectRight"@,
        Op::Or => "Or"@,
        Op::And => "And"@,
        Op::Background => "Background"@,
        Op::Append => "Append"@,
    }
}

/// The message for an expression that starts with the operator `op`.
pub open spec fn unexpected_message(op: Op) -> Seq<char> {
    "Unexpected Token found "@ + op_name(op) + " at the start of an expression"@
}

/// The message for a command followed by an operator that the parser does
/// not split on.
pub open spec fn leaf_message() -> Seq<char> {
    "Parsing error, should never get this error"@
}

/// Whether a word is a parenthesised group: it starts with `(` and ends
/// with `)`.
pub open spec fn is_group(x: Seq<char>) -> bool {
    x.len() > 0 && x[0] == '(' && x[x.len() - 1] == ')'
}

/// The words of the tokens.
pub open spec fn words(toks: Seq<TokenModel>) -> Seq<Seq<char>> {
    toks.map_values(|t: TokenModel| token_text(t))
}

/// A sequence of tokens with no operator in it, read as a command: the first
/// token names the command, the others are its arguments. No tokens, or an
/// operator first, give no command; an operator after the first token is an
/// error.
pub open spec fn parse_leaf(toks: Seq<TokenModel>) -> Result<Option<AstModel>, Seq<char>> {
    if toks.len() == 0 {
        Ok(None)
    } else {
        match toks[0] {
            TokenModel::Input(c) => {
                if exists|i: int| 1 <= i < toks.len() && toks[i] is Operator {
                    Err(leaf_message())
                } else {
                    Ok(Some(AstModel::Leaf(c, words(toks.skip(1)))))
                }
            },
            TokenModel::Operator(_) => Ok(None),
        }
    }
}

/// `last_occ` finds the operator, and none after it; or finds none at all.
pub proof fn lemma_last_occ(op: Op, toks: Seq<TokenModel>)
    ensures
        last_occ(op, toks) matches Some(n) ==> n < toks.len() && toks[n as int]
            == TokenModel::Operator(op) && forall|j: int|
            n < j < toks.len() ==> toks[j] != TokenModel::Operator(op),
        last_occ(op, toks) is None ==> forall|j: int|
            0 <= j < toks.len() ==> toks[j] != TokenModel::Operator(op),
    decreases toks.len(),
{
    if toks.len() > 0 {
        let d = toks.drop_last();
        lemma_last_occ(op, d);
        assert forall|j: int| 0 <= j < d.len() implies d[j] == toks[j] by {}
        assert(toks.last() == toks[toks.len() - 1]);
    }
}

/// Where the parser splits, there is the operator it splits at.
pub proof fn lemma_split_from(toks: Seq<TokenModel>, k: nat)
    ensures
        split_from(toks, k) matches Some((op, n)) ==> n < toks.len() && toks[n as int]
            == TokenModel::Operator(op),
    decreases num_precedence() - k,
{
    if k < num_precedence() {
        lemma_last_occ(precedence(k), toks);
        lemma_split_from(toks, k + 1);
    }
}

/// Cutting a sequence of tokens at an operator leaves fewer characters on
/// either side.
pub proof fn lemma_split_text(toks: Seq<TokenModel>, n: nat, op: Op)
    requires
        n < toks.len(),
        toks[n as int] == TokenModel::Operator(op),
    ensures
        tokens_text(toks.take(n as int)).len() < tokens_text(toks).len(),
        tokens_text(toks.skip(n + 1int)).len() < tokens_text(toks).len(),
{
    let a = toks.take(n as int);
    let m = seq![toks[n as int]];
    let b = toks.skip(n + 1int);
    assert(toks =~= a + m + b);
    lemma_tokens_text_append(a + m, b);
    lemma_tokens_text_append(a, m);
    assert(m.drop_first() =~= Seq::<TokenModel>::empty());
    assert(tokens_text(m.drop_first()) =~= Seq::<char>::empty());
    assert(tokens_text(m) =~= op_symbol(op));
}

/// The inside of a parenthesised group is shorter than the group.
pub proof fn lemma_group_text(toks: Seq<TokenModel>, x: Seq<char>)
    requires
        toks.len() == 1,
        toks[0] == TokenModel::Input(x),
        is_group(x),
    ensures
        x.len() >= 2,
        tokens_text(lex(x.subrange(1, x.len() - 1))).len() < tokens_text(toks).len(),
{
    assert(toks.drop_first() =~= Seq::<TokenModel>::empty());
    assert(tokens_text(toks.drop_first()) =~= Seq::<char>::empty());
    assert(tokens_text(toks) =~= x);
    lemma_lex_text_len(x.subrange(1, x.len() - 1));
}

/// The command tree of a sequence of tokens, or the error message.
///
/// The tokens are cut at the last occurrence of the first operator in
/// precedence order that occurs: the tokens before it make the left tree and
/// those after it the right one. An operator at the end has no right tree;
/// one at the start of several tokens is an error. With no operator to cut
/// at, a single parenthesised group is parsed from the tokens of its inside,
/// and anything else is a command with its arguments.
pub open spec fn parse(toks: Seq<TokenModel>) -> Result<Option<AstModel>, Seq<char>>
    decreases tokens_text(toks).len(),
{
    match split_point(toks) {
        Some((op, n)) => {
            proof {
                lemma_split_from(toks, 0);
                lemma_split_text(toks, n, op);
            }
            if n == toks.len() - 1 {
                match parse(toks.take(n as int)) {
                    Ok(l) => Ok(Some(AstModel::Node(Box::new(l), Box::new(None), op))),
                    Err(e) => Err(e),
                }
            } else if n == 0 {
                Err(unexpected_message(op))
            } else {
                match (parse(toks.take(n as int)), parse(toks.skip(n + 1int))) {
                    (Ok(l), Ok(r)) => Ok(Some(AstModel::Node(Box::new(l), Box::new(r), op))),
                    (Err(e), _) => Err(e),
                    (_, Err(e)) => Err(e),
                }
            }
        },
        None => {
            if toks.len() == 1 && toks[0] is Input && is_group(toks[0]->Input_0) {
                let x = toks[0]->Input_0;
                proof {
                    lemma_group_text(toks, x);
                }
                parse(lex(x.subrange(1, x.len() - 1)))
            } else {
                parse_leaf(toks)
            }
        },
    }
}


/// The model of what `make_ast` returns.
pub open spec fn parse_result_model(r: Result<Box<Option<Ast>>, String>) -> Result<
    Option<AstModel>,
    Seq<char>,
> {
    match r {
        Ok(b) => Ok(opt_ast_model(*b)),
        Err(e) => Err(e@),
    }
}

/// The `k`-th operator in precedence order.
fn precedence_op(k: usize) -> (op: Op)
    requires
        k < num_precedence(),
    ensures
        op == precedence(k as nat),
{
    if k == 0 {
        Op::Semicolon
    } else if k == 1 {
        Op::Background
    } else if k == 2 {
        Op::And
    } else if k == 3 {
        Op::Or
    } else if k == 4 {
        Op::Pipe
    } else if k == 5 {
        Op::RedirectLeft
    } else {
        Op::RedirectRight
    }
}

/// How `Op` is written by `{:?}`.
pub fn op_debug_name(op: Op) -> (s: &'static str)
    ensures
        s@ == op_name(op),
{
    match op {
        Op::Semicolon => "Semicolon",
        Op::Pipe => "Pipe",
        Op::RedirectLeft => "RedirectLeft",
        Op::RedirectRight => "RedirectRight",
        Op::Or => "Or",
        Op::And => "And",
        Op::Background => "Background",
        Op::Append => "Append",
    }
}

/// The position of the last occurrence of the operator `op` among `tokens`.
pub fn find_last_occ(op: Op, tokens: &[Token]) -> (r: Option<usize>)
    ensures
        match r {
            Some(n) => last_occ(op, tokens_model(tokens@)) == Some(n as nat),
            None => last_occ(op, tokens_model(tokens@)) is None,
        },
{
    let ghost toks = tokens_model(tokens@);
    let mut i: usize = tokens.len();
    assert(toks.take(i as int) =~= toks);
    while i > 0
        invariant
            i <= tokens@.len(),
            toks == tokens_model(tokens@),
            last_occ(op, toks) == last_occ(op, toks.take(i as int)),
        decreases i,
    {
        let n = i - 1;
        assert(toks.take(i as int).last() == tokens@[n as int]@);
        match &tokens[n] {
            Token::Operator(o) => {
                if *o == op {
                    return Some(n);
                }
            },
            Token::Input(_) => {},
        }
        assert(toks.take(i as int).drop_last() =~= toks.take(n as int));
        i = n;
    }
    None
}

/// Whether a word is a parenthesised group.
fn is_group_word(x: &String) -> (b: bool)
    ensures
        b == is_group(x@),
{
    let s = x.as_str();
    let n = s.unicode_len();
    n > 0 && s.get_char(0) == '(' && s.get_char(n - 1) == ')'
}

/// The message for an expression that starts with the operator `op`.
fn unexpected_token(op: Op) -> (m: String)
    ensures
        m@ == unexpected_message(op),
{
    let mut m = "Unexpected Token found ".to_owned();
    m.append(op_debug_name(op));
    m.append(" at the start of an expression");
    m
}

/// A sequence of tokens with no operator to split on, read as a command.
fn make_leaf(tokens: &[Token]) -> (r: Result<Box<Option<Ast>>, String>)
    ensures
        parse_result_model(r) == parse_leaf(tokens_model(tokens@)),
{
    let ghost toks = tokens_model(tokens@);
    if tokens.len() == 0 {
        return Ok(Box::new(None));
    }
    match &tokens[0] {
        Token::Input(command) => {
            assert(toks[0] == TokenModel::Input(command@));
            let comm = command.clone();
            let mut args: Vec<String> = Vec::new();
            let mut i: usize = 1;
            while i < tokens.len()
                invariant
                    1 <= i <= tokens@.len(),
                    toks == tokens_model(tokens@),
                    toks[0] == TokenModel::Input(command@),
                    comm@ == command@,
                    strings_model(args@) == words(toks.subrange(1, i as int)),
                    forall|j: int| 1 <= j < i ==> toks[j] is Input,
                decreases tokens@.len() - i,
            {
                assert(toks[i as int] == tokens@[i as int]@);
                match &tokens[i] {
                    Token::Operator(_) => {
                        assert(toks[i as int] is Operator);
                        assert(exists|j: int| 1 <= j < toks.len() && toks[j] is Operator);
                        let m = "Parsing error, should never get this error".to_owned();
                        assert(m@ == leaf_message());
                        return Err(m);
                    },
                    Token::Input(x) => {
                        let ghost before = args@;
                        args.push(x.clone());
                        assert(strings_model(args@) =~= strings_model(before).push(x@));
                        assert(words(toks.subrange(1, i + 1)) =~= words(toks.subrange(1, i as int)).push(x@));
                    },
                }
                i = i + 1;
            }
            assert(toks.subrange(1, tokens@.len() as int) =~= toks.skip(1));
            Ok(Box::new(Some(Ast::Leaf(comm, args))))
        },
        Token::Operator(_) => Ok(Box::new(None)),
    }
}

/// Builds the command tree of a sequence of tokens, or says what is wrong
/// with them.
pub fn make_ast(tokens: &[Token]) -> (r: Result<Box<Option<Ast>>, String>)
    ensures
        parse_result_model(r) == parse(tokens_model(tokens@)),
    decreases tokens_text(tokens_model(tokens@)).len(),
{
    let ghost toks = tokens_model(tokens@);
    let mut k: usize = 0;
    while k < 7
        invariant
            k <= num_precedence(),
            toks == tokens_model(tokens@),
            split_point(toks) == split_from(toks, k as nat),
        decreases 7 - k,
    {
        let op = precedence_op(k);
        let idx = find_last_occ(op, tokens);
        match idx {
            Some(n) => {
                proof {
                    lemma_split_from(toks, 0);
                    lemma_split_text(toks, n as nat, op);
                }
                let len = tokens.len();
                if n == len - 1 {
                    let left_slice = vstd::slice::slice_subrange(tokens, 0, n);
                    assert(tokens_model(left_slice@) =~= toks.take(n as int));
                    let left_tree = make_ast(left_slice);
                    match left_tree {
                        Ok(tree) => {
                            let none: Box<Option<Ast>> = Box::new(None);
                            assert(opt_ast_model(*none) is None);
                            return Ok(Box::new(Some(Ast::Node(tree, none, op))));
                        },
                        Err(e) => {
                            return Err(e);
                        },
                    }
                } else if n == 0 {
                    return Err(unexpected_token(op));
                } else {
                    let left_slice = vstd::slice::slice_subrange(tokens, 0, n);
                    let right_slice = vstd::slice::slice_subrange(tokens, n + 1, len);
                    assert(tokens_model(left_slice@) =~= toks.take(n as int));
                    assert(tokens_model(right_slice@) =~= toks.skip(n + 1int));
                    let left_tree = make_ast(left_slice);
                    let right_tree = make_ast(right_slice);
                    match (left_tree, right_tree) {
                        (Ok(l_tree), Ok(r_tree)) => {
                            return Ok(Box::new(Some(Ast::Node(l_tree, r_tree, op))));
                        },
                        (Err(x), _) => {
                            return Err(x);
                        },
                        (_, Err(x)) => {
                            return Err(x);
                        },
                    }
                }
            },
            None => {},
        }
        k = k + 1;
    }
    if tokens.len() == 1 {
        if let Token::Input(x) = &tokens[0] {
            assert(toks[0] == TokenModel::Input(x@));
            if is_group_word(x) {
                proof {
                    lemma_group_text(toks, x@);
                }
                let n = x.as_str().unicode_len();
                let inner = x.as_str().substring_char(1, n - 1);
                let new_str = inner.to_owned();
                let mut new_tokens: Vec<Token> = Vec::new();
                tokenize(&new_str, &mut new_tokens);
                assert(tokens_model(new_tokens@) =~= lex(x@.subrange(1, x@.len() - 1)));
                return make_ast(new_tokens.as_slice());
            }
        }
    }
    make_leaf(tokens)
}


proof fn lemma_last_occ_none(op: Op, toks: Seq<TokenModel>)
    requires
        forall|j: int| 0 <= j < toks.len() ==> toks[j] != TokenModel::Operator(op),
    ensures
        last_occ(op, toks) is None,
{
    lemma_last_occ(op, toks);
}

proof fn lemma_last_occ_at(op: Op, toks: Seq<TokenModel>, n: nat)
    requires
        n < toks.len(),
        toks[n as int] == TokenModel::Operator(op),
        forall|j: int| n < j < toks.len() ==> toks[j] != TokenModel::Operator(op),
    ensures
        last_occ(op, toks) == Some(n),
    decreases toks.len(),
{
    if n < toks.len() - 1 {
        let d = toks.drop_last();
        assert(toks.last() == toks[toks.len() - 1]);
        lemma_last_occ_at(op, d, n);
    }
}

proof fn lemma_split_from_none(toks: Seq<TokenModel>, j: nat, k: nat)
    requires
        j <= k,
        forall|m: nat| j <= m < k ==> last_occ(precedence(m), toks) is None,
    ensures
        split_from(toks, j) == split_from(toks, k),
    decreases k - j,
{
    if j < k {
        lemma_split_from_none(toks, j + 1, k);
    }
}

/// No operator that comes before the `k`-th in precedence order occurs
/// among the tokens.
pub open spec fn free_of_lower(toks: Seq<TokenModel>, k: nat) -> bool {
    forall|i: int, j: nat|
        0 <= i < toks.len() && j < k ==> toks[i] != TokenModel::Operator(precedence(j))
}

/// A sequence of words with no operator is a command: its first word names
/// it, the others are its arguments (unless it is a single parenthesised
/// group).
pub proof fn lemma_parse_command(toks: Seq<TokenModel>)
    requires
        toks.len() > 0,
        forall|i: int| 0 <= i < toks.len() ==> toks[i] is Input,
        !(toks.len() == 1 && is_group(toks[0]->Input_0)),
    ensures
        parse(toks) == Ok::<Option<AstModel>, Seq<char>>(
            Some(AstModel::Leaf(toks[0]->Input_0, words(toks.skip(1)))),
        ),
{
    assert forall|m: nat| 0 <= m < num_precedence() implies last_occ(precedence(m), toks) is None by {
        lemma_last_occ_none(precedence(m), toks);
    }
    lemma_split_from_none(toks, 0, num_precedence());
    assert(!exists|i: int| 1 <= i < toks.len() && toks[i] is Operator);
}

/// Precedence: a sequence of tokens cut at the last occurrence of the
/// `k`-th operator, where no operator before it in precedence order occurs,
/// is parsed as that operator over the two sides; an error on the left comes
/// first, then one on the right.
pub proof fn lemma_parse_splits_at_last(a: Seq<TokenModel>, b: Seq<TokenModel>, k: nat)
    requires
        k < num_precedence(),
        a.len() > 0,
        b.len() > 0,
        free_of_lower(a, k),
        free_of_lower(b, k),
        forall|i: int| 0 <= i < b.len() ==> b[i] != TokenModel::Operator(precedence(k)),
    ensures
        parse(a + seq![TokenModel::Operator(precedence(k))] + b) == match (parse(a), parse(b)) {
            (Ok(l), Ok(r)) => Ok(Some(AstModel::Node(Box::new(l), Box::new(r), precedence(k)))),
            (Err(e), _) => Err(e),
            (_, Err(e)) => Err(e),
        },
{
    let op = precedence(k);
    let t = a + seq![TokenModel::Operator(op)] + b;
    let n = a.len();
    assert(t[n as int] == TokenModel::Operator(op));
    assert forall|m: nat| 0 <= m < k implies last_occ(precedence(m), t) is None by {
        assert forall|j: int| 0 <= j < t.len() implies t[j] != TokenModel::Operator(precedence(m)) by {
            if j < n {
                assert(t[j] == a[j]);
            } else if j > n {
                assert(t[j] == b[j - n - 1]);
            }
        }
        lemma_last_occ_none(precedence(m), t);
    }
    assert forall|j: int| n < j < t.len() implies t[j] != TokenModel::Operator(op) by {
        assert(t[j] == b[j - n - 1]);
    }
    lemma_last_occ_at(op, t, n);
    lemma_split_from_none(t, 0, k);
    assert(t.take(n as int) =~= a);
    assert(t.skip(n + 1int) =~= b);
}


/// A single parenthesised group is parsed as the tokens of its inside.
pub proof fn lemma_parse_group(x: Seq<char>)
    requires
        is_group(x),
    ensures
        parse(seq![TokenModel::Input(x)]) == parse(lex(x.subrange(1, x.len() - 1))),
{
    let toks = seq![TokenModel::Input(x)];
    assert forall|m: nat| 0 <= m < num_precedence() implies last_occ(precedence(m), toks) is None by {
        lemma_last_occ_none(precedence(m), toks);
    }
    lemma_split_from_none(toks, 0, num_precedence());
}


/// The tokens that a command tree stands for, in order: a command is its word
/// and its arguments, an operator stands between its two sides.
pub open spec fn flatten(t: Option<AstModel>) -> Seq<TokenModel>
    decreases t,
{
    match t {
        None => seq![],
        Some(AstModel::Leaf(c, args)) => seq![TokenModel::Input(c)] + args.map_values(
            |a: Seq<char>| TokenModel::Input(a),
        ),
        Some(AstModel::Node(l, r, op)) => flatten(*l) + seq![TokenModel::Operator(op)] + flatten(*r),
    }
}

/// Tokens with no `>>` and no parenthesised group, which the parser keeps
/// as they are.
pub open spec fn plain_tokens(toks: Seq<TokenModel>) -> bool {
    forall|i: int|
        0 <= i < toks.len() ==> #[trigger] toks[i] != TokenModel::Operator(Op::Append) && !(
        toks[i] is Input && is_group(toks[i]->Input_0))
}

proof fn lemma_split_from_none_all(toks: Seq<TokenModel>, k: nat)
    requires
        split_from(toks, k) is None,
    ensures
        forall|m: nat| k <= m < num_precedence() ==> last_occ(precedence(m), toks) is None,
    decreases num_precedence() - k,
{
    if k < num_precedence() {
        lemma_split_from_none_all(toks, k + 1);
    }
}

/// A command tree keeps every token it was parsed from, in order, when
/// there is no `>>` and no parenthesised group among them.
pub proof fn lemma_parse_keeps_tokens(toks: Seq<TokenModel>)
    requires
        plain_tokens(toks),
    ensures
        parse(toks) matches Ok(t) ==> flatten(t) == toks,
    decreases tokens_text(toks).len(),
{
    match split_point(toks) {
        Some((op, n)) => {
            lemma_split_from(toks, 0);
            lemma_split_text(toks, n, op);
            let a = toks.take(n as int);
            let b = toks.skip(n + 1int);
            assert(plain_tokens(a)) by {
                assert forall|i: int| 0 <= i < a.len() implies #[trigger] a[i] != TokenModel::Operator(
                    Op::Append,
                ) && !(a[i] is Input && is_group(a[i]->Input_0)) by {
                    assert(a[i] == toks[i]);
                }
            }
            assert(plain_tokens(b)) by {
                assert forall|i: int| 0 <= i < b.len() implies #[trigger] b[i] != TokenModel::Operator(
                    Op::Append,
                ) && !(b[i] is Input && is_group(b[i]->Input_0)) by {
                    assert(b[i] == toks[i + n + 1]);
                }
            }
            lemma_parse_keeps_tokens(a);
            lemma_parse_keeps_tokens(b);
            if n == toks.len() - 1 {
                assert(b.len() == 0);
                assert(a + seq![TokenModel::Operator(op)] + Seq::<TokenModel>::empty() =~= toks);
                if let Ok(l) = parse(a) {
                    assert(flatten(None) == Seq::<TokenModel>::empty());
                    assert(flatten(Some(AstModel::Node(Box::new(l), Box::new(None), op))) == toks);
                }
            } else if n > 0 {
                assert(a + seq![TokenModel::Operator(op)] + b =~= toks);
                if let (Ok(l), Ok(r)) = (parse(a), parse(b)) {
                    assert(flatten(Some(AstModel::Node(Box::new(l), Box::new(r), op))) == toks);
                }
            }
        },
        None => {
            lemma_split_from_none_all(toks, 0);
            if toks.len() > 0 {
                assert(toks[0] != TokenModel::Operator(Op::Append));
                if toks[0] is Operator {
                    let o = toks[0]->Operator_0;
                    assert forall|m: nat| 0 <= m < num_precedence() implies o != precedence(m) by {
                        lemma_last_occ(precedence(m), toks);
                    }
                    assert(o != precedence(0) && o != precedence(1) && o != precedence(2) && o
                        != precedence(3) && o != precedence(4) && o != precedence(5) && o
                        != precedence(6));
                    assert(false);
                } else {
                    let c = toks[0]->Input_0;
                    if !exists|i: int| 1 <= i < toks.len() && toks[i] is Operator {
                        let args = words(toks.skip(1));
                        assert(seq![TokenModel::Input(c)] + args.map_values(
                            |a: Seq<char>| TokenModel::Input(a),
                        ) =~= toks) by {
                            assert forall|i: int| 1 <= i < toks.len() implies toks[i] is Input by {}
                        }
                        assert(parse(toks) == parse_leaf(toks));
                        assert(flatten(Some(AstModel::Leaf(c, args))) == toks);
                    }
                }
            } else {
                assert(flatten(None) =~= toks);
            }
        },
    }
}


/// A word that the parser takes as it is: not a parenthesised group.
pub open spec fn not_group(w: Seq<char>) -> bool {
    w.len() == 0 || w[0] != '('
}

proof fn lemma_parse_word(w: Seq<char>)
    requires
        not_group(w),
    ensures
        parse(seq![TokenModel::Input(w)]) == Ok::<Option<AstModel>, Seq<char>>(
            Some(AstModel::Leaf(w, seq![])),
        ),
{
    let toks = seq![TokenModel::Input(w)];
    lemma_parse_command(toks);
    assert(words(toks.skip(1)) =~= Seq::<Seq<char>>::empty());
}

/// The order in which the parser splits: `;`, then `&`, `&&`, `||`, `|`, `<`
/// and `>`. Of two operators between three words, the line is cut at the one
/// that comes first in this order, whichever of the two stands first.
pub proof fn lemma_precedence_order(i: int, j: int, w1: Seq<char>, w2: Seq<char>, w3: Seq<char>)
    requires
        0 <= i < j < 7,
        not_group(w1),
        not_group(w2),
        not_group(w3),
    ensures
        ({
            let ops = seq![
                Op::Semicolon,
                Op::Background,
                Op::And,
                Op::Or,
                Op::Pipe,
                Op::RedirectLeft,
                Op::RedirectRight,
            ];
            let leaf1 = Some(AstModel::Leaf(w1, seq![]));
            let leaf2 = Some(AstModel::Leaf(w2, seq![]));
            let leaf3 = Some(AstModel::Leaf(w3, seq![]));
            &&& parse(
                seq![
                    TokenModel::Input(w1),
                    TokenModel::Operator(ops[j]),
                    TokenModel::Input(w2),
                    TokenModel::Operator(ops[i]),
                    TokenModel::Input(w3),
                ],
            ) == Ok::<Option<AstModel>, Seq<char>>(
                Some(
                    AstModel::Node(
                        Box::new(Some(AstModel::Node(Box::new(leaf1), Box::new(leaf2), ops[j]))),
                        Box::new(leaf3),
                        ops[i],
                    ),
                ),
            )
            &&& parse(
                seq![
                    TokenModel::Input(w1),
                    TokenModel::Operator(ops[i]),
                    TokenModel::Input(w2),
                    TokenModel::Operator(ops[j]),
                    TokenModel::Input(w3),
                ],
            ) == Ok::<Option<AstModel>, Seq<char>>(
                Some(
                    AstModel::Node(
                        Box::new(leaf1),
                        Box::new(Some(AstModel::Node(Box::new(leaf2), Box::new(leaf3), ops[j]))),
                        ops[i],
                    ),
                ),
            )
        }),
{
    let ops = seq![
        Op::Semicolon,
        Op::Background,
        Op::And,
        Op::Or,
        Op::Pipe,
        Op::RedirectLeft,
        Op::RedirectRight,
    ];
    assert forall|m: int| 0 <= m < 7 implies ops[m] == precedence(m as nat) by {}
    assert forall|m: nat, n: nat| m < 7 && n < 7 && m != n implies precedence(m) != precedence(n) by {}
    let oi = TokenModel::Operator(ops[i]);
    let oj = TokenModel::Operator(ops[j]);
    let t1 = seq![TokenModel::Input(w1)];
    let t2 = seq![TokenModel::Input(w2)];
    let t3 = seq![TokenModel::Input(w3)];
    lemma_parse_word(w1);
    lemma_parse_word(w2);
    lemma_parse_word(w3);
    // w1 oj w2, cut at oj
    lemma_parse_splits_at_last(t1, t2, j as nat);
    assert(t1 + seq![oj] + t2 =~= seq![TokenModel::Input(w1), oj, TokenModel::Input(w2)]);
    // w2 oj w3, cut at oj
    lemma_parse_splits_at_last(t2, t3, j as nat);
    assert(t2 + seq![oj] + t3 =~= seq![TokenModel::Input(w2), oj, TokenModel::Input(w3)]);
    // (w1 oj w2) oi w3
    let a = t1 + seq![oj] + t2;
    assert(free_of_lower(a, i as nat));
    lemma_parse_splits_at_last(a, t3, i as nat);
    assert(a + seq![oi] + t3 =~= seq![TokenModel::Input(w1), oj, TokenModel::Input(w2), oi, TokenModel::Input(w3)]);
    // w1 oi (w2 oj w3)
    let b = t2 + seq![oj] + t3;
    assert(free_of_lower(b, i as nat));
    assert forall|k: int| 0 <= k < b.len() implies b[k] != TokenModel::Operator(precedence(i as nat)) by {}
    lemma_parse_splits_at_last(t1, b, i as nat);
    assert(t1 + seq![oi] + b =~= seq![TokenModel::Input(w1), oi, TokenModel::Input(w2), oj, TokenModel::Input(w3)]);
}


proof fn lemma_split_single_op(toks: Seq<TokenModel>, k: nat, n: nat)
    requires
        k < num_precedence(),
        n < toks.len(),
        toks[n as int] == TokenModel::Operator(precedence(k)),
        forall|i: int| 0 <= i < toks.len() && i != n ==> toks[i] is Input,
    ensures
        split_point(toks) == Some((precedence(k), n)),
{
    assert forall|m: nat| 0 <= m < k implies last_occ(precedence(m), toks) is None by {
        assert forall|j: int| 0 <= j < toks.len() implies toks[j] != TokenModel::Operator(precedence(m)) by {
            if j == n {
                assert(precedence(m) != precedence(k));
            }
        }
        lemma_last_occ_none(precedence(m), toks);
    }
    lemma_last_occ_at(precedence(k), toks, n);
    lemma_split_from_none(toks, 0, k);
}

/// An operator at the start of an expression is an error that names it;
/// one at the end has no right side.
pub proof fn lemma_operator_at_the_ends(k: int, w: Seq<char>)
    requires
        0 <= k < 7,
        not_group(w),
    ensures
        ({
            let ops = seq![
                Op::Semicolon,
                Op::Background,
                Op::And,
                Op::Or,
                Op::Pipe,
                Op::RedirectLeft,
                Op::RedirectRight,
            ];
            let names = seq![
                "Semicolon"@,
                "Background"@,
                "And"@,
                "Or"@,
                "Pipe"@,
                "RedirectLeft"@,
                "RedirectRight"@,
            ];
            &&& parse(seq![TokenModel::Operator(ops[k]), TokenModel::Input(w)]) == Err::<
                Option<AstModel>,
                Seq<char>,
            >("Unexpected Token found "@ + names[k] + " at the start of an expression"@)
            &&& parse(seq![TokenModel::Input(w), TokenModel::Operator(ops[k])]) == Ok::<
                Option<AstModel>,
                Seq<char>,
            >(
                Some(
                    AstModel::Node(
                        Box::new(Some(AstModel::Leaf(w, seq![]))),
                        Box::new(None),
                        ops[k],
                    ),
                ),
            )
        }),
{
    let ops = seq![
        Op::Semicolon,
        Op::Background,
        Op::And,
        Op::Or,
        Op::Pipe,
        Op::RedirectLeft,
        Op::RedirectRight,
    ];
    assert forall|m: int| 0 <= m < 7 implies ops[m] == precedence(m as nat) by {}
    assert forall|m: nat, n: nat| m < 7 && n < 7 && m != n implies precedence(m) != precedence(n) by {}
    let t1 = seq![TokenModel::Operator(ops[k]), TokenModel::Input(w)];
    let t2 = seq![TokenModel::Input(w), TokenModel::Operator(ops[k])];
    lemma_split_single_op(t1, k as nat, 0);
    lemma_split_single_op(t2, k as nat, 1);
    assert(t2.take(1) =~= seq![TokenModel::Input(w)]);
    lemma_parse_word(w);
}

/// `>>` is never split on: after a command word it is an error.
pub proof fn lemma_append_after_word_is_an_error(w1: Seq<char>, w2: Seq<char>)
    requires
        not_group(w1),
    ensures
        parse(seq![TokenModel::Input(w1), TokenModel::Operator(Op::Append), TokenModel::Input(w2)])
            == Err::<Option<AstModel>, Seq<char>>("Parsing error, should never get this error"@),
{
    let toks = seq![TokenModel::Input(w1), TokenModel::Operator(Op::Append), TokenModel::Input(w2)];
    assert forall|m: nat| 0 <= m < num_precedence() implies last_occ(precedence(m), toks) is None by {
        lemma_last_occ_none(precedence(m), toks);
    }
    lemma_split_from_none(toks, 0, num_precedence());
    assert(toks[1] is Operator);
}

} // verus!
