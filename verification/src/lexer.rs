//! The lexer: from a line of input to a sequence of tokens.
use vstd::prelude::*;

use crate::enums::{
    Op, Token, TokenModel, lemma_tokens_text_append, op_symbol, token_text, tokens_model, tokens_text,
};
use crate::text::{char_is_whitespace, is_whitespace, push_char};

verus! {

/// The characters of a line that are still to be read, with one character of
/// lookahead.
pub struct CharStream {
    chars: Vec<char>,
    pos: usize,
}

impl View for CharStream {
    type V = Seq<char>;

    /// The characters not read yet.
    closed spec fn view(&self) -> Seq<char> {
        self.chars@.skip(self.pos as int)
    }
}

impl CharStream {
    #[verifier::type_invariant]
    spec fn wf(&self) -> bool {
        self.pos <= self.chars.len()
    }

    /// A stream over the characters of `input`.
    pub fn new(input: &String) -> (r: CharStream)
        ensures
            r@ == input@,
    {
        let mut chars: Vec<char> = Vec::new();
        for c in it: input.as_str().chars()
            invariant
                it.seq() == input@,
                chars@ == it.seq().take(it.index() as int),
            ensures
                chars@ == input@,
        {
            chars.push(c);
            assert(chars@ =~= it.seq().take(it.index() + 1));
        }
        assert(chars@.skip(0) =~= input@);
        CharStream { chars, pos: 0 }
    }

    /// A stream over the given characters.
    pub fn from_chars(chars: Vec<char>) -> (r: CharStream)
        ensures
            r@ == chars@,
    {
        assert(chars@.skip(0) =~= chars@);
        CharStream { chars, pos: 0 }
    }

    /// The next character, which is taken from the stream.
    pub fn next(&mut self) -> (r: Option<char>)
        ensures
            old(self)@.len() == 0 ==> r is None && final(self)@ == old(self)@,
            old(self)@.len() > 0 ==> r == Some(old(self)@[0]) && final(self)@ == old(self)@.drop_first(),
    {
        proof {
            use_type_invariant(&*self);
        }
        if self.pos < self.chars.len() {
            let c = self.chars[self.pos];
            self.pos = self.pos + 1;
            assert(self.chars@.skip(self.pos as int) =~= old(self)@.drop_first());
            Some(c)
        } else {
            None
        }
    }

    /// The next character, which stays in the stream.
    pub fn peek(&self) -> (r: Option<char>)
        ensures
            self@.len() == 0 ==> r is None,
            self@.len() > 0 ==> r == Some(self@[0]),
    {
        proof {
            use_type_invariant(self);
        }
        if self.pos < self.chars.len() {
            Some(self.chars[self.pos])
        } else {
            None
        }
    }
}


/// The characters that may continue a plain word: anything but an operator
/// character, whitespace or a quote.
pub open spec fn is_word_char(x: char) -> bool {
    &&& x != '<'
    &&& x != '>'
    &&& x != '|'
    &&& x != '&'
    &&& x != ';'
    &&& !char_is_whitespace(x)
    &&& x != '\''
    &&& x != '"'
}

/// How many characters of `r` a quoted string takes after its opening quote
/// `q`: up to and including the first `q`, or all of them when none closes it.
pub open spec fn quoted_len(r: Seq<char>, q: char) -> nat
    decreases r.len(),
{
    if r.len() == 0 {
        0
    } else if r[0] == q {
        1
    } else {
        1 + quoted_len(r.drop_first(), q)
    }
}

/// How many characters of `r` a plain word takes after its first character:
/// the word characters up to the first other character.
pub open spec fn word_len(r: Seq<char>) -> nat
    decreases r.len(),
{
    if r.len() == 0 || !is_word_char(r[0]) {
        0
    } else {
        1 + word_len(r.drop_first())
    }
}

/// The state of the scan of a parenthesised group: the parentheses opened,
/// those closed, and whether a single or a double quote is open.
pub struct ParenScan {
    pub opened: nat,
    pub closed: nat,
    pub in_single: bool,
    pub in_double: bool,
}

/// The state of the scan right after the opening parenthesis.
pub open spec fn paren_start() -> ParenScan {
    ParenScan { opened: 1, closed: 0, in_single: false, in_double: false }
}

/// The state of the scan after one more character.
pub open spec fn paren_step(st: ParenScan, c: char) -> ParenScan {
    if st.in_single && c == '\'' {
        ParenScan { in_single: false, ..st }
    } else if st.in_double && c == '"' {
        ParenScan { in_double: false, ..st }
    } else if !st.in_single && !st.in_double && c == ')' {
        ParenScan { closed: st.closed + 1, ..st }
    } else if !st.in_single && !st.in_double && c == '(' {
        ParenScan { opened: st.opened + 1, ..st }
    } else if c == '\'' {
        ParenScan { in_single: true, ..st }
    } else if c == '"' {
        ParenScan { in_double: true, ..st }
    } else {
        st
    }
}

/// How many characters of `r` a parenthesised group takes from scan state
/// `st`: up to the character after which as many parentheses are closed as
/// are opened, or all of them.
pub open spec fn paren_len(r: Seq<char>, st: ParenScan) -> nat
    decreases r.len(),
{
    if r.len() == 0 {
        0
    } else if paren_step(st, r[0]).opened == paren_step(st, r[0]).closed {
        1
    } else {
        1 + paren_len(r.drop_first(), paren_step(st, r[0]))
    }
}

/// A quoted string takes at most what is left, and something where
/// anything is left.
pub proof fn lemma_quoted_len_bound(r: Seq<char>, q: char)
    ensures
        quoted_len(r, q) <= r.len(),
        r.len() > 0 ==> quoted_len(r, q) > 0,
    decreases r.len(),
{
    if r.len() > 0 {
        lemma_quoted_len_bound(r.drop_first(), q);
    }
}

/// A plain word takes at most what is left.
pub proof fn lemma_word_len_bound(r: Seq<char>)
    ensures
        word_len(r) <= r.len(),
    decreases r.len(),
{
    if r.len() > 0 {
        lemma_word_len_bound(r.drop_first());
    }
}

/// A parenthesised group takes at most what is left, and something where
/// anything is left.
pub proof fn lemma_paren_len_bound(r: Seq<char>, st: ParenScan)
    ensures
        paren_len(r, st) <= r.len(),
        r.len() > 0 ==> paren_len(r, st) > 0,
    decreases r.len(),
{
    if r.len() > 0 {
        lemma_paren_len_bound(r.drop_first(), paren_step(st, r[0]));
    }
}

/// An input token made of `first` and the `n` characters of `r` after it.
pub open spec fn input_token(first: char, r: Seq<char>, n: nat) -> TokenModel {
    TokenModel::Input(seq![first] + r.take(n as int))
}

/// The tokens of a line.
///
/// `;`, `<` and `>` are operators of one character; `&&` and `||` are
/// operators, and a single `&` or `|` is one too. A quote starts a quoted
/// string that runs to the closing quote, `(` a group that runs to its
/// matching `)`, and any other character that is not whitespace a plain word.
/// Whitespace between tokens is dropped.
pub open spec fn lex(s: Seq<char>) -> Seq<TokenModel>
    decreases s.len(),
{
    if s.len() == 0 {
        seq![]
    } else {
        let c = s[0];
        let r = s.drop_first();
        if c == ';' {
            seq![TokenModel::Operator(Op::Semicolon)] + lex(r)
        } else if c == '<' {
            seq![TokenModel::Operator(Op::RedirectLeft)] + lex(r)
        } else if c == '>' {
            seq![TokenModel::Operator(Op::RedirectRight)] + lex(r)
        } else if c == '&' {
            if r.len() > 0 && r[0] == '&' {
                seq![TokenModel::Operator(Op::And)] + lex(r.drop_first())
            } else {
                seq![TokenModel::Operator(Op::Background)] + lex(r)
            }
        } else if c == '|' {
            if r.len() > 0 && r[0] == '|' {
                seq![TokenModel::Operator(Op::Or)] + lex(r.drop_first())
            } else {
                seq![TokenModel::Operator(Op::Pipe)] + lex(r)
            }
        } else if c == '\'' || c == '"' {
            proof {
                lemma_quoted_len_bound(r, c);
            }
            let n = quoted_len(r, c);
            seq![input_token(c, r, n)] + lex(r.skip(n as int))
        } else if c == '(' {
            proof {
                lemma_paren_len_bound(r, paren_start());
            }
            let n = paren_len(r, paren_start());
            seq![input_token(c, r, n)] + lex(r.skip(n as int))
        } else if !char_is_whitespace(c) {
            proof {
                lemma_word_len_bound(r);
            }
            let n = word_len(r);
            seq![input_token(c, r, n)] + lex(r.skip(n as int))
        } else {
            lex(r)
        }
    }
}

/// How many characters a stream lost between two of its states.
pub open spec fn taken(before: Seq<char>, after: Seq<char>) -> nat {
    (before.len() - after.len()) as nat
}

/// `n` characters of `r` are what `keep_while` takes under `predicate`: all
/// of `r`, or up to and including the first character that `predicate`
/// rejects; at least one where there is one.
pub open spec fn kept_while<F: Fn(char) -> bool>(predicate: F, r: Seq<char>, n: nat) -> bool {
    &&& n <= r.len()
    &&& r.len() > 0 ==> n > 0
    &&& forall|i: int| 0 <= i < n - 1 ==> predicate.ensures((r[i],), true)
    &&& n < r.len() ==> predicate.ensures((r[n - 1],), false)
}

/// `n` characters of `r` are what `keep_while_ex` takes under `predicate`:
/// those up to the first one that `predicate` rejects, or all of them.
pub open spec fn kept_while_ex<F: Fn(char) -> bool>(predicate: F, r: Seq<char>, n: nat) -> bool {
    &&& n <= r.len()
    &&& forall|i: int| 0 <= i < n ==> predicate.ensures((r[i],), true)
    &&& n < r.len() ==> predicate.ensures((r[n as int],), false)
}

/// Appends to `s` the characters of `iter` up to and including the first one
/// that `predicate` rejects, or all of them.
pub fn keep_while<F: Fn(char) -> bool>(s: &mut String, predicate: F, iter: &mut CharStream)
    requires
        forall|c: char| predicate.requires((c,)),
    ensures
        final(iter)@.len() <= old(iter)@.len(),
        final(iter)@ == old(iter)@.skip(taken(old(iter)@, final(iter)@) as int),
        final(s)@ == old(s)@ + old(iter)@.take(taken(old(iter)@, final(iter)@) as int),
        kept_while(predicate, old(iter)@, taken(old(iter)@, final(iter)@)),
{
    let ghost r = iter@;
    let ghost s0 = s@;
    loop
        invariant_except_break
            forall|i: int| 0 <= i < taken(r, iter@) ==> predicate.ensures((r[i],), true),
        invariant
            forall|c: char| predicate.requires((c,)),
            iter@.len() <= r.len(),
            iter@ == r.skip(taken(r, iter@) as int),
            s@ == s0 + r.take(taken(r, iter@) as int),
        ensures
            iter@.len() <= r.len(),
            iter@ == r.skip(taken(r, iter@) as int),
            s@ == s0 + r.take(taken(r, iter@) as int),
            kept_while(predicate, r, taken(r, iter@)),
        decreases iter@.len(),
    {
        let ghost before = iter@;
        match iter.next() {
            Some(c) => {
                proof {
                    assert(c == r[taken(r, before) as int]);
                    assert(r.skip(taken(r, before) as int).drop_first() =~= r.skip(taken(r, before) + 1int));
                }
                push_char(s, c);
                assert(r.take(taken(r, iter@) as int) =~= r.take(taken(r, before) as int).push(c));
                if !predicate(c) {
                    break;
                }
            },
            None => {
                break;
            },
        }
    }
}

/// Appends to `s` the characters of `iter` for as long as `predicate`
/// accepts them; the first one it rejects stays in `iter`.
pub fn keep_while_ex<F: Fn(char) -> bool>(s: &mut String, predicate: F, iter: &mut CharStream)
    requires
        forall|c: char| predicate.requires((c,)),
    ensures
        final(iter)@.len() <= old(iter)@.len(),
        final(iter)@ == old(iter)@.skip(taken(old(iter)@, final(iter)@) as int),
        final(s)@ == old(s)@ + old(iter)@.take(taken(old(iter)@, final(iter)@) as int),
        kept_while_ex(predicate, old(iter)@, taken(old(iter)@, final(iter)@)),
{
    let ghost r = iter@;
    let ghost s0 = s@;
    loop
        invariant
            forall|c: char| predicate.requires((c,)),
            iter@.len() <= r.len(),
            iter@ == r.skip(taken(r, iter@) as int),
            s@ == s0 + r.take(taken(r, iter@) as int),
            forall|i: int| 0 <= i < taken(r, iter@) ==> predicate.ensures((r[i],), true),
        ensures
            iter@.len() <= r.len(),
            iter@ == r.skip(taken(r, iter@) as int),
            s@ == s0 + r.take(taken(r, iter@) as int),
            kept_while_ex(predicate, r, taken(r, iter@)),
        decreases iter@.len(),
    {
        let ghost before = iter@;
        let c = match iter.peek() {
            Some(c) => c,
            None => {
                break;
            },
        };
        proof {
            assert(c == r[taken(r, before) as int]);
        }
        if !predicate(c) {
            break;
        }
        iter.next();
        proof {
            assert(r.skip(taken(r, before) as int).drop_first() =~= r.skip(taken(r, before) + 1int));
        }
        push_char(s, c);
        assert(r.take(taken(r, iter@) as int) =~= r.take(taken(r, before) as int).push(c));
    }
}

/// Appends to `s` the characters of `iter` up to the one that closes the
/// group whose opening parenthesis was read already, or all of them.
/// Parentheses inside single or double quotes do not count.
pub fn read_until_close_paren(s: &mut String, iter: &mut CharStream)
    ensures
        final(iter)@ == old(iter)@.skip(paren_len(old(iter)@, paren_start()) as int),
        final(s)@ == old(s)@ + old(iter)@.take(paren_len(old(iter)@, paren_start()) as int),
{
    let ghost r = iter@;
    let ghost s0 = s@;
    let mut starts: u128 = 1;
    let mut ends: u128 = 0;
    let mut sqmode = false;
    let mut dqmode = false;
    proof {
        use_type_invariant(&*iter);
        lemma_paren_len_bound(r, paren_start());
    }
    loop
        invariant_except_break
            starts != ends,
            paren_len(r, paren_start()) == taken(r, iter@) + paren_len(
                iter@,
                ParenScan {
                    opened: starts as nat,
                    closed: ends as nat,
                    in_single: sqmode,
                    in_double: dqmode,
                },
            ),
        invariant
            iter@.len() <= r.len(),
            iter@ == r.skip(taken(r, iter@) as int),
            s@ == s0 + r.take(taken(r, iter@) as int),
            starts <= taken(r, iter@) + 1,
            ends <= taken(r, iter@),
            r.len() <= usize::MAX,
        ensures
            iter@ == r.skip(paren_len(r, paren_start()) as int),
            s@ == s0 + r.take(paren_len(r, paren_start()) as int),
        decreases iter@.len(),
    {
        let ghost before = iter@;
        let ghost st = ParenScan {
            opened: starts as nat,
            closed: ends as nat,
            in_single: sqmode,
            in_double: dqmode,
        };
        match iter.next() {
            Some(c) => {
                proof {
                    assert(c == r[taken(r, before) as int]);
                    assert(r.skip(taken(r, before) as int).drop_first() =~= r.skip(taken(r, before) + 1int));
                }
                if sqmode && c == '\'' {
                    sqmode = false;
                } else if dqmode && c == '"' {
                    dqmode = false;
                } else if !sqmode && !dqmode && c == ')' {
                    ends = ends + 1;
                } else if !sqmode && !dqmode && c == '(' {
                    starts = starts + 1;
                } else if c == '\'' {
                    sqmode = true;
                } else if c == '"' {
                    dqmode = true;
                }
                push_char(s, c);
                assert(r.take(taken(r, iter@) as int) =~= r.take(taken(r, before) as int).push(c));
                assert(paren_step(st, c) == ParenScan {
                    opened: starts as nat,
                    closed: ends as nat,
                    in_single: sqmode,
                    in_double: dqmode,
                });
                if starts == ends {
                    break;
                }
            },
            None => {
                break;
            },
        }
    }
}


proof fn lemma_quoted_len_unique(r: Seq<char>, q: char, n: nat)
    requires
        n <= r.len(),
        r.len() > 0 ==> n > 0,
        forall|i: int| 0 <= i < n - 1 ==> r[i] != q,
        n < r.len() ==> r[n - 1] == q,
    ensures
        n == quoted_len(r, q),
    decreases r.len(),
{
    if r.len() > 0 && r[0] != q {
        let r1 = r.drop_first();
        if n >= 2 {
            assert forall|i: int| 0 <= i < n - 2 implies r1[i] != q by {
                assert(r1[i] == r[i + 1]);
            }
            if n < r.len() {
                assert(r1[n - 2] == r[n - 1]);
            }
            lemma_quoted_len_unique(r1, q, (n - 1) as nat);
        } else {
            assert(quoted_len(r1, q) == 0);
        }
    } else if r.len() > 0 && n >= 2 {
        assert(r[0] != q);
    }
}

/// What `keep_while` takes under the test "not the quote `q`" is the rest of
/// a quoted string.
proof fn lemma_kept_quoted<F: Fn(char) -> bool>(predicate: F, r: Seq<char>, q: char, n: nat)
    requires
        kept_while(predicate, r, n),
        forall|x: char, b: bool| predicate.ensures((x,), b) ==> b == (x != q),
    ensures
        n == quoted_len(r, q),
{
    assert forall|i: int| 0 <= i < n - 1 implies r[i] != q by {
        assert(predicate.ensures((r[i],), true));
    }
    if n < r.len() {
        assert(predicate.ensures((r[n - 1],), false));
    }
    lemma_quoted_len_unique(r, q, n);
}

proof fn lemma_word_len_unique(r: Seq<char>, n: nat)
    requires
        n <= r.len(),
        forall|i: int| 0 <= i < n ==> is_word_char(r[i]),
        n < r.len() ==> !is_word_char(r[n as int]),
    ensures
        n == word_len(r),
    decreases r.len(),
{
    if r.len() > 0 && n > 0 {
        let r1 = r.drop_first();
        assert forall|i: int| 0 <= i < n - 1 implies is_word_char(r1[i]) by {
            assert(r1[i] == r[i + 1]);
        }
        if n < r.len() {
            assert(r1[n - 1] == r[n as int]);
        }
        assert(is_word_char(r[0]));
        lemma_word_len_unique(r1, (n - 1) as nat);
    }
}

/// What `keep_while_ex` takes under the word-character test is the rest of a
/// plain word.
proof fn lemma_kept_word<F: Fn(char) -> bool>(predicate: F, r: Seq<char>, n: nat)
    requires
        kept_while_ex(predicate, r, n),
        forall|x: char, b: bool| predicate.ensures((x,), b) ==> b == is_word_char(x),
    ensures
        n == word_len(r),
{
    assert forall|i: int| 0 <= i < n implies is_word_char(r[i]) by {
        assert(predicate.ensures((r[i],), true));
    }
    if n < r.len() {
        assert(predicate.ensures((r[n as int],), false));
    }
    lemma_word_len_unique(r, n);
}

proof fn lemma_push_token(v: Seq<Token>, t: Token)
    ensures
        tokens_model(v.push(t)) == tokens_model(v).push(t@),
{
    assert(tokens_model(v.push(t)) =~= tokens_model(v).push(t@));
}

/// The bookkeeping of one token: the tokens so far and those of the rest of
/// the line still add up to the tokens of the whole line.
proof fn lemma_emit(
    total: Seq<TokenModel>,
    v: Seq<Token>,
    t: Token,
    before: Seq<char>,
    after: Seq<char>,
)
    requires
        total == tokens_model(v) + lex(before),
        lex(before) == seq![t@] + lex(after),
    ensures
        total == tokens_model(v.push(t)) + lex(after),
{
    lemma_push_token(v, t);
    assert(tokens_model(v) + (seq![t@] + lex(after)) =~= tokens_model(v).push(t@) + lex(after));
}

/// Converts a line of input into tokens, which are appended to `tokens`.
pub fn tokenize(input: &String, tokens: &mut Vec<Token>)
    ensures
        tokens_model(final(tokens)@) == tokens_model(old(tokens)@) + lex(input@),
{
    let mut input_iter = CharStream::new(input);
    let ghost total = tokens_model(tokens@) + lex(input@);
    loop
        invariant
            total == tokens_model(tokens@) + lex(input_iter@),
        ensures
            total == tokens_model(tokens@),
        decreases input_iter@.len(),
    {
        let ghost before = input_iter@;
        let ghost v = tokens@;
        let next = input_iter.next();
        if next.is_none() {
            assert(tokens_model(tokens@) + lex(input_iter@) =~= tokens_model(tokens@));
            break;
        }
        let c = next.unwrap();
        let ghost r = input_iter@;
        assert(r == before.drop_first());
        if c == ';' {
            let t = Token::Operator(Op::Semicolon);
            proof { lemma_emit(total, v, t, before, r); }
            tokens.push(t);
        } else if c == '<' {
            let t = Token::Operator(Op::RedirectLeft);
            proof { lemma_emit(total, v, t, before, r); }
            tokens.push(t);
        } else if c == '>' {
            let t = Token::Operator(Op::RedirectRight);
            proof { lemma_emit(total, v, t, before, r); }
            tokens.push(t);
        } else if c == '&' {
            let next = match input_iter.peek() {
                Some(p) => p,
                None => ' ',
            };
            if next == '&' {
                let t = Token::Operator(Op::And);
                input_iter.next();
                proof { lemma_emit(total, v, t, before, r.drop_first()); }
                tokens.push(t);
            } else {
                let t = Token::Operator(Op::Background);
                proof { lemma_emit(total, v, t, before, r); }
                tokens.push(t);
            }
        } else if c == '|' {
            let next = match input_iter.peek() {
                Some(p) => p,
                None => ' ',
            };
            if next == '|' {
                let t = Token::Operator(Op::Or);
                input_iter.next();
                proof { lemma_emit(total, v, t, before, r.drop_first()); }
                tokens.push(t);
            } else {
                let t = Token::Operator(Op::Pipe);
                proof { lemma_emit(total, v, t, before, r); }
                tokens.push(t);
            }
        } else if c == '\'' {
            let mut s = String::new();
            push_char(&mut s, c);
            let pred = |x: char| -> (b: bool)
                ensures
                    b == (x != '\''),
                { x != '\'' };
            keep_while(&mut s, pred, &mut input_iter);
            let ghost n = taken(r, input_iter@);
            proof {
                lemma_kept_quoted(pred, r, '\'', n);
                assert(s@ =~= seq![c] + r.take(n as int));
            }
            let t = Token::Input(s);
            proof { lemma_emit(total, v, t, before, input_iter@); }
            tokens.push(t);
        } else if c == '"' {
            let mut s = String::new();
            push_char(&mut s, c);
            let pred = |x: char| -> (b: bool)
                ensures
                    b == (x != '"'),
                { x != '"' };
            keep_while(&mut s, pred, &mut input_iter);
            let ghost n = taken(r, input_iter@);
            proof {
                lemma_kept_quoted(pred, r, '"', n);
                assert(s@ =~= seq![c] + r.take(n as int));
            }
            let t = Token::Input(s);
            proof { lemma_emit(total, v, t, before, input_iter@); }
            tokens.push(t);
        } else if c == '(' {
            let mut s = String::new();
            push_char(&mut s, c);
            read_until_close_paren(&mut s, &mut input_iter);
            proof {
                lemma_paren_len_bound(r, paren_start());
                assert(s@ =~= seq![c] + r.take(paren_len(r, paren_start()) as int));
            }
            let t = Token::Input(s);
            proof { lemma_emit(total, v, t, before, input_iter@); }
            tokens.push(t);
        } else if !is_whitespace(c) {
            let mut s = String::new();
            push_char(&mut s, c);
            let closure = |x: char| -> (b: bool)
                ensures
                    b == is_word_char(x),
                {
                    x != '<' && x != '>' && x != '|' && x != '&' && x != ';' && !is_whitespace(x)
                        && x != '\'' && x != '"'
                };
            keep_while_ex(&mut s, closure, &mut input_iter);
            let ghost n = taken(r, input_iter@);
            proof {
                lemma_kept_word(closure, r, n);
                assert(s@ =~= seq![c] + r.take(n as int));
            }
            let t = Token::Input(s);
            proof { lemma_emit(total, v, t, before, input_iter@); }
            tokens.push(t);
        } else {
            assert(lex(before) == lex(r));
        }
    }
}

/// `t` is `s` with some of its whitespace characters left out.
pub open spec fn drops_only_whitespace(t: Seq<char>, s: Seq<char>) -> bool
    decreases s.len(),
{
    if s.len() == 0 {
        t.len() == 0
    } else {
        ||| t.len() > 0 && t[0] == s[0] && drops_only_whitespace(t.drop_first(), s.drop_first())
        ||| char_is_whitespace(s[0]) && drops_only_whitespace(t, s.drop_first())
    }
}

proof fn lemma_drops_prefix(p: Seq<char>, t: Seq<char>, s: Seq<char>)
    requires
        drops_only_whitespace(t, s),
    ensures
        drops_only_whitespace(p + t, p + s),
    decreases p.len(),
{
    if p.len() > 0 {
        lemma_drops_prefix(p.drop_first(), t, s);
        assert((p + t).drop_first() =~= p.drop_first() + t);
        assert((p + s).drop_first() =~= p.drop_first() + s);
    }
}

/// Leaving characters out makes nothing longer.
pub proof fn lemma_drops_len(t: Seq<char>, s: Seq<char>)
    requires
        drops_only_whitespace(t, s),
    ensures
        t.len() <= s.len(),
    decreases s.len(),
{
    if s.len() > 0 {
        if t.len() > 0 && t[0] == s[0] && drops_only_whitespace(t.drop_first(), s.drop_first()) {
            lemma_drops_len(t.drop_first(), s.drop_first());
        } else {
            lemma_drops_len(t, s.drop_first());
        }
    }
}

/// One step of the text law: a token written with the first characters of
/// `s`, followed by the tokens of the rest.
proof fn lemma_text_step(s: Seq<char>, k: nat, tok: TokenModel)
    requires
        1 <= k <= s.len(),
        token_text(tok) == s.take(k as int),
        drops_only_whitespace(tokens_text(lex(s.skip(k as int))), s.skip(k as int)),
        lex(s) == seq![tok] + lex(s.skip(k as int)),
    ensures
        drops_only_whitespace(tokens_text(lex(s)), s),
{
    let rest = lex(s.skip(k as int));
    lemma_tokens_text_append(seq![tok], rest);
    assert(tokens_text(seq![tok]) =~= token_text(tok)) by {
        assert(seq![tok].drop_first() =~= Seq::<TokenModel>::empty());
        assert(tokens_text(seq![tok].drop_first()) =~= Seq::<char>::empty());
        assert(seq![tok][0] == tok);
    }
    lemma_drops_prefix(s.take(k as int), tokens_text(rest), s.skip(k as int));
    assert(s.take(k as int) + s.skip(k as int) =~= s);
}

/// Tokenizing loses nothing but whitespace: the tokens, written one after
/// the other, give back the line with some of its whitespace left out.
pub proof fn lemma_lex_loses_only_whitespace(s: Seq<char>)
    ensures
        drops_only_whitespace(tokens_text(lex(s)), s),
    decreases s.len(),
{
    if s.len() == 0 {
        assert(tokens_text(lex(s)) =~= Seq::<char>::empty());
    } else {
        let c = s[0];
        let r = s.drop_first();
        assert(s.skip(1) =~= r);
        if c == ';' || c == '<' || c == '>' {
            lemma_lex_loses_only_whitespace(r);
            let op = if c == ';' { Op::Semicolon } else if c == '<' { Op::RedirectLeft } else { Op::RedirectRight };
            assert(op_symbol(op) =~= s.take(1));
            lemma_text_step(s, 1, TokenModel::Operator(op));
        } else if (c == '&' || c == '|') && r.len() > 0 && r[0] == c {
            assert(s.skip(2) =~= r.drop_first());
            lemma_lex_loses_only_whitespace(r.drop_first());
            let op = if c == '&' { Op::And } else { Op::Or };
            assert(op_symbol(op) =~= s.take(2));
            lemma_text_step(s, 2, TokenModel::Operator(op));
        } else if c == '&' || c == '|' {
            lemma_lex_loses_only_whitespace(r);
            let op = if c == '&' { Op::Background } else { Op::Pipe };
            assert(op_symbol(op) =~= s.take(1));
            lemma_text_step(s, 1, TokenModel::Operator(op));
        } else if c == '\'' || c == '"' || c == '(' || !char_is_whitespace(c) {
            let n = if c == '\'' || c == '"' {
                lemma_quoted_len_bound(r, c);
                quoted_len(r, c)
            } else if c == '(' {
                lemma_paren_len_bound(r, paren_start());
                paren_len(r, paren_start())
            } else {
                lemma_word_len_bound(r);
                word_len(r)
            };
            assert(s.skip(n + 1int) =~= r.skip(n as int));
            lemma_lex_loses_only_whitespace(r.skip(n as int));
            assert(token_text(input_token(c, r, n)) =~= s.take(n + 1int));
            lemma_text_step(s, n + 1, input_token(c, r, n));
        } else {
            lemma_lex_loses_only_whitespace(r);
        }
    }
}

/// Every word that tokenizing gives has at least one character.
pub proof fn lemma_lex_words_nonempty(s: Seq<char>)
    ensures
        forall|i: int|
            0 <= i < lex(s).len() ==> (#[trigger] lex(s)[i] matches TokenModel::Input(x) ==> x.len() > 0),
    decreases s.len(),
{
    if s.len() > 0 {
        let c = s[0];
        let r = s.drop_first();
        let rest = if c == ';' || c == '<' || c == '>' {
            r
        } else if (c == '&' || c == '|') && r.len() > 0 && r[0] == c {
            r.drop_first()
        } else if c == '&' || c == '|' {
            r
        } else if c == '\'' || c == '"' {
            lemma_quoted_len_bound(r, c);
            r.skip(quoted_len(r, c) as int)
        } else if c == '(' {
            lemma_paren_len_bound(r, paren_start());
            r.skip(paren_len(r, paren_start()) as int)
        } else if !char_is_whitespace(c) {
            lemma_word_len_bound(r);
            r.skip(word_len(r) as int)
        } else {
            r
        };
        lemma_lex_words_nonempty(rest);
        assert forall|i: int| 0 <= i < lex(s).len() implies (#[trigger] lex(s)[i] matches TokenModel::Input(
            x,
        ) ==> x.len() > 0) by {
            if lex(s).len() > lex(rest).len() && i > 0 {
                assert(lex(s)[i] == lex(rest)[i - 1]);
            } else if lex(s).len() == lex(rest).len() {
                assert(lex(s)[i] == lex(rest)[i]);
            }
        }
    }
}

/// The scan of a group from state `st` reaches its closing parenthesis
/// within `r`.
pub open spec fn paren_closes(r: Seq<char>, st: ParenScan) -> bool
    decreases r.len(),
{
    if r.len() == 0 {
        false
    } else if paren_step(st, r[0]).opened == paren_step(st, r[0]).closed {
        true
    } else {
        paren_closes(r.drop_first(), paren_step(st, r[0]))
    }
}

/// Every quote and every group that a token of `s` opens is closed within
/// `s`.
pub open spec fn lex_closes(s: Seq<char>) -> bool
    decreases s.len(),
{
    if s.len() == 0 {
        true
    } else {
        let c = s[0];
        let r = s.drop_first();
        if c == ';' || c == '<' || c == '>' {
            lex_closes(r)
        } else if (c == '&' || c == '|') && r.len() > 0 && r[0] == c {
            lex_closes(r.drop_first())
        } else if c == '&' || c == '|' {
            lex_closes(r)
        } else if c == '\'' || c == '"' {
            proof {
                lemma_quoted_len_bound(r, c);
            }
            let n = quoted_len(r, c);
            n > 0 && r[n - 1] == c && lex_closes(r.skip(n as int))
        } else if c == '(' {
            proof {
                lemma_paren_len_bound(r, paren_start());
            }
            paren_closes(r, paren_start()) && lex_closes(r.skip(paren_len(r, paren_start()) as int))
        } else if !char_is_whitespace(c) {
            proof {
                lemma_word_len_bound(r);
            }
            lex_closes(r.skip(word_len(r) as int))
        } else {
            lex_closes(r)
        }
    }
}

/// What follows a line `t` that starts with whitespace, or is empty.
pub open spec fn starts_apart(t: Seq<char>) -> bool {
    t.len() == 0 || char_is_whitespace(t[0])
}

proof fn lemma_quoted_len_append(r: Seq<char>, t: Seq<char>, q: char)
    requires
        quoted_len(r, q) > 0,
        r[quoted_len(r, q) - 1] == q,
    ensures
        quoted_len(r + t, q) == quoted_len(r, q),
    decreases r.len(),
{
    assert((r + t)[0] == r[0]);
    if r[0] != q {
        assert((r + t).drop_first() =~= r.drop_first() + t);
        lemma_quoted_len_bound(r.drop_first(), q);
        assert(r.drop_first()[quoted_len(r.drop_first(), q) - 1] == r[quoted_len(r, q) - 1]);
        lemma_quoted_len_append(r.drop_first(), t, q);
    }
}

proof fn lemma_paren_len_append(r: Seq<char>, t: Seq<char>, st: ParenScan)
    requires
        paren_closes(r, st),
    ensures
        paren_len(r + t, st) == paren_len(r, st),
    decreases r.len(),
{
    assert((r + t)[0] == r[0]);
    if paren_step(st, r[0]).opened != paren_step(st, r[0]).closed {
        assert((r + t).drop_first() =~= r.drop_first() + t);
        lemma_paren_len_append(r.drop_first(), t, paren_step(st, r[0]));
    }
}

proof fn lemma_word_len_append(r: Seq<char>, t: Seq<char>)
    requires
        starts_apart(t),
    ensures
        word_len(r + t) == word_len(r),
    decreases r.len(),
{
    if r.len() == 0 {
        assert(r + t =~= t);
    } else {
        assert((r + t)[0] == r[0]);
        assert((r + t).drop_first() =~= r.drop_first() + t);
        lemma_word_len_append(r.drop_first(), t);
    }
}

/// A token of `first` and what a scan took of `r` is the same when more
/// follows `r`.
proof fn lemma_token_append(
    a: Seq<char>,
    t: Seq<char>,
    n: nat,
    tok: TokenModel,
    rest: Seq<char>,
)
    requires
        a.len() > 0,
        n <= a.len() - 1,
        lex(a) == seq![tok] + lex(a.skip(n + 1int)),
        lex(a + t) == seq![tok] + lex((a + t).skip(n + 1int)),
        rest == a.skip(n + 1int),
        lex(rest + t) == lex(rest) + lex(t),
    ensures
        lex(a + t) == lex(a) + lex(t),
{
    assert((a + t).skip(n + 1int) =~= rest + t);
    assert(seq![tok] + (lex(rest) + lex(t)) =~= seq![tok] + lex(rest) + lex(t));
}

/// Tokenizing a line whose quotes and groups are all closed, followed by
/// more that starts with whitespace, gives the tokens of each, one after the
/// other.
pub proof fn lemma_lex_append(a: Seq<char>, t: Seq<char>)
    requires
        lex_closes(a),
        starts_apart(t),
    ensures
        lex(a + t) == lex(a) + lex(t),
    decreases a.len(),
{
    if a.len() == 0 {
        assert(a + t =~= t);
        assert(lex(a) + lex(t) =~= lex(t));
    } else {
        let c = a[0];
        let r = a.drop_first();
        let at = a + t;
        assert(at[0] == c);
        assert(at.drop_first() =~= r + t);
        assert(a.skip(1) =~= r);
        if c == ';' || c == '<' || c == '>' {
            lemma_lex_append(r, t);
            let tok = lex(a)[0];
            lemma_token_append(a, t, 0, tok, r);
        } else if (c == '&' || c == '|') && r.len() > 0 && r[0] == c {
            assert((r + t)[0] == r[0]);
            assert((r + t).drop_first() =~= r.drop_first() + t);
            assert(a.skip(2) =~= r.drop_first());
            assert(at.skip(2) =~= (r + t).drop_first());
            lemma_lex_append(r.drop_first(), t);
            let tok = lex(a)[0];
            lemma_token_append(a, t, 1, tok, r.drop_first());
        } else if c == '&' || c == '|' {
            if r.len() == 0 {
                assert(r + t =~= t);
            } else {
                assert((r + t)[0] == r[0]);
            }
            lemma_lex_append(r, t);
            let tok = lex(a)[0];
            lemma_token_append(a, t, 0, tok, r);
        } else if c == '\'' || c == '"' || c == '(' || !char_is_whitespace(c) {
            let n = if c == '\'' || c == '"' {
                lemma_quoted_len_bound(r, c);
                lemma_quoted_len_append(r, t, c);
                quoted_len(r, c)
            } else if c == '(' {
                lemma_paren_len_bound(r, paren_start());
                lemma_paren_len_append(r, t, paren_start());
                paren_len(r, paren_start())
            } else {
                lemma_word_len_bound(r);
                lemma_word_len_append(r, t);
                word_len(r)
            };
            assert((r + t).take(n as int) =~= r.take(n as int));
            assert(a.skip(n + 1int) =~= r.skip(n as int));
            assert(at.skip(n + 1int) =~= (r + t).skip(n as int));
            lemma_lex_append(r.skip(n as int), t);
            lemma_token_append(a, t, n, input_token(c, r, n), r.skip(n as int));
        } else {
            lemma_lex_append(r, t);
        }
    }
}

/// Two lines joined by a whitespace character give the tokens of the first,
/// then those of the second, when the first closes every quote and group it
/// opens: tokenizing them one after the other into one vector gives what
/// tokenizing the joined line gives.
pub proof fn lemma_lex_join(a: Seq<char>, w: char, b: Seq<char>)
    requires
        lex_closes(a),
        char_is_whitespace(w),
    ensures
        lex(a + seq![w] + b) == lex(a) + lex(b),
{
    let t = seq![w] + b;
    assert(a + seq![w] + b =~= a + t);
    assert(t.drop_first() =~= b);
    lemma_lex_append(a, t);
}

/// A character that a plain word may hold anywhere: not whitespace, not an
/// operator character (`;`, `<`, `>`, `&`, `|`), not a quote and not `(`.
pub open spec fn plain_char(x: char) -> bool {
    &&& x != ';'
    &&& x != '<'
    &&& x != '>'
    &&& x != '&'
    &&& x != '|'
    &&& x != '\''
    &&& x != '"'
    &&& x != '('
    &&& !char_is_whitespace(x)
}

/// A non-empty word made of plain characters.
pub open spec fn plain_word(w: Seq<char>) -> bool {
    w.len() > 0 && forall|i: int| 0 <= i < w.len() ==> plain_char(#[trigger] w[i])
}

/// A plain word followed by something that cannot continue it is one token.
proof fn lemma_lex_word_then(w: Seq<char>, t: Seq<char>)
    requires
        plain_word(w),
        t.len() == 0 || !is_word_char(t[0]),
    ensures
        lex(w + t) == seq![TokenModel::Input(w)] + lex(t),
{
    let s = w + t;
    let c = w[0];
    assert(plain_char(w[0]));
    assert(s[0] == c);
    let r = s.drop_first();
    assert(r =~= w.drop_first() + t);
    let k = (w.len() - 1) as nat;
    assert forall|i: int| 0 <= i < k implies is_word_char(r[i]) by {
        assert(r[i] == w[i + 1]);
        assert(plain_char(w[i + 1]));
    }
    if k < r.len() {
        assert(r[k as int] == t[0]);
    }
    lemma_word_len_unique(r, k);
    assert(seq![c] + r.take(k as int) =~= w);
    assert(r.skip(k as int) =~= t);
}

/// An operator character between two plain words ends the first one: the
/// line is the first word, the operator, and the second word. No word ever
/// takes in `;`, `<`, `>`, `&` or `|`.
pub proof fn lemma_operator_splits_words(w1: Seq<char>, o: char, w2: Seq<char>)
    requires
        plain_word(w1),
        plain_word(w2),
        o == ';' || o == '<' || o == '>' || o == '&' || o == '|',
    ensures
        lex(w1 + seq![o] + w2) == seq![
            TokenModel::Input(w1),
            TokenModel::Operator(
                if o == ';' {
                    Op::Semicolon
                } else if o == '<' {
                    Op::RedirectLeft
                } else if o == '>' {
                    Op::RedirectRight
                } else if o == '&' {
                    Op::Background
                } else {
                    Op::Pipe
                },
            ),
            TokenModel::Input(w2),
        ],
{
    let t = seq![o] + w2;
    assert(w1 + seq![o] + w2 =~= w1 + t);
    assert(t[0] == o);
    lemma_lex_word_then(w1, t);
    assert(t.drop_first() =~= w2);
    assert(plain_char(w2[0]));
    lemma_lex_word_then(w2, Seq::empty());
    assert(w2 + Seq::<char>::empty() =~= w2);
    assert(lex(Seq::<char>::empty()) =~= Seq::<TokenModel>::empty());
    assert(seq![TokenModel::Input(w2)] + Seq::<TokenModel>::empty() =~= seq![TokenModel::Input(w2)]);
}

/// `&&` and `||` between two plain words are one operator each.
pub proof fn lemma_double_operator_splits_words(w1: Seq<char>, o: char, w2: Seq<char>)
    requires
        plain_word(w1),
        plain_word(w2),
        o == '&' || o == '|',
    ensures
        lex(w1 + seq![o, o] + w2) == seq![
            TokenModel::Input(w1),
            TokenModel::Operator(if o == '&' { Op::And } else { Op::Or }),
            TokenModel::Input(w2),
        ],
{
    let t = seq![o, o] + w2;
    assert(w1 + seq![o, o] + w2 =~= w1 + t);
    assert(t[0] == o);
    lemma_lex_word_then(w1, t);
    assert(t.drop_first()[0] == o);
    assert(t.drop_first().drop_first() =~= w2);
    lemma_lex_word_then(w2, Seq::empty());
    assert(w2 + Seq::<char>::empty() =~= w2);
    assert(lex(Seq::<char>::empty()) =~= Seq::<TokenModel>::empty());
    assert(seq![TokenModel::Input(w2)] + Seq::<TokenModel>::empty() =~= seq![TokenModel::Input(w2)]);
}

/// Whitespace between two plain words separates them.
pub proof fn lemma_whitespace_splits_words(w1: Seq<char>, c: char, w2: Seq<char>)
    requires
        plain_word(w1),
        plain_word(w2),
        char_is_whitespace(c),
    ensures
        lex(w1 + seq![c] + w2) == seq![TokenModel::Input(w1), TokenModel::Input(w2)],
{
    let t = seq![c] + w2;
    assert(w1 + seq![c] + w2 =~= w1 + t);
    assert(t[0] == c);
    lemma_lex_word_then(w1, t);
    assert(t.drop_first() =~= w2);
    lemma_lex_word_then(w2, Seq::empty());
    assert(w2 + Seq::<char>::empty() =~= w2);
    assert(lex(Seq::<char>::empty()) =~= Seq::<TokenModel>::empty());
}

proof fn lemma_quoted_len_to(y: Seq<char>, q: char, rest: Seq<char>)
    requires
        forall|i: int| 0 <= i < y.len() ==> #[trigger] y[i] != q,
    ensures
        quoted_len(y + rest, q) == y.len() + quoted_len(rest, q),
    decreases y.len(),
{
    if y.len() > 0 {
        assert((y + rest)[0] == y[0]);
        assert((y + rest).drop_first() =~= y.drop_first() + rest);
        assert forall|i: int| 0 <= i < y.drop_first().len() implies #[trigger] y.drop_first()[i] != q by {
            assert(y.drop_first()[i] == y[i + 1]);
        }
        lemma_quoted_len_to(y.drop_first(), q, rest);
    } else {
        assert(y + rest =~= rest);
    }
}

/// A quoted string runs to its closing quote, whatever it holds before it
/// (whitespace, operators, parentheses, the other quote): it is one token
/// with its quotes. Without a closing quote it runs to the end of the line.
pub proof fn lemma_quoted_string(q: char, y: Seq<char>, t: Seq<char>)
    requires
        q == '\'' || q == '"',
        forall|i: int| 0 <= i < y.len() ==> #[trigger] y[i] != q,
    ensures
        lex(seq![q] + y + seq![q] + t) == seq![TokenModel::Input(seq![q] + y + seq![q])] + lex(t),
        lex(seq![q] + y) == seq![TokenModel::Input(seq![q] + y)],
{
    let s = seq![q] + y + seq![q] + t;
    let r = y + (seq![q] + t);
    assert(s[0] == q);
    assert(s.drop_first() =~= r);
    lemma_quoted_len_to(y, q, seq![q] + t);
    assert((seq![q] + t)[0] == q);
    let n = y.len() + 1;
    assert(quoted_len(r, q) == n);
    assert(seq![q] + r.take(n as int) =~= seq![q] + y + seq![q]);
    assert(r.skip(n as int) =~= t);
    let s2 = seq![q] + y;
    assert(s2[0] == q);
    assert(s2.drop_first() =~= y + Seq::<char>::empty());
    lemma_quoted_len_to(y, q, Seq::empty());
    assert(quoted_len(Seq::<char>::empty(), q) == 0);
    assert((y + Seq::<char>::empty()).take(y.len() as int) =~= y);
    assert((y + Seq::<char>::empty()).skip(y.len() as int) =~= Seq::<char>::empty());
    assert(lex(Seq::<char>::empty()) =~= Seq::<TokenModel>::empty());
    assert(seq![TokenModel::Input(seq![q] + y)] + Seq::<TokenModel>::empty() =~= seq![TokenModel::Input(seq![q] + y)]);
}

/// A character that neither opens nor closes anything in a group.
pub open spec fn inert_char(x: char) -> bool {
    x != '(' && x != ')' && x != '\'' && x != '"'
}

proof fn lemma_paren_len_skip(u: Seq<char>, rest: Seq<char>, st: ParenScan)
    requires
        st.opened != st.closed,
        forall|i: int| 0 <= i < u.len() ==> paren_step(st, #[trigger] u[i]) == st,
    ensures
        paren_len(u + rest, st) == u.len() + paren_len(rest, st),
    decreases u.len(),
{
    if u.len() > 0 {
        assert((u + rest)[0] == u[0]);
        assert((u + rest).drop_first() =~= u.drop_first() + rest);
        assert forall|i: int| 0 <= i < u.drop_first().len() implies paren_step(st, #[trigger] u.drop_first()[i]) == st by {
            assert(u.drop_first()[i] == u[i + 1]);
        }
        lemma_paren_len_skip(u.drop_first(), rest, st);
    } else {
        assert(u + rest =~= rest);
    }
}

/// Parentheses between quotes do not count in a group: a group whose inside
/// holds a quoted part (with no quote in it), between parts that hold no
/// parenthesis or quote, closes at the `)` after the quoted part and is one
/// token, whatever parentheses the quoted part holds.
pub proof fn lemma_group_skips_quoted_parens(
    x: Seq<char>,
    q: char,
    y: Seq<char>,
    z: Seq<char>,
    t: Seq<char>,
)
    requires
        q == '\'' || q == '"',
        forall|i: int| 0 <= i < x.len() ==> inert_char(#[trigger] x[i]),
        forall|i: int| 0 <= i < y.len() ==> #[trigger] y[i] != '\'' && y[i] != '"',
        forall|i: int| 0 <= i < z.len() ==> inert_char(#[trigger] z[i]),
    ensures
        ({
            let g = seq!['('] + x + seq![q] + y + seq![q] + z + seq![')'];
            lex(g + t) == seq![TokenModel::Input(g)] + lex(t)
        }),
{
    let g = seq!['('] + x + seq![q] + y + seq![q] + z + seq![')'];
    let s = g + t;
    let st0 = paren_start();
    let st1 = paren_step(st0, q);
    assert(st1.opened == 1 && st1.closed == 0 && (st1.in_single || st1.in_double));
    assert(st1.in_single == (q == '\'') && st1.in_double == (q == '"'));
    assert(paren_step(st1, q) == st0);
    let tail = seq![')'] + t;
    let r4 = z + tail;
    let r3 = seq![q] + r4;
    let r2 = y + r3;
    let r1 = seq![q] + r2;
    let r = x + r1;
    assert(s[0] == '(');
    assert(s.drop_first() =~= r);
    // ) closes
    assert(tail[0] == ')');
    assert(paren_step(st0, ')').closed == 1);
    assert(paren_len(tail, st0) == 1);
    lemma_paren_len_skip(z, tail, st0);
    assert(r3[0] == q);
    assert(r3.drop_first() =~= r4);
    assert(paren_len(r3, st1) == 1 + paren_len(r4, st0));
    lemma_paren_len_skip(y, r3, st1);
    assert(r1[0] == q);
    assert(r1.drop_first() =~= r2);
    assert(paren_len(r1, st0) == 1 + paren_len(r2, st1));
    lemma_paren_len_skip(x, r1, st0);
    let n = paren_len(r, st0);
    assert(n == x.len() + y.len() + z.len() + 3);
    assert(seq!['('] + r.take(n as int) =~= g);
    assert(r.skip(n as int) =~= t);
}

/// The tokens of a line are written with no more characters than the line.
pub proof fn lemma_lex_text_len(s: Seq<char>)
    ensures
        tokens_text(lex(s)).len() <= s.len(),
{
    lemma_lex_loses_only_whitespace(s);
    lemma_drops_len(tokens_text(lex(s)), s);
}

} // verus!
