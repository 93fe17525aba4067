//! Tokens and operators of the shell language.
use vstd::prelude::*;

verus! {

/// The operators of the shell language.
#[derive(Debug, PartialEq, Eq, Clone, Copy, Structural)]
pub enum Op {
    Semicolon,
    Pipe,
    RedirectLeft,
    RedirectRight,
    Or,
    And,
    Background,
    Append,
}

/// Tokens are the individual pieces that make up a shell command.
///
/// An operator is one of `;`, `|`, `>`, `<`, `||`, `&&`, `&`. An input is a
/// word (a program name, an argument or a file name), a quoted string with its
/// quotes, or a parenthesised group with its parentheses.
#[derive(Debug, Clone)]
pub enum Token {
    Operator(Op),
    Input(String),
}

/// What a token stands for: an operator, or the characters of an input.
pub enum TokenModel {
    Operator(Op),
    Input(Seq<char>),
}

impl View for Token {
    type V = TokenModel;

    open spec fn view(&self) -> TokenModel {
        match self {
            Token::Operator(op) => TokenModel::Operator(*op),
            Token::Input(s) => TokenModel::Input(s@),
        }
    }
}

impl PartialEq for Token {
    fn eq(&self, other: &Self) -> (r: bool) {
        match (self, other) {
            (Token::Operator(a), Token::Operator(b)) => {
                let r = *a == *b;
                assert(r == (a == b));
                r
            },
            (Token::Input(a), Token::Input(b)) => {
                let r = *a == *b;
                assert(r == (a@ == b@));
                r
            },
            _ => false,
        }
    }
}

impl vstd::std_specs::cmp::PartialEqSpecImpl for Token {
    open spec fn obeys_eq_spec() -> bool {
        true
    }

    open spec fn eq_spec(&self, other: &Self) -> bool {
        self@ == other@
    }
}

/// The models of a sequence of tokens.
pub open spec fn tokens_model(toks: Seq<Token>) -> Seq<TokenModel> {
    toks.map_values(|t: Token| t@)
}


/// The characters an operator is written with.
pub open spec fn op_symbol(op: Op) -> Seq<char> {
    match op {
        Op::Semicolon => seq![';'],
        Op::Pipe => seq!['|'],
        Op::RedirectLeft => seq!['<'],
        Op::RedirectRight => seq!['>'],
        Op::Or => seq!['|', '|'],
        Op::And => seq!['&', '&'],
        Op::Background => seq!['&'],
        Op::Append => seq!['>', '>'],
    }
}

/// The characters a token is written with.
pub open spec fn token_text(t: TokenModel) -> Seq<char> {
    match t {
        TokenModel::Operator(op) => op_symbol(op),
        TokenModel::Input(x) => x,
    }
}

/// The characters of a sequence of tokens, one after the other.
pub open spec fn tokens_text(ts: Seq<TokenModel>) -> Seq<char>
    decreases ts.len(),
{
    if ts.len() == 0 {
        seq![]
    } else {
        token_text(ts[0]) + tokens_text(ts.drop_first())
    }
}

pub proof fn lemma_tokens_text_append(a: Seq<TokenModel>, b: Seq<TokenModel>)
    ensures
        tokens_text(a + b) == tokens_text(a) + tokens_text(b),
    decreases a.len(),
{
    if a.len() == 0 {
        assert(a + b =~= b);
        assert(tokens_text(a) + tokens_text(b) =~= tokens_text(b));
    } else {
        assert((a + b).drop_first() =~= a.drop_first() + b);
        lemma_tokens_text_append(a.drop_first(), b);
        assert((a + b)[0] == a[0]);
        assert(tokens_text(a + b) =~= tokens_text(a) + tokens_text(b));
    }
}

} // verus!
