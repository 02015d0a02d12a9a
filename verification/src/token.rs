//! Tokens, their mathematical model and their precedence ranks.

use vstd::prelude::*;
use crate::numeral::Decimal;

verus! {

/// The model of a token: what the contracts speak of.
pub enum SpecToken {
    /// A numeral, by its characters.
    Number(Seq<char>),
    /// `+`
    Plus,
    /// `-`
    Minus,
    /// `*`
    Star,
    /// `/`
    Slash,
    /// `^`
    Caret,
    /// A bracket group, by the tokens between its brackets.
    Group(Seq<SpecToken>),
}

/// A lexical unit: a numeral, an operator, or a bracket group that owns the
/// tokens written between its brackets.
#[derive(Debug, PartialEq, Eq)]
pub enum Token {
    Number(Decimal),
    Plus,
    Minus,
    Star,
    Slash,
    Caret,
    Group(Vec<Token>),
}

/// The models of a sequence of tokens, in order.
pub open spec fn view_tokens(tokens: Seq<Token>) -> Seq<SpecToken>
    decreases tokens,
{
    Seq::new(
        tokens.len(),
        |i: int|
            if 0 <= i < tokens.len() {
                tokens[i]@
            } else {
                SpecToken::Plus
            },
    )
}

impl View for Token {
    type V = SpecToken;

    open spec fn view(&self) -> SpecToken
        decreases self,
    {
        match self {
            Token::Number(d) => SpecToken::Number(d@),
            Token::Plus => SpecToken::Plus,
            Token::Minus => SpecToken::Minus,
            Token::Star => SpecToken::Star,
            Token::Slash => SpecToken::Slash,
            Token::Caret => SpecToken::Caret,
            Token::Group(inner) => SpecToken::Group(view_tokens(inner@)),
        }
    }
}

/// The precedence rank of a token. The parser splits a sequence at a token of
/// the greatest rank in it, so a greater rank binds more loosely: `+` and `-`
/// share the greatest, then `*` and `/`, then `^`; a group and a numeral are
/// operands and rank below every operator.
pub open spec fn rank(t: SpecToken) -> nat {
    match t {
        SpecToken::Plus | SpecToken::Minus => 4,
        SpecToken::Star | SpecToken::Slash => 3,
        SpecToken::Caret => 2,
        SpecToken::Group(_) => 1,
        SpecToken::Number(_) => 0,
    }
}

/// The precedence rank of `token`.
pub fn priority(token: &Token) -> (r: u8)
    ensures
        r == rank(token@),
{
    match token {
        Token::Plus => 4,
        Token::Minus => 4,
        Token::Slash => 3,
        Token::Star => 3,
        Token::Caret => 2,
        Token::Group(_) => 1,
        Token::Number(_) => 0,
    }
}

impl Clone for Token {
    fn clone(&self) -> (r: Self)
        ensures
            r@ == self@,
        decreases self,
    {
        match self {
            Token::Number(d) => Token::Number(d.clone()),
            Token::Plus => Token::Plus,
            Token::Minus => Token::Minus,
            Token::Star => Token::Star,
            Token::Slash => Token::Slash,
            Token::Caret => Token::Caret,
            Token::Group(inner) => Token::Group(clone_tokens(inner.as_slice())),
        }
    }
}

/// A copy of `tokens`, token by token.
fn clone_tokens(tokens: &[Token]) -> (r: Vec<Token>)
    ensures
        view_tokens(r@) == view_tokens(tokens@),
    decreases tokens@,
{
    let mut out: Vec<Token> = Vec::new();
    let mut i: usize = 0;
    while i < tokens.len()
        invariant
            i <= tokens.len(),
            out@.len() == i,
            forall|j: int| 0 <= j < i ==> out@[j]@ == tokens@[j]@,
        decreases tokens.len() - i,
    {
        out.push(tokens[i].clone());
        i = i + 1;
    }
    assert(view_tokens(out@) =~= view_tokens(tokens@));
    out
}

} // verus!
