//! The way back: a tree flattened to tokens, and tokens written as text.

use vstd::prelude::*;
use vstd::string::StringExecFns;
use crate::token::{view_tokens, SpecToken, Token};
use crate::tree::{operator_of, BinaryKind, ExpressionNode, SpecNode};

verus! {

/// The tokens of a tree, in infix order: a literal is its numeral, an
/// operation is the tokens of its left side, its operator and the tokens of
/// its right side, and a grouped node is one `Group` token around the tokens
/// of what it holds. No bracket is added that the tree does not carry.
pub open spec fn spec_deparse(node: SpecNode) -> Seq<SpecToken>
    decreases node,
{
    match node {
        SpecNode::Literal(d) => seq![SpecToken::Number(d)],
        SpecNode::BinaryOp(kind, left, right) => spec_deparse(*left).push(operator_of(kind))
            + spec_deparse(*right),
        SpecNode::Grouped(inner) => seq![SpecToken::Group(spec_deparse(*inner))],
    }
}

/// The text of one token: a numeral is written as it is held, an operator is
/// its character, and a group is the text of its content between `(` and `)`.
pub open spec fn token_text(token: SpecToken) -> Seq<char>
    decreases token,
{
    match token {
        SpecToken::Number(d) => d,
        SpecToken::Plus => seq!['+'],
        SpecToken::Minus => seq!['-'],
        SpecToken::Star => seq!['*'],
        SpecToken::Slash => seq!['/'],
        SpecToken::Caret => seq!['^'],
        SpecToken::Group(inner) => seq!['('] + spec_delex(inner) + seq![')'],
    }
}

/// The text of a token sequence: the texts of its tokens, one after another.
pub open spec fn spec_delex(tokens: Seq<SpecToken>) -> Seq<char>
    decreases tokens,
{
    if tokens.len() == 0 {
        Seq::empty()
    } else {
        spec_delex(tokens.drop_last()) + token_text(tokens.last())
    }
}

/// The text of a tree: the text of its tokens.
pub open spec fn spec_render(node: SpecNode) -> Seq<char> {
    spec_delex(spec_deparse(node))
}

/// The token that writes an operation.
fn operator(kind: BinaryKind) -> (r: Token)
    ensures
        r@ == operator_of(kind),
{
    match kind {
        BinaryKind::Add => Token::Plus,
        BinaryKind::Sub => Token::Minus,
        BinaryKind::Mul => Token::Star,
        BinaryKind::Div => Token::Slash,
        BinaryKind::Pow => Token::Caret,
    }
}

/// Flattens a tree back into its token sequence.
pub fn deparse(node: &ExpressionNode) -> (r: Vec<Token>)
    ensures
        view_tokens(r@) == spec_deparse(node@),
    decreases node,
{
    match node {
        ExpressionNode::Literal(d) => {
            let mut stream: Vec<Token> = Vec::new();
            stream.push(Token::Number(d.clone()));
            assert(view_tokens(stream@) =~= spec_deparse(node@));
            stream
        },
        ExpressionNode::BinaryOp(kind, left, right) => {
            let mut stream = deparse(left);
            let ghost before = stream@;
            stream.push(operator(*kind));
            let mut rest = deparse(right);
            let ghost after = rest@;
            stream.append(&mut rest);
            assert(view_tokens(stream@) =~= view_tokens(before).push(operator_of(*kind))
                + view_tokens(after));
            stream
        },
        ExpressionNode::Grouped(inner) => {
            let mut stream: Vec<Token> = Vec::new();
            stream.push(Token::Group(deparse(inner)));
            assert(view_tokens(stream@) =~= spec_deparse(node@));
            stream
        },
    }
}

/// Writes a token sequence as text. A group is written between `(` and `)`,
/// whatever brackets it was read from.
pub fn delex(tokens: &[Token]) -> (r: String)
    ensures
        r@ == spec_delex(view_tokens(tokens@)),
    decreases tokens@,
{
    let ghost model = view_tokens(tokens@);
    let mut out = String::new();
    let mut i: usize = 0;
    while i < tokens.len()
        invariant
            i <= tokens@.len(),
            model == view_tokens(tokens@),
            out@ == spec_delex(model.take(i as int)),
        decreases tokens@.len() - i,
    {
        proof {
            assert(model.take(i + 1).drop_last() =~= model.take(i as int));
        }
        proof {
            reveal_strlit("+");
            reveal_strlit("-");
            reveal_strlit("*");
            reveal_strlit("/");
            reveal_strlit("^");
            reveal_strlit("(");
            reveal_strlit(")");
        }
        match &tokens[i] {
            Token::Number(d) => out.append(d.as_str()),
            Token::Plus => out.append("+"),
            Token::Minus => out.append("-"),
            Token::Star => out.append("*"),
            Token::Slash => out.append("/"),
            Token::Caret => out.append("^"),
            Token::Group(inner) => {
                proof {
                    let group = tokens@[i as int];
                    assert(decreases_to!(tokens@ => tokens@[i as int]));
                    assert(decreases_to!(group => group->Group_0));
                    assert(decreases_to!(group->Group_0 => group->Group_0@));
                }
                out.append("(");
                let content = delex(inner.as_slice());
                out.append(content.as_str());
                out.append(")");
            },
        }
        assert(out@ =~= spec_delex(model.take(i as int)) + token_text(model[i as int]));
        i = i + 1;
    }
    assert(model.take(i as int) =~= model);
    out
}

/// Writes a tree as text: its tokens in infix order, each group between `(`
/// and `)`.
pub fn render(node: &ExpressionNode) -> (r: String)
    ensures
        r@ == spec_render(node@),
{
    let tokens = deparse(node);
    delex(tokens.as_slice())
}

} // verus!
