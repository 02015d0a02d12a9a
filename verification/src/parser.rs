//! The parser: a token sequence becomes a tree by splitting at the leftmost
//! token of the greatest rank, and parsing what stands on either side.

use vstd::prelude::*;
use vstd::slice::slice_subrange;
use crate::token::{priority, rank, view_tokens, SpecToken, Token};
use crate::tree::{operation_of, BinaryKind, ExpressionNode, SpecNode};

verus! {

/// Why a token sequence is not an expression.
#[derive(Debug, Clone, Copy, PartialEq, Eq, Structural)]
pub enum StructuralError {
    /// An empty sequence was to be parsed: the whole input, the content of a
    /// group, or one side of an operator.
    EmptySequence,
}

/// No token of `tokens` ranks above `bound`.
pub open spec fn ranks_at_most(tokens: Seq<SpecToken>, bound: nat) -> bool {
    forall|j: int| 0 <= j < tokens.len() ==> rank(#[trigger] tokens[j]) <= bound
}

/// `i` is where `tokens` is split: at the leftmost token of the greatest
/// rank. No token ranks above the one at `i`, and every token before it ranks
/// below it.
pub open spec fn is_split_point(tokens: Seq<SpecToken>, i: int) -> bool {
    &&& 0 <= i < tokens.len()
    &&& ranks_at_most(tokens, rank(tokens[i]))
    &&& forall|j: int| 0 <= j < i ==> rank(#[trigger] tokens[j]) < rank(tokens[i])
}

/// The index of the leftmost token of the greatest rank.
pub open spec fn split_point(tokens: Seq<SpecToken>) -> int {
    choose|i: int| is_split_point(tokens, i)
}

/// A sequence that is not empty has a split point.
pub proof fn lemma_split_point_exists(tokens: Seq<SpecToken>)
    requires
        tokens.len() > 0,
    ensures
        is_split_point(tokens, split_point(tokens)),
    decreases tokens.len(),
{
    if tokens.len() == 1 {
        assert(is_split_point(tokens, 0));
    } else {
        let front = tokens.drop_last();
        lemma_split_point_exists(front);
        let p = split_point(front);
        let last = tokens.len() - 1;
        let at = if rank(tokens[last]) > rank(front[p]) {
            last
        } else {
            p
        };
        assert forall|j: int| 0 <= j < tokens.len() implies rank(#[trigger] tokens[j]) <= rank(
            tokens[at],
        ) by {
            if j < last {
                assert(rank(front[j]) <= rank(front[p]));
            }
        }
        assert forall|j: int| 0 <= j < at implies rank(#[trigger] tokens[j]) < rank(
            tokens[at],
        ) by {
            assert(rank(front[j]) <= rank(front[p]));
            if at == p {
                assert(rank(front[j]) < rank(front[p]));
            }
        }
        assert(is_split_point(tokens, at));
    }
}

/// A sequence has at most one split point.
pub proof fn lemma_split_point_unique(tokens: Seq<SpecToken>, i: int, j: int)
    requires
        is_split_point(tokens, i),
        is_split_point(tokens, j),
    ensures
        i == j,
{
    if i < j {
        assert(rank(tokens[i]) < rank(tokens[j]));
        assert(rank(tokens[j]) <= rank(tokens[i]));
    } else if j < i {
        assert(rank(tokens[j]) < rank(tokens[i]));
        assert(rank(tokens[i]) <= rank(tokens[j]));
    }
}

/// The tree of a token sequence, or `None` where an empty sequence would have
/// to be parsed. The sequence is split at the leftmost token of the greatest
/// rank. If that token is an operator, it becomes the root, over the tree of
/// the tokens before it and the tree of the tokens after it. If it is a
/// group, the sequence holds no operator, and the result is the tree of the
/// group's content, marked as grouped. If it is a numeral, the sequence holds
/// numerals only, and the result is that literal. In the last two cases the
/// other tokens of the sequence are left out of the tree.
pub open spec fn spec_parse(tokens: Seq<SpecToken>) -> Option<SpecNode>
    decreases tokens,
{
    if tokens.len() == 0 {
        None
    } else {
        let i = split_point(tokens);
        proof {
            lemma_split_point_exists(tokens);
        }
        match tokens[i] {
            SpecToken::Number(d) => Some(SpecNode::Literal(d)),
            SpecToken::Group(inner) => match spec_parse(inner) {
                Some(n) => Some(SpecNode::Grouped(Box::new(n))),
                None => None,
            },
            _ => match (
                spec_parse(tokens.subrange(0, i)),
                spec_parse(tokens.subrange(i + 1, tokens.len() as int)),
            ) {
                (Some(left), Some(right)) => Some(
                    SpecNode::BinaryOp(operation_of(tokens[i])->0, Box::new(left), Box::new(right)),
                ),
                _ => None,
            },
        }
    }
}

/// The greatest rank among `tokens`.
fn highest_priority(tokens: &[Token]) -> (r: u8)
    requires
        tokens@.len() > 0,
    ensures
        ranks_at_most(view_tokens(tokens@), r as nat),
        exists|j: int| 0 <= j < tokens@.len() && rank(#[trigger] view_tokens(tokens@)[j]) == r,
{
    let mut best: u8 = priority(&tokens[0]);
    let ghost mut at: int = 0;
    let mut i: usize = 1;
    while i < tokens.len()
        invariant
            1 <= i <= tokens@.len(),
            0 <= at < i,
            rank(view_tokens(tokens@)[at]) == best,
            forall|j: int| 0 <= j < i ==> rank(#[trigger] view_tokens(tokens@)[j]) <= best,
        decreases tokens@.len() - i,
    {
        let p = priority(&tokens[i]);
        if p > best {
            best = p;
            proof {
                at = i as int;
            }
        }
        i = i + 1;
    }
    best
}

/// The index of the first of `tokens` whose rank is `wanted`.
fn first_of_priority(tokens: &[Token], wanted: u8) -> (r: usize)
    requires
        exists|j: int| 0 <= j < tokens@.len() && rank(#[trigger] view_tokens(tokens@)[j]) == wanted,
    ensures
        r < tokens@.len(),
        rank(view_tokens(tokens@)[r as int]) == wanted,
        forall|j: int| 0 <= j < r ==> rank(#[trigger] view_tokens(tokens@)[j]) != wanted,
{
    let mut i: usize = 0;
    while i < tokens.len()
        invariant
            i <= tokens@.len(),
            forall|j: int| 0 <= j < i ==> rank(#[trigger] view_tokens(tokens@)[j]) != wanted,
        decreases tokens@.len() - i,
    {
        if priority(&tokens[i]) == wanted {
            return i;
        }
        i = i + 1;
    }
    proof {
        let j = choose|j: int|
            0 <= j < tokens@.len() && rank(#[trigger] view_tokens(tokens@)[j]) == wanted;
        assert(rank(view_tokens(tokens@)[j]) != wanted);
    }
    0
}

/// The operation that an operator token stands for.
fn operation(token: &Token) -> (r: Option<BinaryKind>)
    ensures
        r == operation_of(token@),
{
    match token {
        Token::Plus => Some(BinaryKind::Add),
        Token::Minus => Some(BinaryKind::Sub),
        Token::Star => Some(BinaryKind::Mul),
        Token::Slash => Some(BinaryKind::Div),
        Token::Caret => Some(BinaryKind::Pow),
        Token::Number(_) => None,
        Token::Group(_) => None,
    }
}

/// Builds the expression tree of `tokens`: the tree that `spec_parse` gives
/// for them. It fails exactly when `spec_parse` gives none, which is when an
/// empty sequence would have to be parsed.
pub fn parse(tokens: &[Token]) -> (r: Result<ExpressionNode, StructuralError>)
    ensures
        match r {
            Ok(node) => spec_parse(view_tokens(tokens@)) == Some(node@),
            Err(_) => spec_parse(view_tokens(tokens@)) is None,
        },
    decreases tokens@,
{
    if tokens.len() == 0 {
        return Err(StructuralError::EmptySequence);
    }
    let top = highest_priority(tokens);
    let i = first_of_priority(tokens, top);
    let ghost model = view_tokens(tokens@);
    proof {
        assert(is_split_point(model, i as int)) by {
            assert forall|j: int| 0 <= j < i implies rank(#[trigger] model[j]) < rank(
                model[i as int],
            ) by {
                assert(rank(model[j]) <= top);
                assert(rank(model[j]) != top);
            }
        }
        lemma_split_point_exists(model);
        lemma_split_point_unique(model, i as int, split_point(model));
    }
    let token = &tokens[i];
    match token {
        Token::Number(d) => Ok(ExpressionNode::Literal(d.clone())),
        Token::Group(inner) => {
            proof {
                let group = tokens@[i as int];
                assert(decreases_to!(tokens@ => tokens@[i as int]));
                assert(decreases_to!(group => group->Group_0));
                assert(decreases_to!(group->Group_0 => group->Group_0@));
            }
            match parse(inner.as_slice()) {
                Ok(node) => Ok(ExpressionNode::Grouped(Box::new(node))),
                Err(e) => Err(e),
            }
        },
        _ => {
            let kind = operation(token).unwrap();
            let before = slice_subrange(tokens, 0, i);
            let after = slice_subrange(tokens, i + 1, tokens.len());
            proof {
                assert(view_tokens(before@) =~= model.subrange(0, i as int));
                assert(view_tokens(after@) =~= model.subrange(i as int + 1, model.len() as int));
            }
            match parse(before) {
                Ok(left) => match parse(after) {
                    Ok(right) => Ok(
                        ExpressionNode::BinaryOp(kind, Box::new(left), Box::new(right)),
                    ),
                    Err(e) => Err(e),
                },
                Err(e) => Err(e),
            }
        },
    }
}

} // verus!
