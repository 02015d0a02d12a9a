//! What holds of the parser on every token sequence, and of every tree that
//! it builds.

use vstd::prelude::*;
use crate::lexer_laws::{legible, numeral_valid, numerals_apart, numerals_valid};
use crate::numeral::is_numeral;
use crate::parser::{
    is_split_point, lemma_split_point_exists, lemma_split_point_unique, ranks_at_most,
    spec_parse, split_point,
};
use crate::render::spec_deparse;
use crate::token::{rank, SpecToken};
use crate::tree::{operation_of, operator_of, SpecNode};

verus! {

// ---------------------------------------------------------------------------
// When the parser fails
// ---------------------------------------------------------------------------

/// An empty sequence has no tree.
pub proof fn lemma_parse_empty()
    ensures
        spec_parse(Seq::empty()) is None,
{
}

/// An operator with nothing before it or nothing after it has no tree: a
/// sequence whose split point is an operator at either end.
pub proof fn lemma_parse_operator_at_end(tokens: Seq<SpecToken>)
    requires
        tokens.len() > 0,
        operation_of(tokens[split_point(tokens)]) is Some,
        split_point(tokens) == 0 || split_point(tokens) == tokens.len() - 1,
    ensures
        spec_parse(tokens) is None,
{
    let i = split_point(tokens);
    if i == 0 {
        assert(spec_parse(tokens.subrange(0, i)) is None);
    } else {
        assert(spec_parse(tokens.subrange(i + 1, tokens.len() as int)) is None);
    }
}

/// An operator alone has no tree.
pub proof fn lemma_parse_lone_operator(token: SpecToken)
    requires
        operation_of(token) is Some,
    ensures
        spec_parse(seq![token]) is None,
{
    let tokens = seq![token];
    assert(is_split_point(tokens, 0));
    lemma_split_point_exists(tokens);
    lemma_split_point_unique(tokens, 0, split_point(tokens));
    lemma_parse_operator_at_end(tokens);
}

// ---------------------------------------------------------------------------
// The shape of the trees
// ---------------------------------------------------------------------------

/// The rank of the token that a tree was split at: that of its operator, of
/// a group, or of a numeral.
pub open spec fn root_rank(node: SpecNode) -> nat {
    match node {
        SpecNode::Literal(_) => 0,
        SpecNode::Grouped(_) => 1,
        SpecNode::BinaryOp(kind, _, _) => rank(operator_of(kind)),
    }
}

/// The shape of every tree that the parser builds: under an operator, the
/// left side was split at a token of lower rank, and the right side at one of
/// no higher rank. So in a chain of operators of one rank the first is the
/// root and the others follow under its right side, `a-b-c` being `a-(b-c)`
/// and `a^b^c` being `a^(b^c)`; and a looser operator stands under a tighter
/// one only inside a group.
pub open spec fn leftmost_split(node: SpecNode) -> bool
    decreases node,
{
    match node {
        SpecNode::Literal(_) => true,
        SpecNode::Grouped(inner) => leftmost_split(*inner),
        SpecNode::BinaryOp(kind, left, right) => {
            &&& leftmost_split(*left)
            &&& leftmost_split(*right)
            &&& root_rank(*left) < rank(operator_of(kind))
            &&& root_rank(*right) <= rank(operator_of(kind))
        },
    }
}

/// Every literal of the tree holds a numeral.
pub open spec fn literals_valid(node: SpecNode) -> bool
    decreases node,
{
    match node {
        SpecNode::Literal(d) => is_numeral(d),
        SpecNode::Grouped(inner) => literals_valid(*inner),
        SpecNode::BinaryOp(_, left, right) => literals_valid(*left) && literals_valid(*right),
    }
}

/// Every tree that the parser builds has the shape `leftmost_split`, and its
/// root stands for the token that the sequence was split at: an operator
/// whenever the sequence holds one.
pub proof fn lemma_parse_shape(tokens: Seq<SpecToken>)
    requires
        spec_parse(tokens) is Some,
    ensures
        tokens.len() > 0,
        leftmost_split(spec_parse(tokens)->0),
        root_rank(spec_parse(tokens)->0) == rank(tokens[split_point(tokens)]),
    decreases tokens,
{
    let i = split_point(tokens);
    lemma_split_point_exists(tokens);
    match tokens[i] {
        SpecToken::Number(_) => {},
        SpecToken::Group(inner) => {
            lemma_parse_shape(inner);
        },
        _ => {
            let before = tokens.subrange(0, i);
            let after = tokens.subrange(i + 1, tokens.len() as int);
            lemma_parse_shape(before);
            lemma_parse_shape(after);
            let b = split_point(before);
            let a = split_point(after);
            lemma_split_point_exists(before);
            lemma_split_point_exists(after);
            assert(before[b] == tokens[b]);
            assert(rank(tokens[b]) < rank(tokens[i]));
            assert(after[a] == tokens[i + 1 + a]);
            assert(rank(tokens[i + 1 + a]) <= rank(tokens[i]));
        },
    }
}

/// The parser keeps numerals as they are: from tokens that hold numerals it
/// builds a tree whose literals hold numerals.
pub proof fn lemma_parse_keeps_numerals(tokens: Seq<SpecToken>)
    requires
        numerals_valid(tokens),
        spec_parse(tokens) is Some,
    ensures
        literals_valid(spec_parse(tokens)->0),
    decreases tokens,
{
    let i = split_point(tokens);
    lemma_split_point_exists(tokens);
    assert(numeral_valid(tokens[i]));
    match tokens[i] {
        SpecToken::Number(_) => {},
        SpecToken::Group(inner) => {
            lemma_parse_keeps_numerals(inner);
        },
        _ => {
            let before = tokens.subrange(0, i);
            let after = tokens.subrange(i + 1, tokens.len() as int);
            assert forall|j: int| 0 <= j < before.len() implies numeral_valid(
                #[trigger] before[j],
            ) by {
                assert(numeral_valid(tokens[j]));
            }
            assert forall|j: int| 0 <= j < after.len() implies numeral_valid(
                #[trigger] after[j],
            ) by {
                assert(numeral_valid(tokens[i + 1 + j]));
            }
            lemma_parse_keeps_numerals(before);
            lemma_parse_keeps_numerals(after);
        },
    }
}

// ---------------------------------------------------------------------------
// Flattening, then parsing
// ---------------------------------------------------------------------------

/// The tokens of a tree of the parser's shape rank no higher than its root.
pub proof fn lemma_deparse_ranks(node: SpecNode)
    requires
        leftmost_split(node),
    ensures
        ranks_at_most(spec_deparse(node), root_rank(node)),
    decreases node,
{
    match node {
        SpecNode::Literal(_) => {},
        SpecNode::Grouped(_) => {},
        SpecNode::BinaryOp(kind, left, right) => {
            lemma_deparse_ranks(*left);
            lemma_deparse_ranks(*right);
            let l = spec_deparse(*left);
            let r = spec_deparse(*right);
            let all = spec_deparse(node);
            assert forall|j: int| 0 <= j < all.len() implies rank(#[trigger] all[j]) <= root_rank(
                node,
            ) by {
                if j < l.len() {
                    assert(all[j] == l[j]);
                } else if j > l.len() {
                    assert(all[j] == r[j - l.len() - 1]);
                }
            }
        },
    }
}

/// The tokens of a tree read back from their text: there is at least one,
/// the first and the last are operands, and between them operands and
/// operators alternate, so that no two numerals are neighbours.
pub proof fn lemma_deparse_legible(node: SpecNode)
    requires
        literals_valid(node),
    ensures
        spec_deparse(node).len() > 0,
        operation_of(spec_deparse(node).first()) is None,
        operation_of(spec_deparse(node).last()) is None,
        legible(spec_deparse(node)),
    decreases node,
{
    match node {
        SpecNode::Literal(_) => {},
        SpecNode::Grouped(inner) => {
            lemma_deparse_legible(*inner);
        },
        SpecNode::BinaryOp(kind, left, right) => {
            lemma_deparse_legible(*left);
            lemma_deparse_legible(*right);
            let l = spec_deparse(*left);
            let r = spec_deparse(*right);
            let all = spec_deparse(node);
            let n = l.len() as int;
            assert(all.len() == n + 1 + r.len());
            assert(all[n] == operator_of(kind));
            assert forall|j: int| 0 <= j < n implies #[trigger] all[j] == l[j] by {}
            assert forall|j: int| n < j < all.len() implies #[trigger] all[j] == r[j - n - 1] by {}
            assert forall|j: int| 0 <= j < all.len() implies numeral_valid(#[trigger] all[j]) by {
                if j < n {
                    assert(numeral_valid(l[j]));
                } else if j > n {
                    assert(numeral_valid(r[j - n - 1]));
                }
            }
            assert forall|j: int| 0 <= j < all.len() - 1 implies !(#[trigger] all[j] is Number
                && all[j + 1] is Number) by {
                if j + 1 < n {
                    assert(!(l[j] is Number && l[j + 1] is Number));
                    assert(all[j + 1] == l[j + 1]);
                } else if j > n {
                    assert(!(r[j - n - 1] is Number && r[j - n - 1 + 1] is Number));
                    assert(all[j + 1] == r[j + 1 - n - 1]);
                }
            }
            assert forall|j: int| 0 <= j < all.len() && #[trigger] all[j] is Group implies numerals_apart(
                all[j]->Group_0,
            ) by {
                if j < n {
                    assert(l[j] is Group);
                } else if j > n {
                    assert(r[j - n - 1] is Group);
                }
            }
            assert(all.first() == l.first());
            assert(all.last() == r.last());
        },
    }
}

/// The parser undoes the flattening of every tree of its own shape.
pub proof fn lemma_parse_deparse(node: SpecNode)
    requires
        leftmost_split(node),
    ensures
        spec_parse(spec_deparse(node)) == Some(node),
    decreases node,
{
    let all = spec_deparse(node);
    match node {
        SpecNode::Literal(_) => {
            assert(is_split_point(all, 0));
            lemma_split_point_exists(all);
            lemma_split_point_unique(all, 0, split_point(all));
        },
        SpecNode::Grouped(inner) => {
            lemma_parse_deparse(*inner);
            assert(is_split_point(all, 0));
            lemma_split_point_exists(all);
            lemma_split_point_unique(all, 0, split_point(all));
        },
        SpecNode::BinaryOp(kind, left, right) => {
            lemma_parse_deparse(*left);
            lemma_parse_deparse(*right);
            lemma_deparse_ranks(*left);
            lemma_deparse_ranks(*right);
            let l = spec_deparse(*left);
            let r = spec_deparse(*right);
            let n = l.len() as int;
            assert(all[n] == operator_of(kind));
            assert(all.subrange(0, n) =~= l);
            assert(all.subrange(n + 1, all.len() as int) =~= r);
            assert forall|j: int| 0 <= j < all.len() implies rank(#[trigger] all[j]) <= rank(
                all[n],
            ) by {
                if j < n {
                    assert(all[j] == l[j]);
                } else if j > n {
                    assert(all[j] == r[j - n - 1]);
                }
            }
            assert forall|j: int| 0 <= j < n implies rank(#[trigger] all[j]) < rank(all[n]) by {
                assert(all[j] == l[j]);
            }
            assert(is_split_point(all, n));
            lemma_split_point_exists(all);
            lemma_split_point_unique(all, n, split_point(all));
            assert(operation_of(operator_of(kind)) == Some(kind));
        },
    }
}

// ---------------------------------------------------------------------------
// Parsing, then flattening
// ---------------------------------------------------------------------------

/// Operands and operators alternate, from an operand to an operand, in the
/// sequence and inside every group of it: the token sequences of well-formed
/// expressions.
pub open spec fn alternating(tokens: Seq<SpecToken>) -> bool
    decreases tokens,
{
    &&& tokens.len() % 2 == 1
    &&& forall|i: int|
        0 <= i < tokens.len() ==> (i % 2 == 0 <==> operation_of(#[trigger] tokens[i]) is None)
    &&& forall|i: int|
        0 <= i < tokens.len() && #[trigger] tokens[i] is Group ==> alternating(tokens[i]->Group_0)
}

/// A part of an alternating sequence that starts at an operand and ends at an
/// operand is alternating.
proof fn lemma_alternating_part(tokens: Seq<SpecToken>, from: int, to: int)
    requires
        alternating(tokens),
        0 <= from < to <= tokens.len(),
        from % 2 == 0,
        to % 2 == 1,
    ensures
        alternating(tokens.subrange(from, to)),
{
    let part = tokens.subrange(from, to);
    assert forall|j: int| 0 <= j < part.len() implies (j % 2 == 0 <==> operation_of(
        #[trigger] part[j],
    ) is None) by {
        assert(part[j] == tokens[from + j]);
    }
    assert forall|j: int| 0 <= j < part.len() && #[trigger] part[j] is Group implies alternating(
        part[j]->Group_0,
    ) by {
        assert(part[j] == tokens[from + j]);
    }
}

/// The parser loses nothing of a well-formed expression: an alternating
/// sequence always has a tree, and the tokens of that tree are the sequence.
pub proof fn lemma_parse_alternating(tokens: Seq<SpecToken>)
    requires
        alternating(tokens),
    ensures
        spec_parse(tokens) is Some,
        spec_deparse(spec_parse(tokens)->0) == tokens,
    decreases tokens,
{
    let i = split_point(tokens);
    lemma_split_point_exists(tokens);
    if operation_of(tokens[i]) is None {
        if tokens.len() > 1 {
            assert(operation_of(tokens[1]) is Some);
            assert(rank(tokens[1]) <= rank(tokens[i]));
        }
        assert(i == 0 && tokens.len() == 1);
        if tokens[i] is Group {
            lemma_parse_alternating(tokens[i]->Group_0);
        }
        assert(spec_deparse(spec_parse(tokens)->0) =~= tokens);
    } else {
        let before = tokens.subrange(0, i);
        let after = tokens.subrange(i + 1, tokens.len() as int);
        assert(i % 2 == 1);
        lemma_alternating_part(tokens, 0, i);
        lemma_alternating_part(tokens, i + 1, tokens.len() as int);
        lemma_parse_alternating(before);
        lemma_parse_alternating(after);
        assert(operator_of(operation_of(tokens[i])->0) == tokens[i]);
        assert(before.push(tokens[i]) + after =~= tokens);
    }
}

} // verus!
