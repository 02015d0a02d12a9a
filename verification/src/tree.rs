//! Expression trees and their mathematical model.

use vstd::prelude::*;
use crate::numeral::Decimal;
use crate::token::SpecToken;

verus! {

/// The five binary operations.
#[derive(Debug, Clone, Copy, PartialEq, Eq, Structural)]
pub enum BinaryKind {
    Add,
    Sub,
    Mul,
    Div,
    Pow,
}

/// The model of an expression tree.
pub enum SpecNode {
    /// A numeral, by its characters.
    Literal(Seq<char>),
    /// An operation on two complete sub-expressions.
    BinaryOp(BinaryKind, Box<SpecNode>, Box<SpecNode>),
    /// A sub-expression that was written between brackets.
    Grouped(Box<SpecNode>),
}

/// A node of an expression tree. Each node owns its children, and every leaf
/// is a literal.
#[derive(Debug, PartialEq, Eq)]
pub enum ExpressionNode {
    Literal(Decimal),
    BinaryOp(BinaryKind, Box<ExpressionNode>, Box<ExpressionNode>),
    Grouped(Box<ExpressionNode>),
}

impl View for ExpressionNode {
    type V = SpecNode;

    open spec fn view(&self) -> SpecNode
        decreases self,
    {
        match self {
            ExpressionNode::Literal(d) => SpecNode::Literal(d@),
            ExpressionNode::BinaryOp(kind, left, right) => SpecNode::BinaryOp(
                *kind,
                Box::new((**left)@),
                Box::new((**right)@),
            ),
            ExpressionNode::Grouped(inner) => SpecNode::Grouped(Box::new((**inner)@)),
        }
    }
}

impl Clone for ExpressionNode {
    fn clone(&self) -> (r: Self)
        ensures
            r@ == self@,
        decreases self,
    {
        match self {
            ExpressionNode::Literal(d) => ExpressionNode::Literal(d.clone()),
            ExpressionNode::BinaryOp(kind, left, right) => {
                let l = (**left).clone();
                let r = (**right).clone();
                ExpressionNode::BinaryOp(*kind, Box::new(l), Box::new(r))
            },
            ExpressionNode::Grouped(inner) => {
                let n = (**inner).clone();
                ExpressionNode::Grouped(Box::new(n))
            },
        }
    }
}

/// The operation that an operator token stands for; `None` for an operand.
pub open spec fn operation_of(t: SpecToken) -> Option<BinaryKind> {
    match t {
        SpecToken::Plus => Some(BinaryKind::Add),
        SpecToken::Minus => Some(BinaryKind::Sub),
        SpecToken::Star => Some(BinaryKind::Mul),
        SpecToken::Slash => Some(BinaryKind::Div),
        SpecToken::Caret => Some(BinaryKind::Pow),
        SpecToken::Number(_) => None,
        SpecToken::Group(_) => None,
    }
}

/// The operator token that writes an operation.
pub open spec fn operator_of(kind: BinaryKind) -> SpecToken {
    match kind {
        BinaryKind::Add => SpecToken::Plus,
        BinaryKind::Sub => SpecToken::Minus,
        BinaryKind::Mul => SpecToken::Star,
        BinaryKind::Div => SpecToken::Slash,
        BinaryKind::Pow => SpecToken::Caret,
    }
}

} // verus!
