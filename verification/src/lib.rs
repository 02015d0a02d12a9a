//! Arithmetic expressions over decimal numerals, the operators `+ - * / ^`
//! and bracket groups.
//!
//! Three steps lead from text to a tree and back:
//!
//! * [`tokenize`] scans a text into tokens and resolves every bracket pair
//!   into a nested group;
//! * [`parse`] builds a tree from tokens by splitting at the leftmost token of
//!   the greatest rank;
//! * [`render`] writes a tree as text again, by way of [`deparse`] and
//!   [`delex`].
//!
//! Each function is specified over a mathematical model of its data:
//! `Seq<char>` for text, [`SpecToken`] for tokens and [`SpecNode`] for trees.
//! The other modules prove what holds of these models on every input:
//!
//! * `lexer_outcome`: which texts the tokenizer accepts, and which error it
//!   gives for each of the others;
//! * `lexer_laws`: that the shapes of brackets do not matter, and that the
//!   tokenizer undoes `delex`;
//! * `parser_laws`: the shape of the trees, and that the parser and `deparse`
//!   undo one another;
//! * `round_trip`: that a tree is read back from its own text.
//!
//! A numeral is held as it is written. What number it stands for is left to
//! the caller, so that no arithmetic on machine numbers enters the library.

pub mod lexer;
pub mod lexer_laws;
pub mod lexer_outcome;
pub mod numeral;
pub mod parser;
pub mod parser_laws;
pub mod render;
pub mod round_trip;
pub mod token;
pub mod tree;

pub use lexer::{tokenize, FormatError};
pub use numeral::Decimal;
pub use parser::{parse, StructuralError};
pub use render::{delex, deparse, render};
pub use token::{priority, SpecToken, Token};
pub use tree::{BinaryKind, ExpressionNode, SpecNode};
