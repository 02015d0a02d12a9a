//! Reading and writing are inverse on everything that reading can give.

use vstd::prelude::*;
use crate::lexer::{spec_tokenize, FormatError};
use crate::lexer_laws::{lemma_tokenize_numerals_valid, lemma_tokenize_text_of_tokens};
use crate::parser::spec_parse;
use crate::parser_laws::{
    alternating, leftmost_split, lemma_deparse_legible, lemma_parse_alternating,
    lemma_parse_deparse, lemma_parse_keeps_numerals, lemma_parse_shape, literals_valid,
};
use crate::render::{spec_deparse, spec_render};
use crate::token::SpecToken;
use crate::tree::SpecNode;

verus! {

/// The tree of a text: its tokens, parsed. `None` where either step fails.
pub open spec fn spec_read(text: Seq<char>) -> Option<SpecNode> {
    match spec_tokenize(text) {
        Ok(tokens) => spec_parse(tokens),
        Err(_) => None,
    }
}

/// A text without characters is read as no tree.
pub proof fn lemma_read_empty()
    ensures
        spec_read(Seq::empty()) is None,
{
}

/// A tree of the parser's shape whose literals hold numerals is read back
/// from its own text: the text has the tree's tokens, and they parse to the
/// tree.
pub proof fn lemma_read_rendered(node: SpecNode)
    requires
        leftmost_split(node),
        literals_valid(node),
    ensures
        spec_tokenize(spec_render(node)) == Ok::<Seq<SpecToken>, FormatError>(spec_deparse(node)),
        spec_parse(spec_deparse(node)) == Some(node),
        spec_read(spec_render(node)) == Some(node),
{
    lemma_deparse_legible(node);
    lemma_tokenize_text_of_tokens(spec_deparse(node));
    lemma_parse_deparse(node);
}

/// Round trip: whatever tree a text is read as, the text that the tree is
/// written as is read as the same tree. So the two evaluate alike, whatever
/// the evaluation.
pub proof fn lemma_round_trip(text: Seq<char>)
    requires
        spec_read(text) is Some,
    ensures
        spec_read(spec_render(spec_read(text)->0)) == spec_read(text),
{
    let tokens = spec_tokenize(text)->Ok_0;
    lemma_tokenize_numerals_valid(text);
    lemma_parse_shape(tokens);
    lemma_parse_keeps_numerals(tokens);
    lemma_read_rendered(spec_parse(tokens)->0);
}

/// Nothing is lost between text and tree: a text whose tokens alternate
/// between operands and operators is read as a tree, and the tree is written
/// as a text with the same tokens.
pub proof fn lemma_tokens_survive(text: Seq<char>)
    requires
        spec_tokenize(text) is Ok,
        alternating(spec_tokenize(text)->Ok_0),
    ensures
        spec_read(text) is Some,
        spec_tokenize(spec_render(spec_read(text)->0)) == spec_tokenize(text),
{
    let tokens = spec_tokenize(text)->Ok_0;
    lemma_parse_alternating(tokens);
    lemma_tokenize_numerals_valid(text);
    lemma_parse_shape(tokens);
    lemma_parse_keeps_numerals(tokens);
    lemma_read_rendered(spec_parse(tokens)->0);
}

} // verus!
