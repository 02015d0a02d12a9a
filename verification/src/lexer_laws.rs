//! What holds of the tokenizer on every text.

use vstd::prelude::*;
use crate::lexer::{
    close_pending, is_closer, is_opener, lex_run, lex_start, lex_step, operator_token,
    spec_tokenize, FormatError, LexState,
};
use crate::numeral::{is_numeral, is_numeral_char};
use crate::render::{spec_delex, token_text};
use crate::token::SpecToken;

verus! {

// ---------------------------------------------------------------------------
// The shapes of brackets
// ---------------------------------------------------------------------------

/// Two characters that the tokenizer cannot tell apart: the same character,
/// two opening brackets, or two closing brackets.
pub open spec fn same_role(a: char, b: char) -> bool {
    ||| a == b
    ||| is_opener(a) && is_opener(b)
    ||| is_closer(a) && is_closer(b)
}

/// The two texts have the same length and, place by place, characters of the
/// same role.
pub open spec fn same_roles(a: Seq<char>, b: Seq<char>) -> bool {
    &&& a.len() == b.len()
    &&& forall|i: int| 0 <= i < a.len() ==> same_role(#[trigger] a[i], b[i])
}

proof fn lemma_run_ignores_bracket_shape(st: LexState, a: Seq<char>, b: Seq<char>)
    requires
        same_roles(a, b),
    ensures
        lex_run(st, a) == lex_run(st, b),
    decreases a.len(),
{
    if a.len() > 0 {
        assert(same_role(a[a.len() - 1], b[a.len() - 1]));
        lemma_run_ignores_bracket_shape(st, a.drop_last(), b.drop_last());
    }
}

/// The shapes of the brackets do not matter: a closing bracket closes the
/// innermost open group whatever opened it. Two texts that differ only in
/// which opening bracket and which closing bracket stand at each place have
/// the same tokens, or fail with the same error.
pub proof fn lemma_bracket_shape_is_ignored(a: Seq<char>, b: Seq<char>)
    requires
        same_roles(a, b),
    ensures
        spec_tokenize(a) == spec_tokenize(b),
{
    lemma_run_ignores_bracket_shape(lex_start(), a, b);
}

// ---------------------------------------------------------------------------
// Scanning in parts
// ---------------------------------------------------------------------------

/// Scanning a text in two parts: the second part is scanned from the state
/// that the first part ends in, unless the first part fails.
proof fn lemma_run_concat(st: LexState, a: Seq<char>, b: Seq<char>)
    ensures
        lex_run(st, a + b) == match lex_run(st, a) {
            Ok(mid) => lex_run(mid, b),
            Err(e) => Err(e),
        },
    decreases b.len(),
{
    if b.len() == 0 {
        assert(a + b =~= a);
    } else {
        assert((a + b).drop_last() =~= a + b.drop_last());
        assert((a + b).last() == b.last());
        lemma_run_concat(st, a, b.drop_last());
    }
}

/// Scanning one character is one step.
proof fn lemma_run_one(st: LexState, c: char)
    ensures
        lex_run(st, seq![c]) == lex_step(st, c),
{
    assert(seq![c].drop_last() =~= Seq::<char>::empty());
    assert(lex_run(st, seq![c].drop_last()) == Ok::<LexState, FormatError>(st));
}

/// Digits and points only join the pending numeral.
proof fn lemma_run_numeral_chars(st: LexState, run: Seq<char>)
    requires
        forall|i: int| 0 <= i < run.len() ==> is_numeral_char(#[trigger] run[i]),
    ensures
        lex_run(st, run) == Ok::<LexState, FormatError>(
            LexState { enclosing: st.enclosing, current: st.current, pending: st.pending + run },
        ),
    decreases run.len(),
{
    if run.len() == 0 {
        assert(st.pending + run =~= st.pending);
    } else {
        lemma_run_numeral_chars(st, run.drop_last());
        assert(is_numeral_char(run[run.len() - 1]));
        assert((st.pending + run.drop_last()).push(run.last()) =~= st.pending + run);
    }
}

// ---------------------------------------------------------------------------
// The numerals of the tokens
// ---------------------------------------------------------------------------

/// Every `Number` token, at every depth, holds a numeral.
pub open spec fn numerals_valid(tokens: Seq<SpecToken>) -> bool
    decreases tokens,
{
    forall|i: int| 0 <= i < tokens.len() ==> numeral_valid(#[trigger] tokens[i])
}

/// The token holds a numeral if it is a `Number`, and numerals throughout if
/// it is a group.
pub open spec fn numeral_valid(token: SpecToken) -> bool
    decreases token,
{
    match token {
        SpecToken::Number(d) => is_numeral(d),
        SpecToken::Group(inner) => numerals_valid(inner),
        _ => true,
    }
}

/// Every `Number` token read so far holds a numeral.
spec fn state_valid(st: LexState) -> bool {
    &&& numerals_valid(st.current)
    &&& forall|k: int| 0 <= k < st.enclosing.len() ==> numerals_valid(#[trigger] st.enclosing[k])
}

proof fn lemma_close_pending_valid(st: LexState)
    requires
        state_valid(st),
        close_pending(st) is Ok,
    ensures
        state_valid(close_pending(st)->Ok_0),
{
    let next = close_pending(st)->Ok_0;
    if st.pending.len() > 0 {
        assert forall|i: int| 0 <= i < next.current.len() implies numeral_valid(
            #[trigger] next.current[i],
        ) by {
            if i < st.current.len() {
                assert(numeral_valid(st.current[i]));
            }
        }
    }
}

proof fn lemma_step_valid(st: LexState, c: char)
    requires
        state_valid(st),
        lex_step(st, c) is Ok,
    ensures
        state_valid(lex_step(st, c)->Ok_0),
{
    let next = lex_step(st, c)->Ok_0;
    if c != ' ' && !is_numeral_char(c) {
        lemma_close_pending_valid(st);
        let closed = close_pending(st)->Ok_0;
        assert forall|i: int| 0 <= i < next.current.len() implies numeral_valid(
            #[trigger] next.current[i],
        ) by {
            if operator_token(c) is Some {
                if i < closed.current.len() {
                    assert(numeral_valid(closed.current[i]));
                }
            } else if is_opener(c) {
            } else if is_closer(c) {
                let outer = closed.enclosing.last();
                assert(numerals_valid(closed.enclosing[closed.enclosing.len() - 1]));
                if i < outer.len() {
                    assert(numeral_valid(outer[i]));
                }
            } else {
                assert(numeral_valid(closed.current[i]));
            }
        }
        assert forall|k: int| 0 <= k < next.enclosing.len() implies numerals_valid(
            #[trigger] next.enclosing[k],
        ) by {
            if is_opener(c) && operator_token(c) is None {
                if k < closed.enclosing.len() {
                    assert(numerals_valid(closed.enclosing[k]));
                }
            } else {
                assert(numerals_valid(closed.enclosing[k]));
            }
        }
    }
}

proof fn lemma_run_valid(st: LexState, text: Seq<char>)
    requires
        state_valid(st),
        lex_run(st, text) is Ok,
    ensures
        state_valid(lex_run(st, text)->Ok_0),
    decreases text.len(),
{
    if text.len() > 0 {
        lemma_run_valid(st, text.drop_last());
        lemma_step_valid(lex_run(st, text.drop_last())->Ok_0, text.last());
    }
}

/// Every `Number` token that the tokenizer gives, at every depth, holds a
/// numeral.
pub proof fn lemma_tokenize_numerals_valid(text: Seq<char>)
    requires
        spec_tokenize(text) is Ok,
    ensures
        numerals_valid(spec_tokenize(text)->Ok_0),
{
    lemma_run_valid(lex_start(), text);
    lemma_close_pending_valid(lex_run(lex_start(), text)->Ok_0);
}

// ---------------------------------------------------------------------------
// Reading back what was written
// ---------------------------------------------------------------------------

/// No two `Number` tokens stand side by side, at any depth. Written as text,
/// two such neighbours would read as one numeral.
pub open spec fn numerals_apart(tokens: Seq<SpecToken>) -> bool
    decreases tokens,
{
    &&& forall|i: int|
        0 <= i < tokens.len() - 1 ==> !(#[trigger] tokens[i] is Number && tokens[i + 1] is Number)
    &&& forall|i: int|
        0 <= i < tokens.len() && #[trigger] tokens[i] is Group ==> numerals_apart(
            tokens[i]->Group_0,
        )
}

/// A token sequence whose text reads back as itself: its numerals are
/// numerals, and no two of them are neighbours.
pub open spec fn legible(tokens: Seq<SpecToken>) -> bool {
    numerals_valid(tokens) && numerals_apart(tokens)
}

/// Where scanning the text of `tokens` ends, started in `st` with no numeral
/// pending: the tokens have joined the current level, but for a last numeral,
/// which is still pending.
spec fn state_after(st: LexState, tokens: Seq<SpecToken>) -> LexState {
    if tokens.len() > 0 && tokens.last() is Number {
        LexState {
            enclosing: st.enclosing,
            current: st.current + tokens.drop_last(),
            pending: tokens.last()->Number_0,
        }
    } else {
        LexState { enclosing: st.enclosing, current: st.current + tokens, pending: Seq::empty() }
    }
}

/// Ending the pending numeral of `state_after` brings the last token in.
proof fn lemma_close_state_after(st: LexState, tokens: Seq<SpecToken>)
    requires
        legible(tokens),
        st.pending.len() == 0,
    ensures
        close_pending(state_after(st, tokens)) == Ok::<LexState, FormatError>(
            LexState {
                enclosing: st.enclosing,
                current: st.current + tokens,
                pending: Seq::empty(),
            },
        ),
{
    if tokens.len() > 0 && tokens.last() is Number {
        let d = tokens.last()->Number_0;
        assert(numeral_valid(tokens[tokens.len() - 1]));
        assert(d.len() > 0);
        assert((st.current + tokens.drop_last()).push(SpecToken::Number(d)) =~= st.current
            + tokens);
    } else {
        assert(st.pending =~= Seq::empty());
    }
}

/// All but the last of a legible sequence are legible.
proof fn lemma_legible_front(tokens: Seq<SpecToken>)
    requires
        legible(tokens),
        tokens.len() > 0,
    ensures
        legible(tokens.drop_last()),
{
    let front = tokens.drop_last();
    assert forall|i: int| 0 <= i < front.len() implies numeral_valid(#[trigger] front[i]) by {
        assert(numeral_valid(tokens[i]));
    }
    assert forall|i: int| 0 <= i < front.len() - 1 implies !(#[trigger] front[i] is Number
        && front[i + 1] is Number) by {
        assert(!(tokens[i] is Number && tokens[i + 1] is Number));
    }
    assert forall|i: int| 0 <= i < front.len() && #[trigger] front[i] is Group implies numerals_apart(
        front[i]->Group_0,
    ) by {
        assert(tokens[i] is Group);
    }
}

/// Scanning the text of a legible token sequence, from a state with no
/// numeral pending, ends in `state_after`.
proof fn lemma_run_text_of_tokens(st: LexState, tokens: Seq<SpecToken>)
    requires
        legible(tokens),
        st.pending.len() == 0,
    ensures
        lex_run(st, spec_delex(tokens)) == Ok::<LexState, FormatError>(state_after(st, tokens)),
    decreases tokens,
{
    if tokens.len() == 0 {
        assert(st.current + tokens =~= st.current);
        assert(st.pending =~= Seq::empty());
    } else {
        let front = tokens.drop_last();
        let last = tokens.last();
        let n = tokens.len() - 1;
        lemma_legible_front(tokens);
        lemma_run_text_of_tokens(st, front);
        lemma_run_concat(st, spec_delex(front), token_text(last));
        lemma_close_state_after(st, front);
        let mid = state_after(st, front);
        let closed = LexState {
            enclosing: st.enclosing,
            current: st.current + front,
            pending: Seq::empty(),
        };
        assert(numeral_valid(tokens[n]));
        match last {
            SpecToken::Number(d) => {
                if n > 0 {
                    assert(!(tokens[n - 1] is Number && tokens[n - 1 + 1] is Number));
                    assert(front.last() == tokens[n - 1]);
                }
                assert(mid == closed);
                lemma_run_numeral_chars(mid, d);
                assert(closed.pending + d =~= d);
            },
            SpecToken::Group(inner) => {
                assert(tokens[n] is Group);
                let opened = LexState {
                    enclosing: st.enclosing.push(closed.current),
                    current: Seq::empty(),
                    pending: Seq::empty(),
                };
                lemma_run_concat(mid, seq!['('] + spec_delex(inner), seq![')']);
                lemma_run_concat(mid, seq!['('], spec_delex(inner));
                lemma_run_one(mid, '(');
                assert(lex_step(mid, '(') == Ok::<LexState, FormatError>(opened));
                lemma_run_text_of_tokens(opened, inner);
                lemma_run_one(state_after(opened, inner), ')');
                lemma_close_state_after(opened, inner);
                assert(opened.current + inner =~= inner);
                assert(opened.enclosing.drop_last() =~= st.enclosing);
                assert(closed.current.push(SpecToken::Group(inner)) =~= st.current + tokens);
            },
            _ => {
                let c = token_text(last)[0];
                assert(token_text(last) =~= seq![c]);
                lemma_run_one(mid, c);
                assert(closed.current.push(last) =~= st.current + tokens);
            },
        }
    }
}

/// The tokenizer undoes the writing of every legible token sequence: its text
/// has exactly its tokens.
pub proof fn lemma_tokenize_text_of_tokens(tokens: Seq<SpecToken>)
    requires
        legible(tokens),
    ensures
        spec_tokenize(spec_delex(tokens)) == Ok::<Seq<SpecToken>, FormatError>(tokens),
{
    lemma_run_text_of_tokens(lex_start(), tokens);
    lemma_close_state_after(lex_start(), tokens);
    assert(lex_start().current + tokens =~= tokens);
}

} // verus!
