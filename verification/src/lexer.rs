//! The tokenizer: one scan over the characters, left to right, that resolves
//! numerals and bracket nesting.

use vstd::prelude::*;
use crate::numeral::{is_numeral, is_numeral_char, numeral_char, push_numeral_char, Decimal};
use crate::token::{view_tokens, SpecToken, Token};

verus! {

/// Why a text is not a sequence of tokens.
#[derive(Debug, Clone, Copy, PartialEq, Eq, Structural)]
pub enum FormatError {
    /// A run of digits and points that is not a numeral, such as `1.2.3`.
    MalformedNumber,
    /// A closing bracket with no group open.
    UnmatchedClose,
    /// The text ended with a group still open.
    UnclosedOpen,
}

/// The operator that a character writes, if it writes one.
pub open spec fn operator_token(c: char) -> Option<SpecToken> {
    if c == '+' {
        Some(SpecToken::Plus)
    } else if c == '-' {
        Some(SpecToken::Minus)
    } else if c == '*' {
        Some(SpecToken::Star)
    } else if c == '/' {
        Some(SpecToken::Slash)
    } else if c == '^' {
        Some(SpecToken::Caret)
    } else {
        None
    }
}

/// One of the four opening brackets.
pub open spec fn is_opener(c: char) -> bool {
    c == '(' || c == '[' || c == '<' || c == '{'
}

/// One of the four closing brackets.
pub open spec fn is_closer(c: char) -> bool {
    c == ')' || c == ']' || c == '>' || c == '}'
}

/// The tokenizer between two characters.
pub struct LexState {
    /// The token sequences of the groups that enclose the current one, each
    /// as far as it was read when the next group opened; outermost first.
    pub enclosing: Seq<Seq<SpecToken>>,
    /// The tokens read so far at the current nesting level.
    pub current: Seq<SpecToken>,
    /// The digits and points read since the last token.
    pub pending: Seq<char>,
}

/// The tokenizer before the first character.
pub open spec fn lex_start() -> LexState {
    LexState { enclosing: Seq::empty(), current: Seq::empty(), pending: Seq::empty() }
}

/// Ends the pending numeral, if there is one: it becomes a `Number` token at
/// the current level, or the error `MalformedNumber` if it is not a numeral.
pub open spec fn close_pending(st: LexState) -> Result<LexState, FormatError> {
    if st.pending.len() == 0 {
        Ok(st)
    } else if is_numeral(st.pending) {
        Ok(
            LexState {
                enclosing: st.enclosing,
                current: st.current.push(SpecToken::Number(st.pending)),
                pending: Seq::empty(),
            },
        )
    } else {
        Err(FormatError::MalformedNumber)
    }
}

/// What a character other than a space, a digit or a point does once the
/// pending numeral has been ended: an operator is appended to the current
/// level, an opening bracket starts a new level, a closing bracket wraps the
/// current level into a `Group` token of the level around it, whatever the
/// shapes of the two brackets, and any other character does nothing.
pub open spec fn lex_symbol(st: LexState, c: char) -> Result<LexState, FormatError> {
    if operator_token(c) is Some {
        Ok(
            LexState {
                enclosing: st.enclosing,
                current: st.current.push(operator_token(c)->0),
                pending: st.pending,
            },
        )
    } else if is_opener(c) {
        Ok(
            LexState {
                enclosing: st.enclosing.push(st.current),
                current: Seq::empty(),
                pending: st.pending,
            },
        )
    } else if is_closer(c) {
        if st.enclosing.len() == 0 {
            Err(FormatError::UnmatchedClose)
        } else {
            Ok(
                LexState {
                    enclosing: st.enclosing.drop_last(),
                    current: st.enclosing.last().push(SpecToken::Group(st.current)),
                    pending: st.pending,
                },
            )
        }
    } else {
        Ok(st)
    }
}

/// The tokenizer after one more character. A space changes nothing, and does
/// not even end a numeral: `1 2` holds the numeral `12`. A digit or a point
/// joins the pending numeral. Any other character, a tab or a line end among
/// them, first ends the pending numeral and then acts as `lex_symbol` says.
pub open spec fn lex_step(st: LexState, c: char) -> Result<LexState, FormatError> {
    if c == ' ' {
        Ok(st)
    } else if is_numeral_char(c) {
        Ok(LexState { enclosing: st.enclosing, current: st.current, pending: st.pending.push(c) })
    } else {
        match close_pending(st) {
            Ok(closed) => lex_symbol(closed, c),
            Err(e) => Err(e),
        }
    }
}

/// The tokenizer after the characters of `text`, started in `st`; the first
/// error ends the scan.
pub open spec fn lex_run(st: LexState, text: Seq<char>) -> Result<LexState, FormatError>
    decreases text.len(),
{
    if text.len() == 0 {
        Ok(st)
    } else {
        match lex_run(st, text.drop_last()) {
            Ok(mid) => lex_step(mid, text.last()),
            Err(e) => Err(e),
        }
    }
}

/// What the end of the text does: it ends the pending numeral, and then the
/// current level is the result unless a group is still open.
pub open spec fn lex_finish(st: LexState) -> Result<Seq<SpecToken>, FormatError> {
    match close_pending(st) {
        Ok(closed) => if closed.enclosing.len() == 0 {
            Ok(closed.current)
        } else {
            Err(FormatError::UnclosedOpen)
        },
        Err(e) => Err(e),
    }
}

/// The tokens of a text, or the first error of the scan: the text is scanned
/// from `lex_start`, one `lex_step` for each character, and ended by
/// `lex_finish`.
pub open spec fn spec_tokenize(text: Seq<char>) -> Result<Seq<SpecToken>, FormatError> {
    match lex_run(lex_start(), text) {
        Ok(st) => lex_finish(st),
        Err(e) => Err(e),
    }
}

/// The models of the token sequences of a stack of levels.
pub open spec fn view_levels(levels: Seq<Vec<Token>>) -> Seq<Seq<SpecToken>> {
    Seq::new(levels.len(), |i: int| view_tokens(levels[i]@))
}

/// The tokenizer's working state: an explicit stack of the sequences under
/// construction, the innermost one apart, and the pending numeral.
struct Lexer {
    enclosing: Vec<Vec<Token>>,
    current: Vec<Token>,
    pending: String,
}

impl View for Lexer {
    type V = LexState;

    closed spec fn view(&self) -> LexState {
        LexState {
            enclosing: view_levels(self.enclosing@),
            current: view_tokens(self.current@),
            pending: self.pending@,
        }
    }
}

impl Lexer {
    /// The state before the first character.
    fn start() -> (r: Lexer)
        ensures
            r@ == lex_start(),
    {
        let r = Lexer { enclosing: Vec::new(), current: Vec::new(), pending: String::new() };
        assert(r@.enclosing =~= Seq::empty());
        assert(r@.current =~= Seq::empty());
        r
    }

    /// Ends the pending numeral, if there is one.
    fn close_pending(self) -> (r: Result<Lexer, FormatError>)
        ensures
            match r {
                Ok(next) => close_pending(self@) == Ok::<LexState, FormatError>(next@),
                Err(e) => close_pending(self@) == Err::<LexState, FormatError>(e),
            },
    {
        let Lexer { enclosing, mut current, pending } = self;
        if pending.as_str().is_empty() {
            return Ok(Lexer { enclosing, current, pending });
        }
        match Decimal::from_string(pending) {
            Some(d) => {
                current.push(Token::Number(d));
                let next = Lexer { enclosing, current, pending: String::new() };
                assert(next@.current =~= self@.current.push(SpecToken::Number(self@.pending)));
                Ok(next)
            },
            None => Err(FormatError::MalformedNumber),
        }
    }

    /// Takes in an operator, a bracket or a character that says nothing.
    fn symbol(self, c: char) -> (r: Result<Lexer, FormatError>)
        ensures
            match r {
                Ok(next) => lex_symbol(self@, c) == Ok::<LexState, FormatError>(next@),
                Err(e) => lex_symbol(self@, c) == Err::<LexState, FormatError>(e),
            },
    {
        let Lexer { mut enclosing, mut current, pending } = self;
        match c {
            '+' | '-' | '*' | '/' | '^' => {
                let token = match c {
                    '+' => Token::Plus,
                    '-' => Token::Minus,
                    '*' => Token::Star,
                    '/' => Token::Slash,
                    _ => Token::Caret,
                };
                current.push(token);
                let next = Lexer { enclosing, current, pending };
                assert(next@.current =~= self@.current.push(operator_token(c)->0));
                Ok(next)
            },
            '(' | '[' | '<' | '{' => {
                enclosing.push(current);
                let next = Lexer { enclosing, current: Vec::new(), pending };
                assert(next@.enclosing =~= self@.enclosing.push(self@.current));
                assert(next@.current =~= Seq::empty());
                Ok(next)
            },
            ')' | ']' | '>' | '}' => {
                match enclosing.pop() {
                    Some(mut outer) => {
                        outer.push(Token::Group(current));
                        let next = Lexer { enclosing, current: outer, pending };
                        assert(next@.enclosing =~= self@.enclosing.drop_last());
                        assert(next@.current =~= self@.enclosing.last().push(
                            SpecToken::Group(self@.current),
                        ));
                        Ok(next)
                    },
                    None => Err(FormatError::UnmatchedClose),
                }
            },
            _ => Ok(Lexer { enclosing, current, pending }),
        }
    }

    /// Takes in one character.
    fn step(self, c: char) -> (r: Result<Lexer, FormatError>)
        ensures
            match r {
                Ok(next) => lex_step(self@, c) == Ok::<LexState, FormatError>(next@),
                Err(e) => lex_step(self@, c) == Err::<LexState, FormatError>(e),
            },
    {
        if c == ' ' {
            Ok(self)
        } else if numeral_char(c) {
            let Lexer { enclosing, current, mut pending } = self;
            push_numeral_char(&mut pending, c);
            Ok(Lexer { enclosing, current, pending })
        } else {
            match self.close_pending() {
                Ok(closed) => closed.symbol(c),
                Err(e) => Err(e),
            }
        }
    }

    /// Ends the scan.
    fn finish(self) -> (r: Result<Vec<Token>, FormatError>)
        ensures
            match r {
                Ok(tokens) => lex_finish(self@) == Ok::<Seq<SpecToken>, FormatError>(
                    view_tokens(tokens@),
                ),
                Err(e) => lex_finish(self@) == Err::<Seq<SpecToken>, FormatError>(e),
            },
    {
        match self.close_pending() {
            Ok(closed) => {
                let Lexer { enclosing, current, pending } = closed;
                if enclosing.len() == 0 {
                    Ok(current)
                } else {
                    Err(FormatError::UnclosedOpen)
                }
            },
            Err(e) => Err(e),
        }
    }
}

/// Splits `text` into tokens, with every bracket pair resolved into a nested
/// `Group`. The result is a function of the characters alone: the tokens that
/// `spec_tokenize` gives for them, or the first error of its scan.
pub fn tokenize(text: &str) -> (r: Result<Vec<Token>, FormatError>)
    ensures
        match r {
            Ok(tokens) => spec_tokenize(text@) == Ok::<Seq<SpecToken>, FormatError>(
                view_tokens(tokens@),
            ),
            Err(e) => spec_tokenize(text@) == Err::<Seq<SpecToken>, FormatError>(e),
        },
{
    let mut lexer = Lexer::start();
    for c in it: text.chars()
        invariant
            it.seq() == text@,
            lex_run(lex_start(), text@.take(it.index() as int)) == Ok::<LexState, FormatError>(
                lexer@,
            ),
    {
        proof {
            let n = it.index() as int;
            assert(text@.take(n + 1).drop_last() =~= text@.take(n));
            lemma_run_prefix_error(lex_start(), text@, n + 1);
        }
        match lexer.step(c) {
            Ok(next) => {
                lexer = next;
            },
            Err(e) => {
                return Err(e);
            },
        }
    }
    assert(text@.take(text@.len() as int) =~= text@);
    lexer.finish()
}

/// An error that stops the scan of a prefix stops the scan of the whole text.
pub proof fn lemma_run_prefix_error(st: LexState, text: Seq<char>, n: int)
    requires
        0 <= n <= text.len(),
    ensures
        lex_run(st, text.take(n)) matches Err(e) ==> lex_run(st, text) == Err::<
            LexState,
            FormatError,
        >(e),
    decreases text.len(),
{
    if n < text.len() {
        assert(text.drop_last().take(n) =~= text.take(n));
        lemma_run_prefix_error(st, text.drop_last(), n);
    } else {
        assert(text.take(n) =~= text);
    }
}

} // verus!
