//! Which texts the tokenizer accepts, and which error it gives for the others,
//! said of the text itself.

use vstd::prelude::*;
use crate::lexer::{
    close_pending, is_closer, is_opener, lemma_run_prefix_error, lex_run, lex_start, lex_step,
    spec_tokenize, FormatError, LexState,
};
use crate::numeral::{is_numeral, is_numeral_char};
use crate::token::SpecToken;

verus! {

/// How many groups are open after `text`: its opening brackets less its
/// closing brackets.
pub open spec fn depth(text: Seq<char>) -> int
    decreases text.len(),
{
    if text.len() == 0 {
        0
    } else if is_opener(text.last()) {
        depth(text.drop_last()) + 1
    } else if is_closer(text.last()) {
        depth(text.drop_last()) - 1
    } else {
        depth(text.drop_last())
    }
}

/// The character ends a run of digits and points: it is neither one of them
/// nor a space.
pub open spec fn ends_run(c: char) -> bool {
    c != ' ' && !is_numeral_char(c)
}

/// The run of digits and points that `text` ends in, spaces left out: what
/// would be the next numeral.
pub open spec fn open_run(text: Seq<char>) -> Seq<char>
    decreases text.len(),
{
    if text.len() == 0 {
        Seq::empty()
    } else if text.last() == ' ' {
        open_run(text.drop_last())
    } else if is_numeral_char(text.last()) {
        open_run(text.drop_last()).push(text.last())
    } else {
        Seq::empty()
    }
}

/// The run that `text` ends in can be ended: there is none, or it is a
/// numeral.
pub open spec fn run_is_numeral(text: Seq<char>) -> bool {
    open_run(text).len() == 0 || is_numeral(open_run(text))
}

/// Nothing goes wrong inside `text`: every run of digits and points that a
/// character of it ends is a numeral, and every closing bracket of it finds a
/// group open.
pub open spec fn scans(text: Seq<char>) -> bool {
    &&& forall|i: int|
        0 <= i < text.len() && ends_run(#[trigger] text[i]) ==> run_is_numeral(text.take(i))
    &&& forall|i: int|
        0 <= i < text.len() && is_closer(#[trigger] text[i]) ==> depth(text.take(i)) > 0
}

/// The character at `i` is where the scan of `text` fails with `e`: it ends a
/// run that is no numeral, or it is a closing bracket and no group is open.
pub open spec fn fails_at(text: Seq<char>, i: int, e: FormatError) -> bool {
    &&& 0 <= i < text.len()
    &&& scans(text.take(i))
    &&& match e {
        FormatError::MalformedNumber => ends_run(text[i]) && !run_is_numeral(text.take(i)),
        FormatError::UnmatchedClose => {
            &&& is_closer(text[i])
            &&& run_is_numeral(text.take(i))
            &&& depth(text.take(i)) == 0
        },
        FormatError::UnclosedOpen => false,
    }
}

/// A text scans if all but its last character scan and the last character
/// goes well.
proof fn lemma_scans_unfold(text: Seq<char>)
    requires
        text.len() > 0,
    ensures
        scans(text) <==> {
            &&& scans(text.drop_last())
            &&& ends_run(text.last()) ==> run_is_numeral(text.drop_last())
            &&& is_closer(text.last()) ==> depth(text.drop_last()) > 0
        },
{
    let front = text.drop_last();
    let n = front.len() as int;
    assert(text.take(n) =~= front);
    assert forall|i: int| 0 <= i < n implies text.take(i) == #[trigger] front.take(i) by {
        assert(text.take(i) =~= front.take(i));
    }
    if scans(text) {
        assert forall|i: int| 0 <= i < n && ends_run(#[trigger] front[i]) implies run_is_numeral(
            front.take(i),
        ) by {
            assert(front[i] == text[i]);
            assert(text.take(i) == front.take(i));
        }
        assert forall|i: int| 0 <= i < n && is_closer(#[trigger] front[i]) implies depth(
            front.take(i),
        ) > 0 by {
            assert(front[i] == text[i]);
            assert(text.take(i) == front.take(i));
        }
        assert(text[n] == text.last());
    }
    if scans(front) && (ends_run(text.last()) ==> run_is_numeral(front)) && (is_closer(
        text.last(),
    ) ==> depth(front) > 0) {
        assert forall|i: int| 0 <= i < text.len() && ends_run(
            #[trigger] text[i],
        ) implies run_is_numeral(text.take(i)) by {
            if i < n {
                assert(front[i] == text[i]);
                assert(text.take(i) == front.take(i));
            }
        }
        assert forall|i: int| 0 <= i < text.len() && is_closer(#[trigger] text[i]) implies depth(
            text.take(i),
        ) > 0 by {
            if i < n {
                assert(front[i] == text[i]);
                assert(text.take(i) == front.take(i));
            }
        }
    }
}

/// What the scan of a text from the start comes to: it succeeds exactly on
/// the texts that scan, then with the open run pending and as many levels
/// around the current one as groups are open; and it fails with the error of
/// the first character that goes wrong.
proof fn lemma_run_outcome(text: Seq<char>)
    ensures
        lex_run(lex_start(), text) is Ok <==> scans(text),
        lex_run(lex_start(), text) matches Ok(st) ==> st.pending == open_run(text)
            && st.enclosing.len() == depth(text),
        lex_run(lex_start(), text) matches Err(e) ==> exists|i: int| fails_at(text, i, e),
    decreases text.len(),
{
    if text.len() == 0 {
        assert(lex_start().pending =~= open_run(text));
    } else {
        let front = text.drop_last();
        let c = text.last();
        let n = front.len() as int;
        lemma_run_outcome(front);
        lemma_scans_unfold(text);
        assert(text.take(n) =~= front);
        match lex_run(lex_start(), front) {
            Ok(mid) => {
                if lex_step(mid, c) is Err {
                    assert(fails_at(text, n, lex_step(mid, c)->Err_0));
                } else if ends_run(c) {
                    assert(close_pending(mid)->Ok_0.pending =~= Seq::<char>::empty());
                }
            },
            Err(e) => {
                let i = choose|i: int| fails_at(front, i, e);
                assert(text.take(i) =~= front.take(i));
                assert(fails_at(text, i, e));
            },
        }
    }
}

/// A character that goes wrong fails the scan with its error.
proof fn lemma_run_fails(text: Seq<char>, i: int, e: FormatError)
    requires
        fails_at(text, i, e),
    ensures
        lex_run(lex_start(), text) == Err::<LexState, FormatError>(e),
{
    let head = text.take(i + 1);
    assert(head.drop_last() =~= text.take(i));
    assert(head.last() == text[i]);
    lemma_run_outcome(text.take(i));
    lemma_run_prefix_error(lex_start(), text, i + 1);
}

/// A text without characters has no tokens, and that is no error.
pub proof fn lemma_tokenize_empty()
    ensures
        spec_tokenize(Seq::empty()) == Ok::<Seq<SpecToken>, FormatError>(Seq::empty()),
{
}

/// The tokenizer accepts exactly the texts in which every run of digits and
/// points is a numeral, every closing bracket finds a group open, and no
/// group is open at the end.
pub proof fn lemma_tokenize_accepts(text: Seq<char>)
    ensures
        spec_tokenize(text) is Ok <==> scans(text) && run_is_numeral(text) && depth(text) == 0,
{
    lemma_run_outcome(text);
}

/// The tokenizer gives `MalformedNumber` exactly when the first thing that
/// goes wrong is a run of digits and points that is no numeral, ended by a
/// character or by the end of the text.
pub proof fn lemma_tokenize_malformed_number(text: Seq<char>)
    ensures
        spec_tokenize(text) == Err::<Seq<SpecToken>, FormatError>(
            FormatError::MalformedNumber,
        ) <==> (exists|i: int| fails_at(text, i, FormatError::MalformedNumber)) || (scans(text)
            && !run_is_numeral(text)),
{
    lemma_run_outcome(text);
    if exists|i: int| fails_at(text, i, FormatError::MalformedNumber) {
        let i = choose|i: int| fails_at(text, i, FormatError::MalformedNumber);
        lemma_run_fails(text, i, FormatError::MalformedNumber);
    }
    if lex_run(lex_start(), text) is Err {
        let e = lex_run(lex_start(), text)->Err_0;
        let i = choose|i: int| fails_at(text, i, e);
        lemma_run_fails(text, i, e);
    }
}

/// The tokenizer gives `UnmatchedClose` exactly when the first thing that
/// goes wrong is a closing bracket with no group open.
pub proof fn lemma_tokenize_unmatched_close(text: Seq<char>)
    ensures
        spec_tokenize(text) == Err::<Seq<SpecToken>, FormatError>(
            FormatError::UnmatchedClose,
        ) <==> exists|i: int| fails_at(text, i, FormatError::UnmatchedClose),
{
    lemma_run_outcome(text);
    if exists|i: int| fails_at(text, i, FormatError::UnmatchedClose) {
        let i = choose|i: int| fails_at(text, i, FormatError::UnmatchedClose);
        lemma_run_fails(text, i, FormatError::UnmatchedClose);
    }
    if lex_run(lex_start(), text) is Err {
        let e = lex_run(lex_start(), text)->Err_0;
        let i = choose|i: int| fails_at(text, i, e);
        lemma_run_fails(text, i, e);
    }
}

/// The tokenizer gives `UnclosedOpen` exactly when nothing goes wrong but
/// that a group is open at the end.
pub proof fn lemma_tokenize_unclosed_open(text: Seq<char>)
    ensures
        spec_tokenize(text) == Err::<Seq<SpecToken>, FormatError>(
            FormatError::UnclosedOpen,
        ) <==> scans(text) && run_is_numeral(text) && depth(text) > 0,
{
    lemma_run_outcome(text);
    if lex_run(lex_start(), text) is Err {
        let e = lex_run(lex_start(), text)->Err_0;
        let i = choose|i: int| fails_at(text, i, e);
        assert(e != FormatError::UnclosedOpen);
    }
}

} // verus!
