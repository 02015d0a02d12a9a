//! Decimal numerals: the literals of the expression language.

use vstd::prelude::*;
use vstd::string::StringExecFns;

verus! {

/// One of the ten ASCII digits.
pub open spec fn is_digit(c: char) -> bool {
    '0' <= c <= '9'
}

/// A character that a numeral may hold: a digit or the decimal point.
pub open spec fn is_numeral_char(c: char) -> bool {
    is_digit(c) || c == '.'
}

/// The text is an unsigned decimal numeral: digits with at most one decimal
/// point among them, and at least one digit. `"12"`, `"1.5"`, `".5"` and `"5."`
/// are numerals; `""`, `"."` and `"1.2.3"` are not.
pub open spec fn is_numeral(s: Seq<char>) -> bool {
    &&& forall|i: int| 0 <= i < s.len() ==> is_numeral_char(#[trigger] s[i])
    &&& exists|i: int| 0 <= i < s.len() && is_digit(#[trigger] s[i])
    &&& forall|i: int, j: int|
        0 <= i < j < s.len() && #[trigger] s[i] == '.' ==> #[trigger] s[j] != '.'
}

/// Whether `c` is one of the ten ASCII digits.
fn digit(c: char) -> (r: bool)
    ensures
        r == is_digit(c),
{
    match c {
        '0'..='9' => true,
        _ => false,
    }
}

/// Whether `c` is a digit or the decimal point.
pub(crate) fn numeral_char(c: char) -> (r: bool)
    ensures
        r == is_numeral_char(c),
{
    digit(c) || c == '.'
}

/// The digit or point `c` as a text of its own.
fn numeral_char_text(c: char) -> (r: &'static str)
    requires
        is_numeral_char(c),
    ensures
        r@ == seq![c],
{
    proof {
        reveal_strlit("0");
        reveal_strlit("1");
        reveal_strlit("2");
        reveal_strlit("3");
        reveal_strlit("4");
        reveal_strlit("5");
        reveal_strlit("6");
        reveal_strlit("7");
        reveal_strlit("8");
        reveal_strlit("9");
        reveal_strlit(".");
    }
    let r = match c {
        '0' => "0",
        '1' => "1",
        '2' => "2",
        '3' => "3",
        '4' => "4",
        '5' => "5",
        '6' => "6",
        '7' => "7",
        '8' => "8",
        '9' => "9",
        _ => ".",
    };
    assert(r@ =~= seq![c]);
    r
}

/// Appends the digit or point `c` to `text`.
pub(crate) fn push_numeral_char(text: &mut String, c: char)
    requires
        is_numeral_char(c),
    ensures
        final(text)@ == old(text)@.push(c),
{
    let piece = numeral_char_text(c);
    text.append(piece);
    assert(text@ =~= old(text)@.push(c));
}

/// Decides whether `text` is a numeral.
fn check_numeral(text: &str) -> (r: bool)
    ensures
        r == is_numeral(text@),
{
    let mut digits: bool = false;
    let mut points: bool = false;
    for c in it: text.chars()
        invariant
            it.seq() == text@,
            forall|i: int| 0 <= i < it.index() ==> is_numeral_char(#[trigger] text@[i]),
            digits <==> exists|i: int| 0 <= i < it.index() && is_digit(#[trigger] text@[i]),
            points <==> exists|i: int| 0 <= i < it.index() && #[trigger] text@[i] == '.',
            forall|i: int, j: int|
                0 <= i < j < it.index() && #[trigger] text@[i] == '.' ==> #[trigger] text@[j]
                    != '.',
    {
        if digit(c) {
            digits = true;
        } else if c == '.' {
            if points {
                return false;
            }
            points = true;
        } else {
            return false;
        }
    }
    digits
}

/// An unsigned decimal numeral, held as it is written.
#[derive(Debug, PartialEq, Eq)]
pub struct Decimal {
    text: String,
}

impl View for Decimal {
    type V = Seq<char>;

    /// The characters of the numeral.
    closed spec fn view(&self) -> Seq<char> {
        self.text@
    }
}

impl Decimal {
    #[verifier::type_invariant]
    spec fn holds_numeral(self) -> bool {
        is_numeral(self.text@)
    }

    /// Reads a numeral: `Some` exactly when `text` is one.
    pub fn new(text: &str) -> (r: Option<Decimal>)
        ensures
            r is Some <==> is_numeral(text@),
            r matches Some(d) ==> d@ == text@,
    {
        if check_numeral(text) {
            Some(Decimal { text: text.to_owned() })
        } else {
            None
        }
    }

    /// Takes over `text` as a numeral: `Some` exactly when it is one.
    pub(crate) fn from_string(text: String) -> (r: Option<Decimal>)
        ensures
            r is Some <==> is_numeral(text@),
            r matches Some(d) ==> d@ == text@,
    {
        if check_numeral(text.as_str()) {
            Some(Decimal { text })
        } else {
            None
        }
    }

    /// The numeral's text, which is always a numeral.
    pub fn as_str(&self) -> (r: &str)
        ensures
            r@ == self@,
            is_numeral(r@),
    {
        proof {
            use_type_invariant(self);
        }
        self.text.as_str()
    }

}

impl Clone for Decimal {
    fn clone(&self) -> (r: Self)
        ensures
            r@ == self@,
    {
        proof {
            use_type_invariant(self);
        }
        Decimal { text: self.text.clone() }
    }
}

} // verus!
