use arith_expr::{priority, tokenize, Decimal, FormatError, Token};

fn lexed_number(text: &str) -> Token {
    Token::Number(Decimal::new(text).unwrap())
}

#[test]
fn tokenization_is_deterministic() {
    let text = "2*(3+[4.5-1])^2";
    assert_eq!(tokenize(text), tokenize(text));
    let owned = String::from(text);
    assert_eq!(tokenize(&owned), tokenize(text));
}

#[test]
fn operators_and_numerals() {
    assert_eq!(
        tokenize("8-3-2"),
        Ok(vec![
            lexed_number("8"),
            Token::Minus,
            lexed_number("3"),
            Token::Minus,
            lexed_number("2"),
        ])
    );
}

#[test]
fn each_operator_has_its_token() {
    assert_eq!(
        tokenize("+-*/^"),
        Ok(vec![Token::Plus, Token::Minus, Token::Star, Token::Slash, Token::Caret])
    );
}

#[test]
fn empty_text_has_no_tokens() {
    assert_eq!(tokenize(""), Ok(vec![]));
}

#[test]
fn the_last_numeral_is_closed_by_the_end_of_the_text() {
    assert_eq!(tokenize("42"), Ok(vec![lexed_number("42")]));
    assert_eq!(tokenize("1+2.5"), Ok(vec![lexed_number("1"), Token::Plus, lexed_number("2.5")]));
}

#[test]
fn a_line_end_closes_a_numeral_and_is_ignored() {
    assert_eq!(tokenize("1+2\n"), Ok(vec![lexed_number("1"), Token::Plus, lexed_number("2")]));
}

#[test]
fn spaces_are_skipped() {
    assert_eq!(
        tokenize("  1 +  2 "),
        Ok(vec![lexed_number("1"), Token::Plus, lexed_number("2")])
    );
}

#[test]
fn a_space_does_not_end_a_numeral() {
    assert_eq!(tokenize("1 2"), Ok(vec![lexed_number("12")]));
    assert_eq!(tokenize("1 . 5"), Ok(vec![lexed_number("1.5")]));
}

#[test]
fn other_characters_end_a_numeral_and_are_ignored() {
    assert_eq!(tokenize("1a2"), Ok(vec![lexed_number("1"), lexed_number("2")]));
    assert_eq!(tokenize("x"), Ok(vec![]));
    assert_eq!(tokenize("1\t2"), Ok(vec![lexed_number("1"), lexed_number("2")]));
    assert_eq!(tokenize("2=3"), Ok(vec![lexed_number("2"), lexed_number("3")]));
}

#[test]
fn brackets_become_a_group() {
    assert_eq!(
        tokenize("(1+2)"),
        Ok(vec![Token::Group(vec![lexed_number("1"), Token::Plus, lexed_number("2")])])
    );
}

#[test]
fn a_closing_bracket_closes_the_pending_numeral() {
    assert_eq!(tokenize("(12)"), Ok(vec![Token::Group(vec![lexed_number("12")])]));
}

#[test]
fn an_opening_bracket_closes_the_pending_numeral() {
    assert_eq!(
        tokenize("2(3)"),
        Ok(vec![lexed_number("2"), Token::Group(vec![lexed_number("3")])])
    );
}

#[test]
fn groups_nest() {
    assert_eq!(
        tokenize("((1)+{2*[3]})"),
        Ok(vec![Token::Group(vec![
            Token::Group(vec![lexed_number("1")]),
            Token::Plus,
            Token::Group(vec![
                lexed_number("2"),
                Token::Star,
                Token::Group(vec![lexed_number("3")]),
            ]),
        ])])
    );
}

#[test]
fn an_empty_group_is_a_group() {
    assert_eq!(tokenize("()"), Ok(vec![Token::Group(vec![])]));
}

#[test]
fn closing_bracket_shape_is_ignored() {
    assert_eq!(tokenize("(1+2]"), tokenize("(1+2)"));
    assert_eq!(tokenize("[1+2>"), tokenize("(1+2)"));
    assert_eq!(tokenize("<1+2}"), tokenize("(1+2)"));
    assert_eq!(tokenize("{1+2)"), tokenize("(1+2)"));
}

#[test]
fn the_innermost_group_closes_first() {
    assert_eq!(tokenize("([1+2)*3]"), tokenize("((1+2)*3)"));
    assert_eq!(tokenize("{(1}]"), tokenize("((1))"));
    assert_eq!(
        tokenize("(<1>+2]"),
        Ok(vec![Token::Group(vec![
            Token::Group(vec![lexed_number("1")]),
            Token::Plus,
            lexed_number("2"),
        ])])
    );
}

#[test]
fn all_four_bracket_pairs_group() {
    let expected = Ok(vec![Token::Group(vec![lexed_number("7")])]);
    assert_eq!(tokenize("(7)"), expected);
    assert_eq!(tokenize("[7]"), expected);
    assert_eq!(tokenize("<7>"), expected);
    assert_eq!(tokenize("{7}"), expected);
}

#[test]
fn unmatched_closing_bracket_is_a_format_error() {
    assert_eq!(tokenize(")"), Err(FormatError::UnmatchedClose));
    assert_eq!(tokenize("1+2)"), Err(FormatError::UnmatchedClose));
    assert_eq!(tokenize("(1))"), Err(FormatError::UnmatchedClose));
    assert_eq!(tokenize("]"), Err(FormatError::UnmatchedClose));
}

#[test]
fn unclosed_opening_bracket_is_a_format_error() {
    assert_eq!(tokenize("("), Err(FormatError::UnclosedOpen));
    assert_eq!(tokenize("(1+2"), Err(FormatError::UnclosedOpen));
    assert_eq!(tokenize("((1)"), Err(FormatError::UnclosedOpen));
    assert_eq!(tokenize("(1+2\n"), Err(FormatError::UnclosedOpen));
}

#[test]
fn malformed_numeral_is_a_format_error() {
    assert_eq!(tokenize("1.2.3"), Err(FormatError::MalformedNumber));
    assert_eq!(tokenize("1.2.3+4"), Err(FormatError::MalformedNumber));
    assert_eq!(tokenize("."), Err(FormatError::MalformedNumber));
    assert_eq!(tokenize("(..)"), Err(FormatError::MalformedNumber));
}

#[test]
fn the_first_error_of_the_scan_is_reported() {
    assert_eq!(tokenize("1.2.3)"), Err(FormatError::MalformedNumber));
    assert_eq!(tokenize(")1.2.3"), Err(FormatError::UnmatchedClose));
    assert_eq!(tokenize("(1.2.3"), Err(FormatError::MalformedNumber));
    assert_eq!(tokenize("1)("), Err(FormatError::UnmatchedClose));
}

#[test]
fn ranks_of_the_tokens() {
    assert_eq!(priority(&Token::Plus), 4);
    assert_eq!(priority(&Token::Minus), 4);
    assert_eq!(priority(&Token::Star), 3);
    assert_eq!(priority(&Token::Slash), 3);
    assert_eq!(priority(&Token::Caret), 2);
    assert_eq!(priority(&Token::Group(vec![])), 1);
    assert_eq!(priority(&Token::Group(vec![Token::Plus])), 1);
    assert_eq!(priority(&lexed_number("9")), 0);
}

#[test]
fn a_cloned_token_is_equal() {
    let tokens = tokenize("1+(2*[3-4])").unwrap();
    let copies: Vec<Token> = tokens.iter().map(|t| t.clone()).collect();
    assert_eq!(copies, tokens);
}

#[test]
fn every_digit_is_read() {
    assert_eq!(tokenize("0123456789.0"), Ok(vec![lexed_number("0123456789.0")]));
    assert_eq!(tokenize("9876543210"), Ok(vec![lexed_number("9876543210")]));
}
