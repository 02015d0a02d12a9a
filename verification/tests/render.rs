use arith_expr::{
    delex, deparse, parse, render, tokenize, BinaryKind, Decimal, ExpressionNode, Token,
};

fn written_number(text: &str) -> Token {
    Token::Number(Decimal::new(text).unwrap())
}

fn written_leaf(text: &str) -> ExpressionNode {
    ExpressionNode::Literal(Decimal::new(text).unwrap())
}

fn read_back(text: &str) -> ExpressionNode {
    parse(&tokenize(text).unwrap()).unwrap()
}

#[test]
fn deparse_of_a_literal_is_its_numeral() {
    assert_eq!(deparse(&written_leaf("1.5")), vec![written_number("1.5")]);
}

#[test]
fn deparse_puts_the_operator_between_its_sides() {
    let tree = ExpressionNode::BinaryOp(
        BinaryKind::Sub,
        Box::new(written_leaf("8")),
        Box::new(ExpressionNode::BinaryOp(
            BinaryKind::Mul,
            Box::new(written_leaf("3")),
            Box::new(written_leaf("2")),
        )),
    );
    assert_eq!(
        deparse(&tree),
        vec![
            written_number("8"),
            Token::Minus,
            written_number("3"),
            Token::Star,
            written_number("2"),
        ]
    );
}

#[test]
fn deparse_writes_each_operation_with_its_operator() {
    let pairs = [
        (BinaryKind::Add, Token::Plus),
        (BinaryKind::Sub, Token::Minus),
        (BinaryKind::Mul, Token::Star),
        (BinaryKind::Div, Token::Slash),
        (BinaryKind::Pow, Token::Caret),
    ];
    for (kind, token) in pairs {
        let one = Box::new(written_leaf("1"));
        let two = Box::new(written_leaf("2"));
        let tree = ExpressionNode::BinaryOp(kind, one, two);
        assert_eq!(deparse(&tree), vec![written_number("1"), token, written_number("2")]);
    }
}

#[test]
fn deparse_of_a_grouped_node_is_one_group() {
    let tree = ExpressionNode::Grouped(Box::new(ExpressionNode::BinaryOp(
        BinaryKind::Add,
        Box::new(written_leaf("1")),
        Box::new(written_leaf("2")),
    )));
    assert_eq!(
        deparse(&tree),
        vec![Token::Group(vec![written_number("1"), Token::Plus, written_number("2")])]
    );
}

#[test]
fn deparse_adds_no_brackets() {
    let tree = ExpressionNode::BinaryOp(
        BinaryKind::Mul,
        Box::new(ExpressionNode::BinaryOp(
            BinaryKind::Add,
            Box::new(written_leaf("1")),
            Box::new(written_leaf("2")),
        )),
        Box::new(written_leaf("3")),
    );
    assert_eq!(render(&tree), "1+2*3");
}

#[test]
fn delex_writes_each_token() {
    let tokens = vec![
        written_number("1"),
        Token::Plus,
        written_number("2"),
        Token::Minus,
        written_number("3"),
        Token::Star,
        written_number("4"),
        Token::Slash,
        written_number("5"),
        Token::Caret,
        written_number("6"),
    ];
    assert_eq!(delex(&tokens), "1+2-3*4/5^6");
}

#[test]
fn delex_of_nothing_is_empty() {
    assert_eq!(delex(&[]), "");
    assert_eq!(delex(&[Token::Group(vec![])]), "()");
}

#[test]
fn delex_writes_groups_in_round_brackets() {
    let tokens = tokenize("[1+{2*<3>}]").unwrap();
    assert_eq!(delex(&tokens), "(1+(2*(3)))");
}

#[test]
fn render_writes_a_numeral_as_it_is_held() {
    assert_eq!(render(&read_back("2.50")), "2.50");
    assert_eq!(render(&read_back(".5+5.")), ".5+5.");
}

#[test]
fn render_drops_spaces_and_ignored_characters() {
    assert_eq!(render(&read_back(" 1 + 2 \n")), "1+2");
    assert_eq!(render(&read_back("1 + x 2")), "1+2");
}

#[test]
fn render_keeps_the_groups_of_the_input() {
    assert_eq!(render(&read_back("(2+3)*4")), "(2+3)*4");
    assert_eq!(render(&read_back("2+(3*4)")), "2+(3*4)");
    assert_eq!(render(&read_back("[(2)]")), "((2))");
}

#[test]
fn render_is_delex_of_deparse() {
    let tree = read_back("1+(2-3)*4/5^6");
    assert_eq!(render(&tree), delex(&deparse(&tree)));
    assert_eq!(render(&tree), "1+(2-3)*4/5^6");
}

#[test]
fn deparse_undoes_parse_on_an_expression() {
    for text in ["7", "1+2", "8-3-2", "2^3^2", "(2+3)*4", "1+(2-3)*4/5^6", "((1))"] {
        let tokens = tokenize(text).unwrap();
        assert_eq!(deparse(&parse(&tokens).unwrap()), tokens);
    }
}

#[test]
fn tokenize_undoes_delex() {
    for text in ["7", "1+2", "+", "1+", "()", "(1)(2)", "1.5*(2/[3])", "^^"] {
        let tokens = tokenize(text).unwrap();
        assert_eq!(tokenize(&delex(&tokens)), Ok(tokens));
    }
}
