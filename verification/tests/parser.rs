use arith_expr::{parse, tokenize, BinaryKind, Decimal, ExpressionNode, StructuralError, Token};

fn leaf(text: &str) -> ExpressionNode {
    ExpressionNode::Literal(Decimal::new(text).unwrap())
}

fn branch(kind: BinaryKind, left: ExpressionNode, right: ExpressionNode) -> ExpressionNode {
    ExpressionNode::BinaryOp(kind, Box::new(left), Box::new(right))
}

fn grouped(inner: ExpressionNode) -> ExpressionNode {
    ExpressionNode::Grouped(Box::new(inner))
}

fn tree_of(text: &str) -> Result<ExpressionNode, StructuralError> {
    parse(&tokenize(text).unwrap())
}

#[test]
fn a_numeral_alone_is_a_literal() {
    assert_eq!(tree_of("42"), Ok(leaf("42")));
}

#[test]
fn one_operator_splits_the_sequence() {
    assert_eq!(tree_of("1+2"), Ok(branch(BinaryKind::Add, leaf("1"), leaf("2"))));
    assert_eq!(tree_of("1-2"), Ok(branch(BinaryKind::Sub, leaf("1"), leaf("2"))));
    assert_eq!(tree_of("1*2"), Ok(branch(BinaryKind::Mul, leaf("1"), leaf("2"))));
    assert_eq!(tree_of("1/2"), Ok(branch(BinaryKind::Div, leaf("1"), leaf("2"))));
    assert_eq!(tree_of("1^2"), Ok(branch(BinaryKind::Pow, leaf("1"), leaf("2"))));
}

#[test]
fn the_loosest_operator_is_the_root() {
    assert_eq!(
        tree_of("2+3*4"),
        Ok(branch(BinaryKind::Add, leaf("2"), branch(BinaryKind::Mul, leaf("3"), leaf("4"))))
    );
    assert_eq!(
        tree_of("2*3+4"),
        Ok(branch(BinaryKind::Add, branch(BinaryKind::Mul, leaf("2"), leaf("3")), leaf("4")))
    );
    assert_eq!(
        tree_of("2*3^4"),
        Ok(branch(BinaryKind::Mul, leaf("2"), branch(BinaryKind::Pow, leaf("3"), leaf("4"))))
    );
    assert_eq!(
        tree_of("2^3/4"),
        Ok(branch(BinaryKind::Div, branch(BinaryKind::Pow, leaf("2"), leaf("3")), leaf("4")))
    );
}

#[test]
fn the_first_of_equal_rank_is_the_root() {
    assert_eq!(
        tree_of("8-3-2"),
        Ok(branch(BinaryKind::Sub, leaf("8"), branch(BinaryKind::Sub, leaf("3"), leaf("2"))))
    );
    assert_eq!(
        tree_of("8-3+2"),
        Ok(branch(BinaryKind::Sub, leaf("8"), branch(BinaryKind::Add, leaf("3"), leaf("2"))))
    );
    assert_eq!(
        tree_of("8/4*2"),
        Ok(branch(BinaryKind::Div, leaf("8"), branch(BinaryKind::Mul, leaf("4"), leaf("2"))))
    );
    assert_eq!(
        tree_of("2^3^2"),
        Ok(branch(BinaryKind::Pow, leaf("2"), branch(BinaryKind::Pow, leaf("3"), leaf("2"))))
    );
}

#[test]
fn a_group_is_parsed_on_its_own() {
    assert_eq!(
        tree_of("(2+3)*4"),
        Ok(branch(
            BinaryKind::Mul,
            grouped(branch(BinaryKind::Add, leaf("2"), leaf("3"))),
            leaf("4")
        ))
    );
    assert_eq!(tree_of("(7)"), Ok(grouped(leaf("7"))));
    assert_eq!(tree_of("[[7]]"), Ok(grouped(grouped(leaf("7")))));
}

#[test]
fn empty_input_is_a_structural_error() {
    assert_eq!(parse(&[]), Err(StructuralError::EmptySequence));
    assert_eq!(tree_of(""), Err(StructuralError::EmptySequence));
    assert_eq!(tree_of("   "), Err(StructuralError::EmptySequence));
    assert_eq!(tree_of("\n"), Err(StructuralError::EmptySequence));
}

#[test]
fn a_lone_operator_is_a_structural_error() {
    assert_eq!(tree_of("+"), Err(StructuralError::EmptySequence));
    assert_eq!(tree_of("-"), Err(StructuralError::EmptySequence));
    assert_eq!(tree_of("*"), Err(StructuralError::EmptySequence));
    assert_eq!(tree_of("/"), Err(StructuralError::EmptySequence));
    assert_eq!(tree_of("^"), Err(StructuralError::EmptySequence));
}

#[test]
fn a_missing_operand_is_a_structural_error() {
    assert_eq!(tree_of("1+"), Err(StructuralError::EmptySequence));
    assert_eq!(tree_of("+1"), Err(StructuralError::EmptySequence));
    assert_eq!(tree_of("1+*2"), Err(StructuralError::EmptySequence));
    assert_eq!(tree_of("-3"), Err(StructuralError::EmptySequence));
}

#[test]
fn an_empty_group_is_a_structural_error() {
    assert_eq!(tree_of("()"), Err(StructuralError::EmptySequence));
    assert_eq!(tree_of("1+()"), Err(StructuralError::EmptySequence));
    assert_eq!(tree_of("((()))"), Err(StructuralError::EmptySequence));
}

#[test]
fn without_an_operator_the_first_group_is_taken() {
    assert_eq!(tree_of("1(2)3"), Ok(grouped(leaf("2"))));
    assert_eq!(tree_of("(1)(2)"), Ok(grouped(leaf("1"))));
}

#[test]
fn without_operator_or_group_the_first_numeral_is_taken() {
    assert_eq!(tree_of("1a2"), Ok(leaf("1")));
}

#[test]
fn parse_takes_tokens_built_by_hand() {
    let tokens = vec![
        Token::Number(Decimal::new("1").unwrap()),
        Token::Slash,
        Token::Group(vec![
            Token::Number(Decimal::new("2").unwrap()),
            Token::Caret,
            Token::Number(Decimal::new("3").unwrap()),
        ]),
    ];
    assert_eq!(
        parse(&tokens),
        Ok(branch(
            BinaryKind::Div,
            leaf("1"),
            grouped(branch(BinaryKind::Pow, leaf("2"), leaf("3")))
        ))
    );
}

#[test]
fn a_cloned_tree_is_equal() {
    let tree = tree_of("1+(2*[3-4])^5").unwrap();
    assert_eq!(tree.clone(), tree);
}
