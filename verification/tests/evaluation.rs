use arith_expr::{parse, render, tokenize, BinaryKind, ExpressionNode};

fn value_of(node: &ExpressionNode) -> f64 {
    match node {
        ExpressionNode::Literal(d) => d.as_str().parse::<f64>().unwrap(),
        ExpressionNode::BinaryOp(kind, left, right) => {
            let l = value_of(left);
            let r = value_of(right);
            match kind {
                BinaryKind::Add => l + r,
                BinaryKind::Sub => l - r,
                BinaryKind::Mul => l * r,
                BinaryKind::Div => l / r,
                BinaryKind::Pow => l.powf(r),
            }
        }
        ExpressionNode::Grouped(inner) => value_of(inner),
    }
}

fn read(text: &str) -> ExpressionNode {
    parse(&tokenize(text).unwrap()).unwrap()
}

fn survives_round_trip(text: &str) {
    let tree = read(text);
    let again = read(&render(&tree));
    assert_eq!(again, tree);
    let a = value_of(&tree);
    let b = value_of(&again);
    assert!(a == b || (a.is_nan() && b.is_nan()));
}

#[test]
fn a_subtraction_chain_nests_to_the_right() {
    assert_eq!(value_of(&read("8-3-2")), 7.0);
    assert_eq!(render(&read("8-3-2")), "8-3-2");
}

#[test]
fn multiplication_binds_tighter_than_addition() {
    assert_eq!(value_of(&read("2+3*4")), 14.0);
    assert_eq!(value_of(&read("2*3+4")), 10.0);
}

#[test]
fn an_exponent_chain_nests_to_the_right() {
    assert_eq!(value_of(&read("2^3^2")), 512.0);
}

#[test]
fn a_group_is_evaluated_first() {
    assert_eq!(value_of(&read("(2+3)*4")), 20.0);
    assert_eq!(value_of(&read("8-(3-2)")), 7.0);
    assert_eq!(value_of(&read("(8-3)-2")), 3.0);
    assert_eq!(value_of(&read("(2^3)^2")), 64.0);
}

#[test]
fn round_trip_of_a_single_literal() {
    survives_round_trip("42");
    survives_round_trip("0.125");
    survives_round_trip(" 7 \n");
}

#[test]
fn round_trip_of_one_operation() {
    survives_round_trip("1+2");
    survives_round_trip("9-4");
    survives_round_trip("3*5");
    survives_round_trip("1/8");
    survives_round_trip("2^10");
}

#[test]
fn round_trip_of_groups_three_deep() {
    survives_round_trip("(((1+2)*3)-4)");
    survives_round_trip("[{<1.5>/2}^3]+4");
    survives_round_trip("2*(3+(4-(5/6)))");
}

#[test]
fn round_trip_of_what_was_read_in_part() {
    survives_round_trip("1a2");
    survives_round_trip("1(2)3");
    survives_round_trip("8-3-2");
    survives_round_trip("1/0");
}

#[test]
fn round_trip_keeps_the_value() {
    assert_eq!(value_of(&read(&render(&read("(2+3)*4")))), 20.0);
    assert_eq!(value_of(&read(&render(&read("2+3*4")))), 14.0);
    assert_eq!(value_of(&read(&render(&read("6/(1+2)")))), 2.0);
}
