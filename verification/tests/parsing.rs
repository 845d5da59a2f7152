use dist_rust_buted::expression::{ExpressionTreeNode, Operator};
use dist_rust_buted::parse::parse;

fn val(n: &ExpressionTreeNode) -> i64 {
    match n {
        ExpressionTreeNode::Val(v) => *v,
        _ => panic!("expected a literal leaf"),
    }
}

#[test]
fn parse_simple_add() {
    let tree = parse("+ 1 5").unwrap();
    match tree {
        ExpressionTreeNode::Expr(e) => {
            assert!(matches!(e.operator, Operator::Add));
            assert_eq!(e.children.len(), 2);
            assert_eq!(val(&e.children[0]), 1);
            assert_eq!(val(&e.children[1]), 5);
        }
        _ => panic!("expected an interior node"),
    }
}

#[test]
fn parse_nested_both_positions() {
    let tree = parse("+ * 2 3 - 10 4").unwrap();
    match tree {
        ExpressionTreeNode::Expr(e) => {
            assert!(matches!(e.operator, Operator::Add));
            match &e.children[0] {
                ExpressionTreeNode::Expr(l) => {
                    assert!(matches!(l.operator, Operator::Mul));
                    assert_eq!(val(&l.children[0]), 2);
                    assert_eq!(val(&l.children[1]), 3);
                }
                _ => panic!("expected a nested left child"),
            }
            match &e.children[1] {
                ExpressionTreeNode::Expr(r) => {
                    assert!(matches!(r.operator, Operator::Sub));
                    assert_eq!(val(&r.children[0]), 10);
                    assert_eq!(val(&r.children[1]), 4);
                }
                _ => panic!("expected a nested right child"),
            }
        }
        _ => panic!("expected an interior node"),
    }
}

#[test]
fn parse_single_literal() {
    assert_eq!(val(&parse("42").unwrap()), 42);
}

#[test]
fn parse_negative_literal() {
    assert_eq!(val(&parse("-5").unwrap()), -5);
}

#[test]
fn parse_plus_signed_literal() {
    assert_eq!(val(&parse("+5").unwrap()), 5);
}

#[test]
fn parse_leading_zeros() {
    assert_eq!(val(&parse("007").unwrap()), 7);
}

#[test]
fn parse_extreme_literals() {
    assert_eq!(val(&parse("9223372036854775807").unwrap()), i64::MAX);
    assert_eq!(val(&parse("-9223372036854775808").unwrap()), i64::MIN);
}

#[test]
fn parse_out_of_range_literal() {
    assert!(parse("9223372036854775808").is_none());
    assert!(parse("-9223372036854775809").is_none());
    assert!(parse("184467440737095516150").is_none());
}

#[test]
fn parse_empty_is_malformed() {
    assert!(parse("").is_none());
    assert!(parse("   ").is_none());
}

#[test]
fn parse_leftover_tokens_malformed() {
    assert!(parse("1 2").is_none());
    assert!(parse("+ 1 5 7").is_none());
}

#[test]
fn parse_missing_operand_malformed() {
    assert!(parse("+ 1").is_none());
    assert!(parse("+").is_none());
}

#[test]
fn parse_unknown_token_malformed() {
    assert!(parse("x").is_none());
    assert!(parse("+ 1 y").is_none());
    assert!(parse("1.5").is_none());
    assert!(parse("--3").is_none());
}

#[test]
fn parse_handles_mixed_whitespace() {
    let tree = parse(" \t+ \n1\r 5 ").unwrap();
    match tree {
        ExpressionTreeNode::Expr(e) => {
            assert!(matches!(e.operator, Operator::Add));
            assert_eq!(val(&e.children[0]), 1);
            assert_eq!(val(&e.children[1]), 5);
        }
        _ => panic!("expected an interior node"),
    }
}

#[test]
fn operators_are_binary() {
    assert!(Operator::Add.is_binary());
    assert!(Operator::Sub.is_binary());
    assert!(Operator::Mul.is_binary());
    assert!(Operator::Div.is_binary());
}
