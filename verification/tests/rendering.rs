use stepwise::arithmetic;
use stepwise::boolean;
use stepwise::error::{EvalError, ParseError, ParseErrorKind};
use stepwise::expr::{BinaryOp, Expr, UnaryOp};
use stepwise::path::PathStep;
use stepwise::reduce::{eval_expr, evaluate_fully};
use stepwise::render::{expr_to_string, render_expr, render_expr_with_highlight};
use stepwise::text::{push_decimal, push_signed};

fn un(op: UnaryOp, e: Expr) -> Expr {
    Expr::Unary(op, Box::new(e))
}

fn bin(op: BinaryOp, l: Expr, r: Expr) -> Expr {
    Expr::Binary(op, Box::new(l), Box::new(r))
}

#[test]
fn boolean_text_has_parentheses_round_binary_operators() {
    let expr = boolean::parse_expression("not (true and false) or true").unwrap();
    assert_eq!(expr_to_string(&expr), "(not (true and false) or true)");
    assert_eq!(expr_to_string(&Expr::boolean(false)), "false");
}

#[test]
fn arithmetic_text_has_parentheses_round_every_operator() {
    let expr = arithmetic::parse_expression("-(4 + 1) * 3 - 2").unwrap();
    assert_eq!(expr_to_string(&expr), "(((-(4 + 1)) * 3) - 2)");
    assert_eq!(expr_to_string(&Expr::num(-17)), "-17");
    assert_eq!(expr_to_string(&Expr::num(0)), "0");
    assert_eq!(expr_to_string(&Expr::num(i64::MAX)), "9223372036854775807");
    assert_eq!(expr_to_string(&Expr::num(i64::MIN)), "-9223372036854775808");
}

#[test]
fn numbers_are_written_in_decimal() {
    let mut out = String::from("n=");
    push_decimal(&mut out, 0);
    push_decimal(&mut out, 907);
    push_signed(&mut out, -45);
    push_decimal(&mut out, u128::MAX);
    assert_eq!(out, "n=0907-45340282366920938463463374607431768211455");
}

#[test]
fn highlight_is_the_place_of_the_node_in_the_text() {
    let expr = boolean::parse_expression("not (true and false) or true").unwrap();
    let (text, ranges) =
        render_expr_with_highlight(&expr, Some(&[PathStep::Left, PathStep::Unary]));
    assert_eq!(text, "(not (true and false) or true)");
    assert_eq!(ranges, vec![5..21]);
    assert_eq!(&text[5..21], "(true and false)");
    let (_, ranges) = render_expr_with_highlight(&expr, Some(&[PathStep::Right]));
    assert_eq!(ranges, vec![25..29]);
    let (_, ranges) = render_expr_with_highlight(&expr, Some(&[]));
    assert_eq!(ranges, vec![0..30]);
}

#[test]
fn highlight_of_a_path_that_does_not_fit_is_empty() {
    let expr = arithmetic::parse_expression("(3 * 2) + 2").unwrap();
    let (text, ranges) = render_expr_with_highlight(&expr, Some(&[PathStep::Unary]));
    assert_eq!(text, "((3 * 2) + 2)");
    assert!(ranges.is_empty());
    let (_, ranges) = render_expr_with_highlight(
        &expr,
        Some(&[PathStep::Right, PathStep::Left]),
    );
    assert!(ranges.is_empty());
    let (_, ranges) = render_expr_with_highlight(&expr, None);
    assert!(ranges.is_empty());
}

#[test]
fn render_appends_to_what_is_there() {
    let expr = arithmetic::parse_expression("1 - -2").unwrap();
    let mut out = String::from("x = ");
    let mut range = None;
    render_expr(&expr, &[PathStep::Right], true, &mut out, &mut range);
    assert_eq!(out, "x = (1 - (-2))");
    assert_eq!(range, Some(9..13));
    let mut kept = Some(1..2);
    render_expr(&expr, &[PathStep::Right], false, &mut out, &mut kept);
    assert_eq!(kept, Some(1..2));
}

#[test]
fn range_counts_the_bytes_of_what_is_there() {
    let expr = arithmetic::parse_expression("1 - -2").unwrap();
    let mut out = String::from("\u{e9}\u{2190} ");
    assert_eq!(out.len(), 6);
    let mut range = None;
    render_expr(&expr, &[PathStep::Left], true, &mut out, &mut range);
    assert_eq!(out, "\u{e9}\u{2190} (1 - (-2))");
    assert_eq!(range, Some(7..8));
    assert_eq!(&out[7..8], "1");
}

#[test]
fn boolean_text_reads_back_as_the_same_tree() {
    let trees = [
        Expr::boolean(true),
        un(UnaryOp::Not, un(UnaryOp::Not, Expr::boolean(false))),
        bin(
            BinaryOp::And,
            bin(BinaryOp::Or, Expr::boolean(true), un(UnaryOp::Not, Expr::boolean(true))),
            un(UnaryOp::Not, bin(BinaryOp::And, Expr::boolean(false), Expr::boolean(true))),
        ),
    ];
    for tree in trees {
        let text = expr_to_string(&tree);
        assert_eq!(boolean::parse_expression(&text), Ok(tree));
    }
}

#[test]
fn arithmetic_text_reads_back_with_the_same_value() {
    let trees = [
        Expr::num(12),
        Expr::num(-12),
        un(UnaryOp::Neg, Expr::num(-3)),
        bin(
            BinaryOp::Sub,
            bin(BinaryOp::Mul, Expr::num(-4), Expr::num(6)),
            un(UnaryOp::Neg, bin(BinaryOp::Add, Expr::num(1), Expr::num(-9))),
        ),
        bin(BinaryOp::Add, Expr::num(i64::MAX), Expr::num(1)),
    ];
    for tree in trees {
        let text = expr_to_string(&tree);
        let read = arithmetic::parse_expression(&text).unwrap();
        assert_eq!(eval_expr(&read), eval_expr(&tree));
        assert_eq!(evaluate_fully(read), evaluate_fully(tree));
    }
}

#[test]
fn negative_number_reads_back_as_a_negation() {
    let text = expr_to_string(&Expr::num(-5));
    assert_eq!(
        arithmetic::parse_expression(&text),
        Ok(un(UnaryOp::Neg, Expr::num(5)))
    );
}

#[test]
fn smallest_integer_does_not_read_back() {
    let text = expr_to_string(&Expr::num(i64::MIN));
    let err = arithmetic::parse_expression(&text).unwrap_err();
    assert_eq!(err.kind, ParseErrorKind::NumberTooLarge);
}

#[test]
fn parse_errors_have_messages() {
    let err = ParseError { kind: ParseErrorKind::UnexpectedInput, offset: 4 };
    assert_eq!(err.message(), "Unexpected input at position 5");
    let err = ParseError { kind: ParseErrorKind::ExpectedClosingParen, offset: 9 };
    assert_eq!(err.message(), "Expected ')' at position 10");
    let err = boolean::parse_expression("andy").unwrap_err();
    assert_eq!(err.message(), "Expected true/false at position 1");
    let err = arithmetic::parse_expression("2 * x").unwrap_err();
    assert_eq!(err.message(), "Expected a number at position 5");
    let err = arithmetic::parse_expression("99999999999999999999").unwrap_err();
    assert_eq!(err.message(), "Number too large at position 19");
}

#[test]
fn eval_errors_have_messages() {
    assert_eq!(EvalError::Overflow.message(), "Overflow");
    assert_eq!(EvalError::ExpectedBoolean.message(), "Expected a boolean");
    assert_eq!(EvalError::ExpectedNumber.message(), "Expected a number");
    assert_eq!(EvalError::InvalidPath.message(), "Invalid path");
}
