use stepwise::arithmetic;
use stepwise::boolean;
use stepwise::error::EvalError;
use stepwise::expr::{as_bool, as_num, count_ops, BinaryOp, Expr, UnaryOp, Value};
use stepwise::path::{expr_at_path, path_in_subtree, paths_equal, splice, PathStep};
use stepwise::reduce::{
    build_steps, eval_expr, eval_reducible, evaluate_fully, find_reducible, is_reducible,
    reduce_at,
};

fn un(op: UnaryOp, e: Expr) -> Expr {
    Expr::Unary(op, Box::new(e))
}

fn bin(op: BinaryOp, l: Expr, r: Expr) -> Expr {
    Expr::Binary(op, Box::new(l), Box::new(r))
}

#[test]
fn boolean_expression_reduces_inside_out() {
    let expr = boolean::parse_expression("not (true and false) or true").unwrap();
    let steps = build_steps(expr).unwrap();
    assert_eq!(steps.len(), 4);
    assert_eq!(steps[0].highlight, Some(vec![PathStep::Left, PathStep::Unary]));
    assert_eq!(
        steps[1].expr,
        bin(BinaryOp::Or, un(UnaryOp::Not, Expr::boolean(false)), Expr::boolean(true))
    );
    assert_eq!(steps[1].highlight, Some(vec![PathStep::Left]));
    assert_eq!(
        steps[2].expr,
        bin(BinaryOp::Or, Expr::boolean(true), Expr::boolean(true))
    );
    assert_eq!(steps[2].highlight, Some(vec![]));
    assert_eq!(steps[3].expr, Expr::boolean(true));
    assert_eq!(steps[3].highlight, None);
}

#[test]
fn arithmetic_expression_reduces_inside_out() {
    let expr = arithmetic::parse_expression("(3 * 2) + 2").unwrap();
    let steps = build_steps(expr.clone()).unwrap();
    assert_eq!(steps.len(), 3);
    assert_eq!(steps[0].highlight, Some(vec![PathStep::Left]));
    assert_eq!(steps[1].expr, bin(BinaryOp::Add, Expr::num(6), Expr::num(2)));
    assert_eq!(steps[1].highlight, Some(vec![]));
    assert_eq!(steps[2].expr, Expr::num(8));
    assert_eq!(steps[2].highlight, None);
    assert_eq!(evaluate_fully(expr.clone()), Ok(Value::Num(8)));
    assert_eq!(eval_expr(&expr), Ok(Value::Num(8)));
}

#[test]
fn addition_past_the_largest_number_overflows() {
    let expr = arithmetic::parse_expression("9223372036854775807 + 1").unwrap();
    assert_eq!(find_reducible(&expr), Some(vec![]));
    assert_eq!(reduce_at(expr.clone(), &[]), Err(EvalError::Overflow));
    assert_eq!(build_steps(expr.clone()).unwrap_err(), EvalError::Overflow);
    assert_eq!(evaluate_fully(expr.clone()), Err(EvalError::Overflow));
    assert_eq!(eval_expr(&expr), Err(EvalError::Overflow));
}

#[test]
fn every_operator_detects_overflow() {
    let min = Expr::num(i64::MIN);
    assert_eq!(eval_reducible(&un(UnaryOp::Neg, min.clone())), Err(EvalError::Overflow));
    assert_eq!(
        eval_reducible(&bin(BinaryOp::Sub, min.clone(), Expr::num(1))),
        Err(EvalError::Overflow)
    );
    assert_eq!(
        eval_reducible(&bin(BinaryOp::Mul, Expr::num(i64::MAX), Expr::num(2))),
        Err(EvalError::Overflow)
    );
    assert_eq!(
        eval_reducible(&bin(BinaryOp::Add, Expr::num(i64::MAX), Expr::num(-1))),
        Ok(Value::Num(i64::MAX - 1))
    );
    assert_eq!(eval_reducible(&un(UnaryOp::Neg, Expr::num(5))), Ok(Value::Num(-5)));
    assert_eq!(
        eval_reducible(&bin(BinaryOp::Mul, Expr::num(-4), Expr::num(6))),
        Ok(Value::Num(-24))
    );
}

#[test]
fn bare_literal_is_a_single_frame() {
    let steps = build_steps(boolean::parse_expression("true").unwrap()).unwrap();
    assert_eq!(steps.len(), 1);
    assert_eq!(steps[0].expr, Expr::boolean(true));
    assert_eq!(steps[0].highlight, None);
    let steps = build_steps(arithmetic::parse_expression("5").unwrap()).unwrap();
    assert_eq!(steps.len(), 1);
    assert_eq!(steps[0].expr, Expr::num(5));
    assert_eq!(steps[0].highlight, None);
    assert_eq!(evaluate_fully(Expr::num(5)), Ok(Value::Num(5)));
}

#[test]
fn reducing_a_literal_changes_nothing() {
    assert_eq!(find_reducible(&Expr::num(5)), None);
    assert_eq!(reduce_at(Expr::num(5), &[]), Ok(Expr::num(5)));
    assert_eq!(reduce_at(Expr::boolean(false), &[]), Ok(Expr::boolean(false)));
}

#[test]
fn find_reducible_gives_the_same_path_each_time() {
    let expr = arithmetic::parse_expression("(1 + 2) * (3 - 4)").unwrap();
    let first = find_reducible(&expr);
    let second = find_reducible(&expr);
    assert_eq!(first, second);
    assert_eq!(first, Some(vec![PathStep::Left]));
    let same_shape = arithmetic::parse_expression("(7 * 7) - (9 + 9)").unwrap();
    assert_eq!(find_reducible(&same_shape), first);
}

#[test]
fn left_operand_is_reduced_before_the_right() {
    let expr = arithmetic::parse_expression("(1 + 2) * (3 - 4)").unwrap();
    let steps = build_steps(expr).unwrap();
    assert_eq!(steps.len(), 4);
    assert_eq!(steps[0].highlight, Some(vec![PathStep::Left]));
    assert_eq!(steps[1].highlight, Some(vec![PathStep::Right]));
    assert_eq!(steps[2].highlight, Some(vec![]));
    assert_eq!(steps[3].expr, Expr::num(-3));
}

#[test]
fn unary_operator_waits_for_its_operand() {
    let expr = boolean::parse_expression("not (true or false)").unwrap();
    assert!(!is_reducible(&expr));
    assert_eq!(find_reducible(&expr), Some(vec![PathStep::Unary]));
    assert_eq!(reduce_at(expr.clone(), &[]), Err(EvalError::ExpectedBoolean));
    let next = reduce_at(expr, &[PathStep::Unary]).unwrap();
    assert!(is_reducible(&next));
    assert_eq!(next, un(UnaryOp::Not, Expr::boolean(true)));
}

#[test]
fn steps_are_one_more_than_operators() {
    let expr = arithmetic::parse_expression("-(1 + 2) * 3 - 4 * (5 + 6)").unwrap();
    let ops = count_ops(&expr);
    assert_eq!(ops, 6);
    let steps = build_steps(expr).unwrap();
    assert_eq!(steps.len(), ops + 1);
    assert_eq!(steps[ops].expr, Expr::num(-53));
}

#[test]
fn path_that_does_not_fit_is_invalid() {
    let expr = boolean::parse_expression("not true").unwrap();
    assert_eq!(reduce_at(expr.clone(), &[PathStep::Left]), Err(EvalError::InvalidPath));
    assert_eq!(
        reduce_at(expr.clone(), &[PathStep::Unary, PathStep::Unary]),
        Err(EvalError::InvalidPath)
    );
    assert!(expr_at_path(&expr, &[PathStep::Left]).is_none());
    assert_eq!(expr_at_path(&expr, &[PathStep::Unary]), Some(&Expr::boolean(true)));
    assert_eq!(expr_at_path(&expr, &[]), Some(&expr));
    assert_eq!(
        splice(expr.clone(), &[PathStep::Right], Expr::boolean(false)),
        Err(EvalError::InvalidPath)
    );
}

#[test]
fn splice_replaces_the_node_at_the_path() {
    let expr = arithmetic::parse_expression("(1 + 2) * 3").unwrap();
    let got = splice(expr, &[PathStep::Left, PathStep::Right], Expr::num(9)).unwrap();
    assert_eq!(got, arithmetic::parse_expression("(1 + 9) * 3").unwrap());
    assert_eq!(splice(Expr::num(1), &[], Expr::num(2)), Ok(Expr::num(2)));
}

#[test]
fn operand_of_the_wrong_domain_is_an_error() {
    assert_eq!(
        eval_reducible(&un(UnaryOp::Not, Expr::num(1))),
        Err(EvalError::ExpectedBoolean)
    );
    assert_eq!(
        eval_reducible(&bin(BinaryOp::Add, Expr::num(1), Expr::boolean(true))),
        Err(EvalError::ExpectedNumber)
    );
    assert_eq!(
        eval_expr(&bin(BinaryOp::And, Expr::boolean(false), Expr::num(1))),
        Err(EvalError::ExpectedBoolean)
    );
}

#[test]
fn literals_are_told_apart() {
    assert_eq!(as_bool(&Expr::boolean(true)), Some(true));
    assert_eq!(as_bool(&Expr::num(1)), None);
    assert_eq!(as_num(&Expr::num(7)), Some(7));
    assert_eq!(as_num(&Expr::boolean(false)), None);
    assert!(Expr::num(7).is_literal());
    assert!(!un(UnaryOp::Neg, Expr::num(7)).is_literal());
}

#[test]
fn paths_compare_by_their_steps() {
    assert!(paths_equal(&[PathStep::Left, PathStep::Unary], &[PathStep::Left, PathStep::Unary]));
    assert!(!paths_equal(&[PathStep::Left], &[PathStep::Right]));
    assert!(!paths_equal(&[PathStep::Left], &[PathStep::Left, PathStep::Left]));
    assert!(path_in_subtree(&[PathStep::Left, PathStep::Unary], &[PathStep::Left]));
    assert!(path_in_subtree(&[PathStep::Left], &[PathStep::Left]));
    assert!(path_in_subtree(&[PathStep::Left], &[]));
    assert!(!path_in_subtree(&[PathStep::Left], &[PathStep::Left, PathStep::Unary]));
    assert!(!path_in_subtree(&[PathStep::Right, PathStep::Unary], &[PathStep::Left]));
}
