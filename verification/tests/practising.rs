use stepwise::arithmetic;
use stepwise::boolean;
use stepwise::error::EvalError;
use stepwise::expr::{Expr, Value};
use stepwise::path::PathStep;
use stepwise::practice::{click, Feedback};

#[test]
fn click_on_the_next_node_reduces_it() {
    let expr = boolean::parse_expression("(true or false) and true").unwrap();
    let (expr, feedback) = click(expr, &[PathStep::Left]);
    assert_eq!(feedback, Feedback::Reduced);
    assert_eq!(expr, boolean::parse_expression("true and true").unwrap());
    assert_eq!(feedback.message(), None);
    let (expr, feedback) = click(expr, &[]);
    assert_eq!(feedback, Feedback::Reduced);
    assert_eq!(expr, Expr::boolean(true));
}

#[test]
fn click_on_the_root_before_its_operands_is_too_early() {
    let expr = boolean::parse_expression("(true or false) and true").unwrap();
    let (after, feedback) = click(expr.clone(), &[]);
    assert_eq!(feedback, Feedback::NotYet);
    assert_eq!(after, expr);
    assert_eq!(
        feedback.message().unwrap(),
        "Not yet. Work left-to-right; if there is no deeper expression, move up to the next level."
    );
}

#[test]
fn click_on_a_literal_says_it_has_a_value() {
    let expr = boolean::parse_expression("(true or false) and true").unwrap();
    let (after, feedback) = click(expr.clone(), &[PathStep::Right]);
    assert_eq!(feedback, Feedback::AlreadyValue(Value::Bool(true)));
    assert_eq!(after, expr);
    assert_eq!(feedback.message().unwrap(), "Booleans already have a value.");
    let expr = arithmetic::parse_expression("(1 + 2) * 3").unwrap();
    let (after, feedback) = click(expr.clone(), &[PathStep::Right]);
    assert_eq!(feedback, Feedback::AlreadyValue(Value::Num(3)));
    assert_eq!(after, expr);
    assert_eq!(feedback.message().unwrap(), "Constants already have a value.");
}

#[test]
fn click_on_a_path_that_does_not_fit_is_too_early() {
    let expr = arithmetic::parse_expression("(1 + 2) * 3").unwrap();
    let (after, feedback) = click(expr.clone(), &[PathStep::Unary]);
    assert_eq!(feedback, Feedback::NotYet);
    assert_eq!(after, expr);
}

#[test]
fn click_that_overflows_keeps_the_tree() {
    let expr = arithmetic::parse_expression("9223372036854775807 + 1").unwrap();
    let (after, feedback) = click(expr.clone(), &[]);
    assert_eq!(feedback, Feedback::Failed(EvalError::Overflow));
    assert_eq!(after, expr);
    assert_eq!(feedback.message().unwrap(), "Oops: Overflow");
}

#[test]
fn click_on_a_finished_tree_does_nothing() {
    let (after, feedback) = click(Expr::num(8), &[]);
    assert_eq!(feedback, Feedback::Done);
    assert_eq!(after, Expr::num(8));
    assert_eq!(feedback.message(), None);
}
