//! What holds of every tree: the order of evaluation, its length, and its
//! agreement with evaluation in one pass.

use vstd::prelude::*;
use crate::error::EvalError;
use crate::expr::{Expr, Value};
use crate::path::{child, spliced, subtree_at, PathStep};
use crate::reduce::{
    lemma_next_is_reducible, lemma_no_next_means_literal, lemma_spliced_op_count,
    lemma_step_drops_one_op, lemma_trace_len, normal_form, trace, StepView,
};

verus! {

/// Two trees have the same shape when they differ at most in the values of
/// their literals and in which operator stands at a node.
pub open spec fn same_shape(a: Expr, b: Expr) -> bool
    decreases a,
{
    match (a, b) {
        (Expr::Literal(_), Expr::Literal(_)) => true,
        (Expr::Unary(_, x), Expr::Unary(_, y)) => same_shape(*x, *y),
        (Expr::Binary(_, al, ar), Expr::Binary(_, bl, br)) => same_shape(*al, *bl) && same_shape(
            *ar,
            *br,
        ),
        _ => false,
    }
}

/// The node at `p` is visited before the node at `q` when operands are
/// visited before their operator and the left operand before the right one.
pub open spec fn visited_before(p: Seq<PathStep>, q: Seq<PathStep>) -> bool
    decreases p.len(),
{
    if q.len() == 0 {
        p.len() > 0
    } else if p.len() == 0 {
        false
    } else if p[0] == q[0] {
        visited_before(p.drop_first(), q.drop_first())
    } else {
        p[0] == PathStep::Left && q[0] == PathStep::Right
    }
}

/// The next reducible node depends on the shape of the tree alone: trees of
/// the same shape have the same next reducible path, whatever their literals
/// and operators are. In particular the same tree always gives the same path.
pub proof fn law_next_reducible_depends_on_shape(a: Expr, b: Expr)
    requires
        same_shape(a, b),
    ensures
        a.next_reducible() == b.next_reducible(),
    decreases a,
{
    match (a, b) {
        (Expr::Unary(_, x), Expr::Unary(_, y)) => {
            law_next_reducible_depends_on_shape(*x, *y);
            lemma_no_next_means_literal(*x);
            lemma_no_next_means_literal(*y);
        },
        (Expr::Binary(_, al, ar), Expr::Binary(_, bl, br)) => {
            law_next_reducible_depends_on_shape(*al, *bl);
            law_next_reducible_depends_on_shape(*ar, *br);
            lemma_no_next_means_literal(*al);
            lemma_no_next_means_literal(*bl);
            lemma_no_next_means_literal(*ar);
            lemma_no_next_means_literal(*br);
        },
        _ => {},
    }
}

/// Reduction is inside-out and left before right: the next reducible node
/// is visited before every other reducible node of the tree.
pub proof fn law_next_reducible_comes_first(e: Expr, q: Seq<PathStep>)
    requires
        subtree_at(e, q).is_some(),
        subtree_at(e, q).unwrap().reducible(),
    ensures
        e.next_reducible().is_some(),
        e.next_reducible().unwrap() == q || visited_before(e.next_reducible().unwrap(), q),
    decreases e,
{
    lemma_no_next_means_literal(e);
    match e {
        Expr::Literal(_) => {
            assert(q.len() == 0);
        },
        Expr::Unary(_, inner) => {
            lemma_no_next_means_literal(*inner);
            if q.len() > 0 {
                law_next_reducible_comes_first(*inner, q.drop_first());
                let pi = inner.next_reducible().unwrap();
                let p = e.next_reducible().unwrap();
                assert(p.drop_first() =~= pi);
                if pi == q.drop_first() {
                    assert(p =~= q);
                }
            }
        },
        Expr::Binary(_, left, right) => {
            lemma_no_next_means_literal(*left);
            lemma_no_next_means_literal(*right);
            if q.len() > 0 {
                let p = e.next_reducible().unwrap();
                if q[0] == PathStep::Left {
                    law_next_reducible_comes_first(*left, q.drop_first());
                    let pl = left.next_reducible().unwrap();
                    assert(p.drop_first() =~= pl);
                    if pl == q.drop_first() {
                        assert(p =~= q);
                    }
                } else {
                    law_next_reducible_comes_first(*right, q.drop_first());
                    if left.next_reducible().is_none() {
                        let pr = right.next_reducible().unwrap();
                        assert(p.drop_first() =~= pr);
                        if pr == q.drop_first() {
                            assert(p =~= q);
                        }
                    }
                }
            }
        },
    }
}

/// Wherever the path to the next reducible node turns right, the left
/// operand beside it is already a literal; and nothing below the node that
/// the path leads to is left to reduce.
pub proof fn law_left_of_the_path_is_reduced(e: Expr, k: int)
    requires
        e.next_reducible().is_some(),
        0 <= k < e.next_reducible().unwrap().len(),
        e.next_reducible().unwrap()[k] == PathStep::Right,
    ensures
        ({
            let p = e.next_reducible().unwrap();
            let parent = subtree_at(e, p.subrange(0, k));
            parent matches Some(Expr::Binary(_, left, _)) && *left is Literal
        }),
    decreases e,
{
    let p = e.next_reducible().unwrap();
    match e {
        Expr::Literal(_) => {},
        Expr::Unary(_, inner) => {
            assert(p.drop_first() =~= inner.next_reducible().unwrap());
            assert(k > 0);
            law_left_of_the_path_is_reduced(*inner, k - 1);
            assert(p.subrange(0, k).drop_first() =~= p.drop_first().subrange(0, k - 1));
        },
        Expr::Binary(_, left, right) => {
            lemma_no_next_means_literal(*left);
            if left.next_reducible().is_some() {
                assert(p.drop_first() =~= left.next_reducible().unwrap());
                assert(k > 0);
                law_left_of_the_path_is_reduced(*left, k - 1);
                assert(p.subrange(0, k).drop_first() =~= p.drop_first().subrange(0, k - 1));
            } else {
                assert(p.drop_first() =~= right.next_reducible().unwrap());
                if k > 0 {
                    law_left_of_the_path_is_reduced(*right, k - 1);
                    assert(p.subrange(0, k).drop_first() =~= p.drop_first().subrange(0, k - 1));
                } else {
                    assert(p.subrange(0, 0).len() == 0);
                }
            }
        },
    }
}

/// Every frame of a trace shows the next reducible node of its tree, an
/// operator whose operands are all literals; each frame but the last is
/// followed by the tree after that reduction, and only the last frame, a
/// single literal, shows no node.
pub proof fn law_trace_follows_the_order(e: Expr, i: int)
    requires
        trace(e).is_ok(),
        0 <= i < trace(e).unwrap().len(),
    ensures
        ({
            let fs = trace(e).unwrap();
            &&& fs[0].expr == e
            &&& fs[i].highlight == fs[i].expr.next_reducible()
            &&& fs[i].highlight matches Some(p) ==> (subtree_at(fs[i].expr, p) matches Some(node)
                && node.reducible())
            &&& i + 1 < fs.len() ==> fs[i].highlight.is_some() && fs[i].expr.reduced_at(
                fs[i].highlight.unwrap(),
            ) == Ok::<Expr, EvalError>(fs[i + 1].expr)
            &&& i + 1 == fs.len() ==> fs[i].highlight.is_none() && fs[i].expr is Literal
        }),
    decreases e.op_count(),
{
    match e.next_reducible() {
        None => {
            lemma_no_next_means_literal(e);
        },
        Some(p) => {
            lemma_step_drops_one_op(e);
            lemma_next_is_reducible(e);
            let next = e.reduced_at(p).unwrap();
            let rest = trace(next).unwrap();
            if i > 0 {
                law_trace_follows_the_order(next, i - 1);
            } else {
                law_trace_follows_the_order(next, 0);
            }
        },
    }
}

/// Evaluation takes as many reductions as the tree has operators: a trace
/// has one frame more than that, and every reduction on the way removes
/// exactly one operator.
pub proof fn law_one_reduction_per_operator(e: Expr)
    ensures
        trace(e).is_ok() ==> trace(e).unwrap().len() == e.op_count() + 1,
        e.next_reducible().is_some() && e.reduced_at(e.next_reducible().unwrap()).is_ok()
            ==> e.reduced_at(e.next_reducible().unwrap()).unwrap().op_count() + 1 == e.op_count(),
        e.next_reducible().is_none() <==> e.op_count() == 0,
{
    if trace(e).is_ok() {
        lemma_trace_len(e);
    }
    if e.next_reducible().is_some() && e.reduced_at(e.next_reducible().unwrap()).is_ok() {
        lemma_step_drops_one_op(e);
    }
    lemma_no_next_means_literal(e);
}

/// The paths `paths`, each after the step `step`.
pub open spec fn below_step(step: PathStep, paths: Seq<Seq<PathStep>>) -> Seq<Seq<PathStep>> {
    Seq::new(paths.len(), |i: int| seq![step] + paths[i])
}

/// The paths to the operators of a tree, operands before their operator and
/// the left operand before the right one.
pub open spec fn operator_paths(e: Expr) -> Seq<Seq<PathStep>>
    decreases e,
{
    match e {
        Expr::Literal(_) => Seq::empty(),
        Expr::Unary(_, inner) => below_step(PathStep::Unary, operator_paths(*inner)).push(
            Seq::empty(),
        ),
        Expr::Binary(_, left, right) => (below_step(PathStep::Left, operator_paths(*left))
            + below_step(PathStep::Right, operator_paths(*right))).push(Seq::empty()),
    }
}

/// The paths that the frames of a trace show, without the last frame,
/// which shows none.
pub open spec fn highlights(frames: Seq<StepView>) -> Seq<Seq<PathStep>> {
    Seq::new((frames.len() - 1) as nat, |i: int| frames[i].highlight.unwrap())
}

/// Reducing the next reducible node takes the first of the operator paths
/// away and leaves the others as they are.
pub proof fn lemma_step_takes_the_first_operator(e: Expr)
    requires
        e.next_reducible().is_some(),
        e.reduced_at(e.next_reducible().unwrap()).is_ok(),
    ensures
        operator_paths(e) == seq![e.next_reducible().unwrap()] + operator_paths(
            e.reduced_at(e.next_reducible().unwrap()).unwrap(),
        ),
    decreases e,
{
    let p = e.next_reducible().unwrap();
    let after = e.reduced_at(p).unwrap();
    match e {
        Expr::Literal(_) => {},
        Expr::Unary(_, inner) => {
            lemma_no_next_means_literal(*inner);
            if inner.next_reducible().is_some() {
                let pi = inner.next_reducible().unwrap();
                lemma_reduced_at_below(e, PathStep::Unary, pi);
                lemma_step_takes_the_first_operator(*inner);
                let rest = operator_paths(inner.reduced_at(pi).unwrap());
                assert(below_step(PathStep::Unary, seq![pi] + rest) =~= seq![p] + below_step(
                    PathStep::Unary,
                    rest,
                ));
                assert(operator_paths(e) =~= seq![p] + operator_paths(after));
            } else {
                assert(p =~= Seq::<PathStep>::empty());
                assert(subtree_at(e, p) == Some(e));
                assert(after is Literal);
                assert(operator_paths(*inner) =~= Seq::<Seq<PathStep>>::empty());
                assert(operator_paths(after) =~= Seq::<Seq<PathStep>>::empty());
                assert(below_step(PathStep::Unary, operator_paths(*inner)) =~= Seq::<
                    Seq<PathStep>,
                >::empty());
                assert(operator_paths(e) =~= seq![p] + operator_paths(after));
            }
        },
        Expr::Binary(_, left, right) => {
            lemma_no_next_means_literal(*left);
            lemma_no_next_means_literal(*right);
            if left.next_reducible().is_some() {
                let pl = left.next_reducible().unwrap();
                lemma_reduced_at_below(e, PathStep::Left, pl);
                lemma_step_takes_the_first_operator(*left);
                let rest = operator_paths(left.reduced_at(pl).unwrap());
                assert(below_step(PathStep::Left, seq![pl] + rest) =~= seq![p] + below_step(
                    PathStep::Left,
                    rest,
                ));
                assert(operator_paths(e) =~= seq![p] + operator_paths(after));
            } else if right.next_reducible().is_some() {
                let pr = right.next_reducible().unwrap();
                lemma_reduced_at_below(e, PathStep::Right, pr);
                lemma_step_takes_the_first_operator(*right);
                let rest = operator_paths(right.reduced_at(pr).unwrap());
                assert(below_step(PathStep::Right, seq![pr] + rest) =~= seq![p] + below_step(
                    PathStep::Right,
                    rest,
                ));
                assert(operator_paths(*left) =~= Seq::<Seq<PathStep>>::empty());
                assert(operator_paths(e) =~= seq![p] + operator_paths(after));
            } else {
                assert(p =~= Seq::<PathStep>::empty());
                assert(subtree_at(e, p) == Some(e));
                assert(after is Literal);
                assert(operator_paths(*left) =~= Seq::<Seq<PathStep>>::empty());
                assert(operator_paths(*right) =~= Seq::<Seq<PathStep>>::empty());
                assert(operator_paths(after) =~= Seq::<Seq<PathStep>>::empty());
                assert(below_step(PathStep::Left, operator_paths(*left)) + below_step(
                    PathStep::Right,
                    operator_paths(*right),
                ) =~= Seq::<Seq<PathStep>>::empty());
                assert(operator_paths(e) =~= seq![p] + operator_paths(after));
            }
        },
    }
}

/// The whole order of evaluation: the paths that the frames of a trace
/// show, one after the other, are the paths to the operators of the tree,
/// operands before their operator and the left operand before the right
/// one.
pub proof fn law_trace_visits_operators_in_order(e: Expr)
    requires
        trace(e).is_ok(),
    ensures
        highlights(trace(e).unwrap()) == operator_paths(e),
    decreases e.op_count(),
{
    match e.next_reducible() {
        None => {
            lemma_no_next_means_literal(e);
            assert(highlights(trace(e).unwrap()) =~= operator_paths(e));
        },
        Some(p) => {
            lemma_step_drops_one_op(e);
            let next = e.reduced_at(p).unwrap();
            law_trace_visits_operators_in_order(next);
            lemma_step_takes_the_first_operator(e);
            lemma_trace_len(next);
            assert(highlights(trace(e).unwrap()) =~= seq![p] + highlights(trace(next).unwrap()));
        },
    }
}

/// Full evaluation is the end of the trace: it gives the literal of the
/// last frame, after as many reductions as the tree has operators, and it
/// fails with the error that the trace fails with.
pub proof fn law_full_evaluation_ends_the_trace(e: Expr)
    ensures
        match trace(e) {
            Ok(frames) => frames.len() == e.op_count() + 1 && frames.last().highlight.is_none()
                && (frames.last().expr matches Expr::Literal(v) && normal_form(e) == Ok::<
                Value,
                EvalError,
            >(v)),
            Err(err) => normal_form(e) == Err::<Value, EvalError>(err),
        },
    decreases e.op_count(),
{
    match e.next_reducible() {
        None => {
            lemma_no_next_means_literal(e);
        },
        Some(p) => {
            if e.reduced_at(p).is_ok() {
                lemma_step_drops_one_op(e);
                let next = e.reduced_at(p).unwrap();
                law_full_evaluation_ends_the_trace(next);
                if trace(next).is_ok() {
                    let rest = trace(next).unwrap();
                    let all = trace(e).unwrap();
                    assert(all.last() == rest.last());
                }
            }
        },
    }
}

/// A single literal is fully reduced: it has no node to reduce, reducing it
/// at its root gives the same tree, and its evaluation is one frame that
/// holds it unchanged.
pub proof fn law_literal_is_fixed_point(v: Value)
    ensures
        Expr::Literal(v).next_reducible().is_none(),
        Expr::Literal(v).reduced_at(Seq::empty()) == Ok::<Expr, EvalError>(Expr::Literal(v)),
        normal_form(Expr::Literal(v)) == Ok::<Value, EvalError>(v),
        trace(Expr::Literal(v)) == Ok::<Seq<StepView>, EvalError>(
            seq![StepView { expr: Expr::Literal(v), highlight: None }],
        ),
{
}

/// Evaluating the result of a full evaluation again changes nothing.
pub proof fn law_full_reduction_is_idempotent(e: Expr)
    requires
        normal_form(e).is_ok(),
    ensures
        normal_form(Expr::Literal(normal_form(e).unwrap())) == normal_form(e),
{
    law_literal_is_fixed_point(normal_form(e).unwrap());
}

/// Reducing below an operand is reducing the operand: the result is the
/// node rebuilt around the reduced operand, and an error passes through.
pub proof fn lemma_reduced_at_below(e: Expr, step: PathStep, rest: Seq<PathStep>)
    requires
        child(e, step).is_some(),
    ensures
        e.reduced_at(seq![step] + rest) == match child(e, step).unwrap().reduced_at(rest) {
            Ok(t) => Ok::<Expr, EvalError>(with_child(e, step, t)),
            Err(err) => Err(err),
        },
{
    let p = seq![step] + rest;
    assert(p[0] == step);
    assert(p.drop_first() =~= rest);
    let c = child(e, step).unwrap();
    assert(subtree_at(e, p) == subtree_at(c, rest));
    if subtree_at(c, rest).is_some() {
        let node = subtree_at(c, rest).unwrap();
        if node.reduct().is_ok() {
            let lit = Expr::Literal(node.reduct().unwrap());
            lemma_spliced_op_count(c, rest, lit);
            assert(spliced(e, p, lit) == Some(with_child(e, step, spliced(c, rest, lit).unwrap())));
        }
    }
}

/// The node `e` with the operand that `step` leads to replaced by `t`.
pub open spec fn with_child(e: Expr, step: PathStep, t: Expr) -> Expr {
    match (step, e) {
        (PathStep::Unary, Expr::Unary(op, _)) => Expr::Unary(op, Box::new(t)),
        (PathStep::Left, Expr::Binary(op, _, right)) => Expr::Binary(op, Box::new(t), right),
        (PathStep::Right, Expr::Binary(op, left, _)) => Expr::Binary(op, left, Box::new(t)),
        _ => e,
    }
}

/// One reduction at the next reducible node keeps the value of the tree,
/// and a reduction that fails there fails with the error that evaluation in
/// one pass gives.
pub proof fn lemma_step_keeps_value(e: Expr)
    requires
        e.next_reducible().is_some(),
    ensures
        match e.reduced_at(e.next_reducible().unwrap()) {
            Ok(next) => next.value() == e.value(),
            Err(err) => e.value() == Err::<Value, EvalError>(err),
        },
    decreases e,
{
    let p = e.next_reducible().unwrap();
    match e {
        Expr::Literal(_) => {},
        Expr::Unary(op, inner) => {
            lemma_no_next_means_literal(*inner);
            if inner.next_reducible().is_some() {
                let pi = inner.next_reducible().unwrap();
                lemma_step_keeps_value(*inner);
                lemma_reduced_at_below(e, PathStep::Unary, pi);
            } else {
                assert(p =~= Seq::<PathStep>::empty());
                assert(subtree_at(e, p) == Some(e));
                assert(inner.value() == Ok::<Value, EvalError>(inner->Literal_0));
            }
        },
        Expr::Binary(op, left, right) => {
            lemma_no_next_means_literal(*left);
            lemma_no_next_means_literal(*right);
            if left.next_reducible().is_some() {
                let pl = left.next_reducible().unwrap();
                lemma_step_keeps_value(*left);
                lemma_reduced_at_below(e, PathStep::Left, pl);
            } else if right.next_reducible().is_some() {
                let pr = right.next_reducible().unwrap();
                lemma_step_keeps_value(*right);
                lemma_reduced_at_below(e, PathStep::Right, pr);
                assert(left.value() == Ok::<Value, EvalError>(left->Literal_0));
            } else {
                assert(p =~= Seq::<PathStep>::empty());
                assert(subtree_at(e, p) == Some(e));
                assert(left.value() == Ok::<Value, EvalError>(left->Literal_0));
                assert(right.value() == Ok::<Value, EvalError>(right->Literal_0));
            }
        },
    }
}

/// Evaluation one reduction at a time ends in the value that evaluation in
/// one pass gives, and fails with the same error where that fails.
pub proof fn law_stepwise_agrees_with_direct(e: Expr)
    ensures
        normal_form(e) == e.value(),
    decreases e.op_count(),
{
    match e.next_reducible() {
        None => {
            lemma_no_next_means_literal(e);
        },
        Some(p) => {
            lemma_step_keeps_value(e);
            if e.reduced_at(p).is_ok() {
                lemma_step_drops_one_op(e);
                law_stepwise_agrees_with_direct(e.reduced_at(p).unwrap());
            }
        },
    }
}

/// The operators of a boolean expression never fail: its value is a truth
/// value.
pub proof fn law_boolean_expression_has_a_truth_value(e: Expr)
    requires
        e.is_boolean(),
    ensures
        e.value() matches Ok(Value::Bool(_)),
        normal_form(e) == e.value(),
    decreases e,
{
    law_stepwise_agrees_with_direct(e);
    match e {
        Expr::Literal(_) => {},
        Expr::Unary(_, inner) => {
            law_boolean_expression_has_a_truth_value(*inner);
        },
        Expr::Binary(_, left, right) => {
            law_boolean_expression_has_a_truth_value(*left);
            law_boolean_expression_has_a_truth_value(*right);
        },
    }
}

/// An arithmetic expression evaluates to a number, or overflows.
pub proof fn law_arithmetic_expression_has_a_number(e: Expr)
    requires
        e.is_arithmetic(),
    ensures
        e.value() matches Ok(Value::Num(_)) || e.value() == Err::<Value, EvalError>(
            EvalError::Overflow,
        ),
        normal_form(e) == e.value(),
    decreases e,
{
    law_stepwise_agrees_with_direct(e);
    match e {
        Expr::Literal(_) => {},
        Expr::Unary(_, inner) => {
            law_arithmetic_expression_has_a_number(*inner);
        },
        Expr::Binary(_, left, right) => {
            law_arithmetic_expression_has_a_number(*left);
            law_arithmetic_expression_has_a_number(*right);
        },
    }
}

} // verus!
