//! One step of evaluation at a time: which node is reduced next, and what
//! the tree looks like afterwards.

use vstd::prelude::*;
use vstd::slice::slice_to_vec;
use crate::error::EvalError;
use crate::expr::{Expr, Value};
use crate::path::{expr_at_path, splice, spliced, subtree_at, PathStep};

verus! {

impl Expr {
    /// An operator node whose operands are all literals.
    pub open spec fn reducible(self) -> bool {
        match self {
            Expr::Literal(_) => false,
            Expr::Unary(_, inner) => *inner is Literal,
            Expr::Binary(_, left, right) => *left is Literal && *right is Literal,
        }
    }

    /// The value that this node takes when it is evaluated on its own: the
    /// value of a literal, or the operator applied to literal operands. An
    /// operand that is not a literal is an error of the operator's domain.
    pub open spec fn reduct(self) -> Result<Value, EvalError> {
        match self {
            Expr::Literal(v) => Ok(v),
            Expr::Unary(op, inner) => match *inner {
                Expr::Literal(v) => op.apply_spec(v),
                _ => Err(op.operand_error()),
            },
            Expr::Binary(op, left, right) => match (*left, *right) {
                (Expr::Literal(a), Expr::Literal(b)) => op.apply_spec(a, b),
                _ => Err(op.operand_error()),
            },
        }
    }

    /// The path to the node that is reduced next: the reducible node that
    /// comes first when operands are visited before their operator and the
    /// left operand before the right one. A literal has none.
    pub open spec fn next_reducible(self) -> Option<Seq<PathStep>>
        decreases self,
    {
        match self {
            Expr::Literal(_) => None,
            Expr::Unary(_, inner) => match inner.next_reducible() {
                Some(p) => Some(seq![PathStep::Unary] + p),
                None => if self.reducible() {
                    Some(Seq::empty())
                } else {
                    None
                },
            },
            Expr::Binary(_, left, right) => match left.next_reducible() {
                Some(p) => Some(seq![PathStep::Left] + p),
                None => match right.next_reducible() {
                    Some(p) => Some(seq![PathStep::Right] + p),
                    None => if self.reducible() {
                        Some(Seq::empty())
                    } else {
                        None
                    },
                },
            },
        }
    }

    /// The tree after the node at `path` has been replaced by the literal it
    /// evaluates to. A path that does not fit the tree is `InvalidPath`; a
    /// node that cannot be evaluated gives its own error.
    pub open spec fn reduced_at(self, path: Seq<PathStep>) -> Result<Expr, EvalError> {
        match subtree_at(self, path) {
            None => Err(EvalError::InvalidPath),
            Some(node) => match node.reduct() {
                Err(e) => Err(e),
                Ok(v) => match spliced(self, path, Expr::Literal(v)) {
                    Some(t) => Ok(t),
                    None => Err(EvalError::InvalidPath),
                },
            },
        }
    }
}

/// Whether the node is an operator whose operands are all literals.
pub fn is_reducible(expr: &Expr) -> (b: bool)
    ensures
        b == expr.reducible(),
{
    match expr {
        Expr::Literal(_) => false,
        Expr::Unary(_, inner) => inner.is_literal(),
        Expr::Binary(_, left, right) => left.is_literal() && right.is_literal(),
    }
}

/// Evaluates the node on its own. A literal gives its value; an operator is
/// applied to its operands, which have to be literals of its domain.
pub fn eval_reducible(expr: &Expr) -> (r: Result<Value, EvalError>)
    ensures
        r == expr.reduct(),
{
    match expr {
        Expr::Literal(v) => Ok(*v),
        Expr::Unary(op, inner) => match &**inner {
            Expr::Literal(v) => op.apply(*v),
            _ => Err(op.operand_error()),
        },
        Expr::Binary(op, left, right) => match (&**left, &**right) {
            (Expr::Literal(a), Expr::Literal(b)) => op.apply(*a, *b),
            _ => Err(op.operand_error()),
        },
    }
}

/// The view of an optional path.
pub open spec fn path_view(p: Option<Vec<PathStep>>) -> Option<Seq<PathStep>> {
    match p {
        Some(v) => Some(v@),
        None => None,
    }
}

/// Finds the node to reduce next, searching operands before their operator
/// and the left operand before the right one. Returns its path, or `None`
/// for a tree that is a single literal.
pub fn find_reducible(expr: &Expr) -> (r: Option<Vec<PathStep>>)
    ensures
        path_view(r) == expr.next_reducible(),
    decreases *expr,
{
    match expr {
        Expr::Literal(_) => None,
        Expr::Unary(_, inner) => match find_reducible(inner) {
            Some(mut path) => {
                path.insert(0, PathStep::Unary);
                assert(path@ =~= seq![PathStep::Unary] + inner.next_reducible().unwrap());
                Some(path)
            },
            None => if is_reducible(expr) {
                Some(Vec::new())
            } else {
                None
            },
        },
        Expr::Binary(_, left, right) => match find_reducible(left) {
            Some(mut path) => {
                path.insert(0, PathStep::Left);
                assert(path@ =~= seq![PathStep::Left] + left.next_reducible().unwrap());
                Some(path)
            },
            None => match find_reducible(right) {
                Some(mut path) => {
                    path.insert(0, PathStep::Right);
                    assert(path@ =~= seq![PathStep::Right] + right.next_reducible().unwrap());
                    Some(path)
                },
                None => if is_reducible(expr) {
                    Some(Vec::new())
                } else {
                    None
                },
            },
        },
    }
}

/// A tree has no node to reduce exactly when it is a single literal.
pub proof fn lemma_no_next_means_literal(e: Expr)
    ensures
        e.next_reducible().is_none() <==> e is Literal,
    decreases e,
{
    match e {
        Expr::Literal(_) => {},
        Expr::Unary(_, inner) => {
            lemma_no_next_means_literal(*inner);
        },
        Expr::Binary(_, left, right) => {
            lemma_no_next_means_literal(*left);
            lemma_no_next_means_literal(*right);
        },
    }
}

/// The path that `next_reducible` gives leads to a reducible node.
pub proof fn lemma_next_is_reducible(e: Expr)
    requires
        e.next_reducible().is_some(),
    ensures
        subtree_at(e, e.next_reducible().unwrap()).is_some(),
        subtree_at(e, e.next_reducible().unwrap()).unwrap().reducible(),
    decreases e,
{
    let p = e.next_reducible().unwrap();
    match e {
        Expr::Literal(_) => {},
        Expr::Unary(_, inner) => {
            if inner.next_reducible().is_some() {
                lemma_next_is_reducible(*inner);
                assert(p.drop_first() =~= inner.next_reducible().unwrap());
            }
        },
        Expr::Binary(_, left, right) => {
            if left.next_reducible().is_some() {
                lemma_next_is_reducible(*left);
                assert(p.drop_first() =~= left.next_reducible().unwrap());
            } else if right.next_reducible().is_some() {
                lemma_next_is_reducible(*right);
                assert(p.drop_first() =~= right.next_reducible().unwrap());
            }
        },
    }
}

/// Replacing a node changes the number of operators by the difference
/// between the replacement and the node it replaces.
pub proof fn lemma_spliced_op_count(e: Expr, path: Seq<PathStep>, replacement: Expr)
    requires
        subtree_at(e, path).is_some(),
    ensures
        spliced(e, path, replacement).is_some(),
        spliced(e, path, replacement).unwrap().op_count() + subtree_at(e, path).unwrap().op_count()
            == e.op_count() + replacement.op_count(),
    decreases path.len(),
{
    if path.len() > 0 {
        match (path[0], e) {
            (PathStep::Unary, Expr::Unary(_, inner)) => {
                lemma_spliced_op_count(*inner, path.drop_first(), replacement);
            },
            (PathStep::Left, Expr::Binary(_, left, _)) => {
                lemma_spliced_op_count(*left, path.drop_first(), replacement);
            },
            (PathStep::Right, Expr::Binary(_, _, right)) => {
                lemma_spliced_op_count(*right, path.drop_first(), replacement);
            },
            _ => {},
        }
    }
}

/// Reducing the next reducible node, when it succeeds, leaves a tree with
/// exactly one operator less.
pub proof fn lemma_step_drops_one_op(e: Expr)
    requires
        e.next_reducible().is_some(),
        e.reduced_at(e.next_reducible().unwrap()).is_ok(),
    ensures
        e.reduced_at(e.next_reducible().unwrap()).unwrap().op_count() + 1 == e.op_count(),
{
    let p = e.next_reducible().unwrap();
    lemma_next_is_reducible(e);
    let node = subtree_at(e, p).unwrap();
    lemma_spliced_op_count(e, p, Expr::Literal(node.reduct().unwrap()));
    assert(node.op_count() == 1) by {
        match node {
            Expr::Literal(_) => {},
            Expr::Unary(_, inner) => {
                assert(inner.op_count() == 0);
            },
            Expr::Binary(_, left, right) => {
                assert(left.op_count() == 0);
                assert(right.op_count() == 0);
            },
        }
    }
}

/// Replaces the node at `path` by the literal that it evaluates to, and
/// leaves the rest of the tree as it is. Fails with `InvalidPath` when the
/// path does not fit the tree, and with the node's own error when the node
/// cannot be evaluated.
pub fn reduce_at(expr: Expr, path: &[PathStep]) -> (r: Result<Expr, EvalError>)
    ensures
        r == expr.reduced_at(path@),
{
    let value = match expr_at_path(&expr, path) {
        None => {
            return Err(EvalError::InvalidPath);
        },
        Some(node) => match eval_reducible(node) {
            Ok(v) => v,
            Err(e) => {
                return Err(e);
            },
        },
    };
    splice(expr, path, Expr::Literal(value))
}

/// One frame of a step-by-step evaluation: a tree, and the path to the node
/// that is reduced next.
#[derive(Debug)]
pub struct Step {
    pub expr: Expr,
    /// `None` in the last frame, whose tree is a single literal.
    pub highlight: Option<Vec<PathStep>>,
}

/// A frame with its path as a sequence.
pub struct StepView {
    pub expr: Expr,
    pub highlight: Option<Seq<PathStep>>,
}

impl View for Step {
    type V = StepView;

    open spec fn view(&self) -> StepView {
        StepView { expr: self.expr, highlight: path_view(self.highlight) }
    }
}

/// The views of a list of frames.
pub open spec fn frames(steps: Seq<Step>) -> Seq<StepView> {
    Seq::new(steps.len(), |i: int| steps[i]@)
}

/// The frames of the evaluation of `e`: each shows a tree with its next
/// reducible node, and the next frame shows the tree after that node has
/// been reduced. The last frame holds a single literal and no path. The
/// first reduction that fails is the result of the whole.
pub open spec fn trace(e: Expr) -> Result<Seq<StepView>, EvalError>
    decreases e.op_count(),
{
    match e.next_reducible() {
        None => Ok(seq![StepView { expr: e, highlight: None }]),
        Some(p) => match e.reduced_at(p) {
            Err(err) => Err(err),
            Ok(next) => {
                proof {
                    lemma_step_drops_one_op(e);
                }
                match trace(next) {
                    Ok(rest) => Ok(seq![StepView { expr: e, highlight: Some(p) }] + rest),
                    Err(err) => Err(err),
                }
            },
        },
    }
}

/// The literal that step-by-step evaluation of `e` ends in, or the first
/// error on the way.
pub open spec fn normal_form(e: Expr) -> Result<Value, EvalError>
    decreases e.op_count(),
{
    match e.next_reducible() {
        None => e.reduct(),
        Some(p) => match e.reduced_at(p) {
            Err(err) => Err(err),
            Ok(next) => {
                proof {
                    lemma_step_drops_one_op(e);
                }
                normal_form(next)
            },
        },
    }
}

impl Expr {
    /// The value of the tree when every operator is applied to the values of
    /// its operands, the left operand first. The first error on the way is
    /// the result of the whole.
    pub open spec fn value(self) -> Result<Value, EvalError>
        decreases self,
    {
        match self {
            Expr::Literal(v) => Ok(v),
            Expr::Unary(op, inner) => match inner.value() {
                Ok(v) => op.apply_spec(v),
                Err(e) => Err(e),
            },
            Expr::Binary(op, left, right) => match left.value() {
                Err(e) => Err(e),
                Ok(a) => match right.value() {
                    Err(e) => Err(e),
                    Ok(b) => op.apply_spec(a, b),
                },
            },
        }
    }
}

/// The number of frames in a trace is the number of operators plus one.
pub proof fn lemma_trace_len(e: Expr)
    requires
        trace(e).is_ok(),
    ensures
        trace(e).unwrap().len() == e.op_count() + 1,
    decreases e.op_count(),
{
    match e.next_reducible() {
        None => {
            lemma_no_next_means_literal(e);
        },
        Some(p) => {
            lemma_step_drops_one_op(e);
            lemma_trace_len(e.reduced_at(p).unwrap());
        },
    }
}

/// Evaluates the tree one reduction at a time and records every frame:
/// each tree on the way with the path to the node reduced next, and at the
/// end the single literal with no path. Stops at the first reduction that
/// fails and returns its error.
pub fn build_steps(expr: Expr) -> (r: Result<Vec<Step>, EvalError>)
    ensures
        match r {
            Ok(steps) => trace(expr) == Ok::<Seq<StepView>, EvalError>(frames(steps@))
                && steps@.len() == expr.op_count() + 1,
            Err(e) => trace(expr) == Err::<Seq<StepView>, EvalError>(e),
        },
{
    let mut steps: Vec<Step> = Vec::new();
    let mut current = expr;
    assert(frames(steps@) + trace(current).unwrap() =~= trace(current).unwrap());
    loop
        invariant
            trace(expr) == match trace(current) {
                Ok(rest) => Ok::<Seq<StepView>, EvalError>(frames(steps@) + rest),
                Err(e) => Err(e),
            },
        decreases current.op_count(),
    {
        let ghost before = steps@;
        match find_reducible(&current) {
            None => {
                steps.push(Step { expr: current, highlight: None });
                proof {
                    assert(frames(steps@) =~= frames(before) + trace(current).unwrap());
                    lemma_trace_len(expr);
                }
                return Ok(steps);
            },
            Some(path) => {
                let shown = slice_to_vec(path.as_slice());
                steps.push(Step { expr: current.clone(), highlight: Some(shown) });
                proof {
                    if current.reduced_at(path@).is_ok() {
                        lemma_step_drops_one_op(current);
                        let next = current.reduced_at(path@).unwrap();
                        if trace(next).is_ok() {
                            assert(frames(steps@) + trace(next).unwrap() =~= frames(before)
                                + trace(current).unwrap());
                        }
                    }
                }
                match reduce_at(current, path.as_slice()) {
                    Ok(next) => {
                        current = next;
                    },
                    Err(e) => {
                        return Err(e);
                    },
                }
            },
        }
    }
}

/// Reduces the tree until a single literal is left and returns its value,
/// or the error of the first reduction that fails.
pub fn evaluate_fully(expr: Expr) -> (r: Result<Value, EvalError>)
    ensures
        r == normal_form(expr),
{
    let mut current = expr;
    loop
        invariant
            normal_form(expr) == normal_form(current),
        decreases current.op_count(),
    {
        match find_reducible(&current) {
            None => {
                return eval_reducible(&current);
            },
            Some(path) => {
                proof {
                    if current.reduced_at(path@).is_ok() {
                        lemma_step_drops_one_op(current);
                    }
                }
                match reduce_at(current, path.as_slice()) {
                    Ok(next) => {
                        current = next;
                    },
                    Err(e) => {
                        return Err(e);
                    },
                }
            },
        }
    }
}

/// Evaluates the whole tree in one pass, operands before their operator
/// and the left operand before the right one.
pub fn eval_expr(expr: &Expr) -> (r: Result<Value, EvalError>)
    ensures
        r == expr.value(),
    decreases *expr,
{
    match expr {
        Expr::Literal(v) => Ok(*v),
        Expr::Unary(op, inner) => match eval_expr(inner) {
            Ok(v) => op.apply(v),
            Err(e) => Err(e),
        },
        Expr::Binary(op, left, right) => match eval_expr(left) {
            Err(e) => Err(e),
            Ok(a) => match eval_expr(right) {
                Err(e) => Err(e),
                Ok(b) => op.apply(a, b),
            },
        },
    }
}

} // verus!
