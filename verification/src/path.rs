//! Addressing a node of a tree by the steps that lead to it from the root.

use vstd::prelude::*;
use vstd::slice::slice_subrange;
use crate::error::EvalError;
use crate::expr::Expr;

verus! {

/// One move from a node to one of its children.
#[derive(Clone, Copy, Debug, PartialEq, Eq, Structural, Hash)]
pub enum PathStep {
    /// To the operand of a unary operator.
    Unary,
    /// To the left operand of a binary operator.
    Left,
    /// To the right operand of a binary operator.
    Right,
}

/// The child of `e` that `step` leads to, if `e` has such a child.
pub open spec fn child(e: Expr, step: PathStep) -> Option<Expr> {
    match (step, e) {
        (PathStep::Unary, Expr::Unary(_, inner)) => Some(*inner),
        (PathStep::Left, Expr::Binary(_, left, _)) => Some(*left),
        (PathStep::Right, Expr::Binary(_, _, right)) => Some(*right),
        _ => None,
    }
}

/// The node that `path` leads to from the root of `e`, if the path fits the
/// shape of the tree. The empty path leads to the root.
pub open spec fn subtree_at(e: Expr, path: Seq<PathStep>) -> Option<Expr>
    decreases path.len(),
{
    if path.len() == 0 {
        Some(e)
    } else {
        match child(e, path[0]) {
            Some(c) => subtree_at(c, path.drop_first()),
            None => None,
        }
    }
}

/// The tree `e` with the node at `path` replaced by `replacement`, if the
/// path fits the shape of the tree.
pub open spec fn spliced(e: Expr, path: Seq<PathStep>, replacement: Expr) -> Option<Expr>
    decreases path.len(),
{
    if path.len() == 0 {
        Some(replacement)
    } else {
        match (path[0], e) {
            (PathStep::Unary, Expr::Unary(op, inner)) => match spliced(
                *inner,
                path.drop_first(),
                replacement,
            ) {
                Some(t) => Some(Expr::Unary(op, Box::new(t))),
                None => None,
            },
            (PathStep::Left, Expr::Binary(op, left, right)) => match spliced(
                *left,
                path.drop_first(),
                replacement,
            ) {
                Some(t) => Some(Expr::Binary(op, Box::new(t), right)),
                None => None,
            },
            (PathStep::Right, Expr::Binary(op, left, right)) => match spliced(
                *right,
                path.drop_first(),
                replacement,
            ) {
                Some(t) => Some(Expr::Binary(op, left, Box::new(t))),
                None => None,
            },
            _ => None,
        }
    }
}

/// Follows `path` down from the root of `expr`. Returns the node it leads
/// to, or `None` as soon as a step does not fit the node it is taken from.
pub fn expr_at_path<'a>(expr: &'a Expr, path: &[PathStep]) -> (r: Option<&'a Expr>)
    ensures
        match r {
            Some(node) => subtree_at(*expr, path@) == Some(*node),
            None => subtree_at(*expr, path@).is_none(),
        },
{
    let mut cur: &Expr = expr;
    let mut i: usize = 0;
    assert(path@.skip(0) =~= path@);
    while i < path.len()
        invariant
            i <= path.len(),
            subtree_at(*expr, path@) == subtree_at(*cur, path@.skip(i as int)),
        decreases path.len() - i,
    {
        proof {
            assert(path@.skip(i as int).drop_first() =~= path@.skip(i as int + 1));
        }
        match (path[i], cur) {
            (PathStep::Unary, Expr::Unary(_, inner)) => {
                cur = inner;
            },
            (PathStep::Left, Expr::Binary(_, left, _)) => {
                cur = left;
            },
            (PathStep::Right, Expr::Binary(_, _, right)) => {
                cur = right;
            },
            _ => {
                return None;
            },
        }
        i += 1;
    }
    Some(cur)
}

/// Rebuilds `tree` with the node at `path` replaced by `replacement`. The
/// subtrees beside the path are moved into the result unchanged. Fails with
/// `InvalidPath` when the path does not fit the shape of the tree.
pub fn splice(tree: Expr, path: &[PathStep], replacement: Expr) -> (r: Result<Expr, EvalError>)
    ensures
        r == match spliced(tree, path@, replacement) {
            Some(t) => Ok::<Expr, EvalError>(t),
            None => Err(EvalError::InvalidPath),
        },
    decreases path@.len(),
{
    if path.len() == 0 {
        return Ok(replacement);
    }
    let head: PathStep = path[0];
    let tail = slice_subrange(path, 1, path.len());
    assert(tail@ == path@.drop_first());
    match (head, tree) {
        (PathStep::Unary, Expr::Unary(op, inner)) => match splice(*inner, tail, replacement) {
            Ok(t) => Ok(Expr::Unary(op, Box::new(t))),
            Err(e) => Err(e),
        },
        (PathStep::Left, Expr::Binary(op, left, right)) => match splice(*left, tail, replacement) {
            Ok(t) => Ok(Expr::Binary(op, Box::new(t), right)),
            Err(e) => Err(e),
        },
        (PathStep::Right, Expr::Binary(op, left, right)) => match splice(
            *right,
            tail,
            replacement,
        ) {
            Ok(t) => Ok(Expr::Binary(op, left, Box::new(t))),
            Err(e) => Err(e),
        },
        _ => Err(EvalError::InvalidPath),
    }
}

/// Whether the two paths consist of the same steps.
pub fn paths_equal(a: &[PathStep], b: &[PathStep]) -> (r: bool)
    ensures
        r == (a@ == b@),
{
    if a.len() != b.len() {
        return false;
    }
    let mut i: usize = 0;
    while i < a.len()
        invariant
            i <= a.len(),
            a.len() == b.len(),
            forall|k: int| 0 <= k < i ==> a@[k] == b@[k],
        decreases a.len() - i,
    {
        if a[i] != b[i] {
            return false;
        }
        i += 1;
    }
    assert(a@ =~= b@);
    true
}

/// Whether `path` leads into the subtree rooted at `subtree`: whether
/// `subtree` is a prefix of `path`, or equal to it.
pub fn path_in_subtree(path: &[PathStep], subtree: &[PathStep]) -> (r: bool)
    ensures
        r == subtree@.is_prefix_of(path@),
{
    if path.len() < subtree.len() {
        return false;
    }
    let mut i: usize = 0;
    while i < subtree.len()
        invariant
            i <= subtree.len(),
            subtree.len() <= path.len(),
            forall|k: int| 0 <= k < i ==> subtree@[k] == path@[k],
        decreases subtree.len() - i,
    {
        if path[i] != subtree[i] {
            assert(subtree@[i as int] != path@.subrange(0, subtree@.len() as int)[i as int]);
            return false;
        }
        i += 1;
    }
    assert(subtree@ =~= path@.subrange(0, subtree@.len() as int));
    true
}

} // verus!
