//! Reducing a tree by hand: what a click on a node does.

use vstd::prelude::*;
use vstd::string::StringExecFns;
use crate::error::EvalError;
use crate::expr::{Expr, Value};
use crate::path::{expr_at_path, paths_equal, subtree_at, PathStep};
use crate::reduce::{find_reducible, reduce_at};

verus! {

/// What a click on a node led to.
#[derive(Clone, Copy, Debug, PartialEq, Eq, Structural)]
pub enum Feedback {
    /// The node was the next one to reduce, and has been reduced.
    Reduced,
    /// The node was the next one to reduce, but reducing it failed.
    Failed(EvalError),
    /// The node is a literal, which has a value already.
    AlreadyValue(Value),
    /// The node is not the next one to reduce.
    NotYet,
    /// The tree is a single literal: nothing is left to reduce.
    Done,
}

/// The tree and the feedback after a click on the node at `clicked`. Only
/// a click on the next reducible node changes the tree, and only if the
/// reduction succeeds.
pub open spec fn after_click(expr: Expr, clicked: Seq<PathStep>) -> (Expr, Feedback) {
    match expr.next_reducible() {
        None => (expr, Feedback::Done),
        Some(next) => if next == clicked {
            match expr.reduced_at(clicked) {
                Ok(reduced) => (reduced, Feedback::Reduced),
                Err(e) => (expr, Feedback::Failed(e)),
            }
        } else {
            match subtree_at(expr, clicked) {
                Some(Expr::Literal(v)) => (expr, Feedback::AlreadyValue(v)),
                _ => (expr, Feedback::NotYet),
            }
        },
    }
}

/// Answers a click on the node at `clicked`: reduces the node if it is the
/// next one to reduce, and says what was wrong with the click otherwise.
pub fn click(expr: Expr, clicked: &[PathStep]) -> (r: (Expr, Feedback))
    ensures
        r == after_click(expr, clicked@),
{
    let next = match find_reducible(&expr) {
        None => {
            return (expr, Feedback::Done);
        },
        Some(next) => next,
    };
    if paths_equal(next.as_slice(), clicked) {
        match reduce_at(expr.clone(), clicked) {
            Ok(reduced) => (reduced, Feedback::Reduced),
            Err(e) => (expr, Feedback::Failed(e)),
        }
    } else {
        let feedback = match expr_at_path(&expr, clicked) {
            Some(Expr::Literal(v)) => Feedback::AlreadyValue(*v),
            _ => Feedback::NotYet,
        };
        (expr, feedback)
    }
}

impl Feedback {
    /// The hint that is shown for the feedback, if there is one.
    pub open spec fn message_spec(self) -> Option<Seq<char>> {
        match self {
            Feedback::Reduced => None,
            Feedback::Done => None,
            Feedback::Failed(e) => Some("Oops: "@ + e.message_spec()),
            Feedback::AlreadyValue(Value::Bool(_)) => Some("Booleans already have a value."@),
            Feedback::AlreadyValue(Value::Num(_)) => Some("Constants already have a value."@),
            Feedback::NotYet => Some(
                "Not yet. Work left-to-right; if there is no deeper expression, move up to the next level."@,
            ),
        }
    }

    /// The hint that is shown for the feedback, if there is one.
    pub fn message(&self) -> (r: Option<String>)
        ensures
            match r {
                Some(text) => self.message_spec() == Some(text@),
                None => self.message_spec().is_none(),
            },
    {
        match self {
            Feedback::Reduced => None,
            Feedback::Done => None,
            Feedback::Failed(e) => {
                let mut text = String::from_str("Oops: ");
                let detail = e.message();
                text.append(detail.as_str());
                Some(text)
            },
            Feedback::AlreadyValue(Value::Bool(_)) => Some(
                String::from_str("Booleans already have a value."),
            ),
            Feedback::AlreadyValue(Value::Num(_)) => Some(
                String::from_str("Constants already have a value."),
            ),
            Feedback::NotYet => Some(
                String::from_str(
                    "Not yet. Work left-to-right; if there is no deeper expression, move up to the next level.",
                ),
            ),
        }
    }
}

} // verus!
