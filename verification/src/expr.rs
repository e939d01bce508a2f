//! The expression tree and the values at its leaves.

use vstd::prelude::*;

verus! {

/// A value of one of the two domains: a truth value or a 64-bit integer.
#[derive(Clone, Copy, Debug, PartialEq, Eq, Structural, Hash)]
pub enum Value {
    Bool(bool),
    Num(i64),
}

/// An operator with one operand.
#[derive(Clone, Copy, Debug, PartialEq, Eq, Structural, Hash)]
pub enum UnaryOp {
    /// Boolean negation.
    Not,
    /// Arithmetic negation.
    Neg,
}

/// An operator with two operands.
#[derive(Clone, Copy, Debug, PartialEq, Eq, Structural, Hash)]
pub enum BinaryOp {
    And,
    Or,
    Add,
    Sub,
    Mul,
}

/// An expression: a literal, or an operator applied to owned operands.
#[derive(Debug, PartialEq, Eq)]
pub enum Expr {
    Literal(Value),
    Unary(UnaryOp, Box<Expr>),
    Binary(BinaryOp, Box<Expr>, Box<Expr>),
}

impl UnaryOp {
    /// Whether the operator belongs to the boolean domain.
    pub open spec fn is_boolean(self) -> bool {
        self is Not
    }
}

impl BinaryOp {
    /// Whether the operator belongs to the boolean domain.
    pub open spec fn is_boolean(self) -> bool {
        self is And || self is Or
    }
}

impl Expr {
    /// The number of operator nodes in the tree.
    pub open spec fn op_count(self) -> nat
        decreases self,
    {
        match self {
            Expr::Literal(_) => 0,
            Expr::Unary(_, inner) => 1 + inner.op_count(),
            Expr::Binary(_, left, right) => 1 + left.op_count() + right.op_count(),
        }
    }

    /// The number of literal nodes in the tree.
    pub open spec fn leaf_count(self) -> nat
        decreases self,
    {
        match self {
            Expr::Literal(_) => 1,
            Expr::Unary(_, inner) => inner.leaf_count(),
            Expr::Binary(_, left, right) => left.leaf_count() + right.leaf_count(),
        }
    }

    /// The number of nodes in the tree.
    pub open spec fn node_count(self) -> nat {
        self.op_count() + self.leaf_count()
    }

    /// The number of edges on the longest way from the root to a literal.
    pub open spec fn height(self) -> nat
        decreases self,
    {
        match self {
            Expr::Literal(_) => 0,
            Expr::Unary(_, inner) => 1 + inner.height(),
            Expr::Binary(_, left, right) => 1 + if left.height() >= right.height() {
                left.height()
            } else {
                right.height()
            },
        }
    }

    /// Every literal is a truth value and every operator is boolean.
    pub open spec fn is_boolean(self) -> bool
        decreases self,
    {
        match self {
            Expr::Literal(v) => v is Bool,
            Expr::Unary(op, inner) => op.is_boolean() && inner.is_boolean(),
            Expr::Binary(op, left, right) => op.is_boolean() && left.is_boolean()
                && right.is_boolean(),
        }
    }

    /// Every literal is a number and every operator is arithmetic.
    pub open spec fn is_arithmetic(self) -> bool
        decreases self,
    {
        match self {
            Expr::Literal(v) => v is Num,
            Expr::Unary(op, inner) => !op.is_boolean() && inner.is_arithmetic(),
            Expr::Binary(op, left, right) => !op.is_boolean() && left.is_arithmetic()
                && right.is_arithmetic(),
        }
    }

    /// A literal node that holds a truth value.
    pub fn boolean(value: bool) -> (e: Expr)
        ensures
            e == Expr::Literal(Value::Bool(value)),
    {
        Expr::Literal(Value::Bool(value))
    }

    /// A literal node that holds a number.
    pub fn num(value: i64) -> (e: Expr)
        ensures
            e == Expr::Literal(Value::Num(value)),
    {
        Expr::Literal(Value::Num(value))
    }

    /// Whether the node is a literal.
    pub fn is_literal(&self) -> (b: bool)
        ensures
            b == (*self is Literal),
    {
        match self {
            Expr::Literal(_) => true,
            _ => false,
        }
    }
}

/// The greatest number of operators in a tree of the given height.
pub open spec fn full_ops(height: nat) -> nat
    decreases height,
{
    if height == 0 {
        0
    } else {
        2 * full_ops((height - 1) as nat) + 1
    }
}

/// A higher tree can hold more operators.
pub proof fn lemma_full_ops_grows(a: nat, b: nat)
    requires
        a <= b,
    ensures
        full_ops(a) <= full_ops(b),
    decreases b,
{
    if a < b {
        lemma_full_ops_grows(a, (b - 1) as nat);
    }
}

/// The height of a tree bounds its size: a tree of height `h` has at most
/// `full_ops(h)` operators, and one literal more than that at most.
pub proof fn lemma_height_bounds_size(e: Expr)
    ensures
        e.op_count() <= full_ops(e.height()),
        e.leaf_count() <= full_ops(e.height()) + 1,
        e.height() <= e.op_count(),
        e.leaf_count() >= 1,
    decreases e,
{
    match e {
        Expr::Literal(_) => {},
        Expr::Unary(_, inner) => {
            lemma_height_bounds_size(*inner);
        },
        Expr::Binary(_, left, right) => {
            lemma_height_bounds_size(*left);
            lemma_height_bounds_size(*right);
            lemma_full_ops_grows(left.height(), (e.height() - 1) as nat);
            lemma_full_ops_grows(right.height(), (e.height() - 1) as nat);
        },
    }
}

/// A tree of height 3 at most has at most 7 operators and 8 literals.
pub proof fn lemma_small_tree(e: Expr)
    requires
        e.height() <= 3,
    ensures
        e.op_count() <= 7,
        e.leaf_count() <= 8,
{
    lemma_height_bounds_size(e);
    lemma_full_ops_grows(e.height(), 3);
    assert(full_ops(3) == 7) by {
        reveal_with_fuel(full_ops, 4);
    }
}

impl Clone for Expr {
    /// A deep copy, equal to the tree it is taken from.
    fn clone(&self) -> (res: Expr)
        ensures
            res == *self,
        decreases *self,
    {
        match self {
            Expr::Literal(v) => Expr::Literal(*v),
            Expr::Unary(op, inner) => Expr::Unary(*op, Box::new((&**inner).clone())),
            Expr::Binary(op, left, right) => Expr::Binary(
                *op,
                Box::new((&**left).clone()),
                Box::new((&**right).clone()),
            ),
        }
    }
}

/// The truth value of a boolean literal, and nothing for any other node.
pub fn as_bool(expr: &Expr) -> (r: Option<bool>)
    ensures
        r == match *expr {
            Expr::Literal(Value::Bool(b)) => Some(b),
            _ => None::<bool>,
        },
{
    match expr {
        Expr::Literal(Value::Bool(b)) => Some(*b),
        _ => None,
    }
}

/// The number of a numeric literal, and nothing for any other node.
pub fn as_num(expr: &Expr) -> (r: Option<i64>)
    ensures
        r == match *expr {
            Expr::Literal(Value::Num(n)) => Some(n),
            _ => None::<i64>,
        },
{
    match expr {
        Expr::Literal(Value::Num(n)) => Some(*n),
        _ => None,
    }
}

/// Counts the operator nodes of a tree whose count fits the machine word.
pub fn count_ops(expr: &Expr) -> (n: usize)
    requires
        expr.op_count() <= usize::MAX,
    ensures
        n == expr.op_count(),
    decreases *expr,
{
    match expr {
        Expr::Literal(_) => 0,
        Expr::Unary(_, inner) => 1 + count_ops(inner),
        Expr::Binary(_, left, right) => 1 + count_ops(left) + count_ops(right),
    }
}

} // verus!
