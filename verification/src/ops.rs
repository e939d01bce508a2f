//! What each operator does to literal operands.

use vstd::prelude::*;
use crate::error::EvalError;
use crate::expr::{BinaryOp, UnaryOp, Value};

verus! {

impl UnaryOp {
    /// The error that the operator gives for an operand it cannot take.
    pub open spec fn operand_error_spec(self) -> EvalError {
        match self {
            UnaryOp::Not => EvalError::ExpectedBoolean,
            UnaryOp::Neg => EvalError::ExpectedNumber,
        }
    }

    /// The error for an operand that the operator cannot take.
    #[verifier::when_used_as_spec(operand_error_spec)]
    pub fn operand_error(self) -> (e: EvalError)
        ensures
            e == self.operand_error_spec(),
    {
        match self {
            UnaryOp::Not => EvalError::ExpectedBoolean,
            UnaryOp::Neg => EvalError::ExpectedNumber,
        }
    }

    /// The result of the operator on a literal operand. Negation of the
    /// smallest integer overflows.
    pub open spec fn apply_spec(self, v: Value) -> Result<Value, EvalError> {
        match (self, v) {
            (UnaryOp::Not, Value::Bool(b)) => Ok(Value::Bool(!b)),
            (UnaryOp::Neg, Value::Num(n)) => if n == i64::MIN {
                Err(EvalError::Overflow)
            } else {
                Ok(Value::Num((-n) as i64))
            },
            _ => Err(self.operand_error()),
        }
    }

    /// Applies the operator to a literal operand, with overflow detected.
    pub fn apply(self, v: Value) -> (r: Result<Value, EvalError>)
        ensures
            r == self.apply_spec(v),
    {
        match (self, v) {
            (UnaryOp::Not, Value::Bool(b)) => Ok(Value::Bool(!b)),
            (UnaryOp::Neg, Value::Num(n)) => match 0i64.checked_sub(n) {
                Some(m) => Ok(Value::Num(m)),
                None => Err(EvalError::Overflow),
            },
            _ => Err(self.operand_error()),
        }
    }
}

/// `Ok` of the number if it fits in 64 bits, and `Overflow` if it does not.
pub open spec fn checked(n: int) -> Result<Value, EvalError> {
    if i64::MIN <= n <= i64::MAX {
        Ok(Value::Num(n as i64))
    } else {
        Err(EvalError::Overflow)
    }
}

impl BinaryOp {
    /// The error that the operator gives for an operand it cannot take.
    pub open spec fn operand_error_spec(self) -> EvalError {
        match self {
            BinaryOp::And | BinaryOp::Or => EvalError::ExpectedBoolean,
            BinaryOp::Add | BinaryOp::Sub | BinaryOp::Mul => EvalError::ExpectedNumber,
        }
    }

    /// The error for an operand that the operator cannot take.
    #[verifier::when_used_as_spec(operand_error_spec)]
    pub fn operand_error(self) -> (e: EvalError)
        ensures
            e == self.operand_error_spec(),
    {
        match self {
            BinaryOp::And | BinaryOp::Or => EvalError::ExpectedBoolean,
            BinaryOp::Add | BinaryOp::Sub | BinaryOp::Mul => EvalError::ExpectedNumber,
        }
    }

    /// The result of the operator on literal operands. An arithmetic result
    /// outside the 64-bit range is an overflow, never wrapped or saturated.
    pub open spec fn apply_spec(self, a: Value, b: Value) -> Result<Value, EvalError> {
        match (self, a, b) {
            (BinaryOp::And, Value::Bool(x), Value::Bool(y)) => Ok(Value::Bool(x && y)),
            (BinaryOp::Or, Value::Bool(x), Value::Bool(y)) => Ok(Value::Bool(x || y)),
            (BinaryOp::Add, Value::Num(x), Value::Num(y)) => checked(x + y),
            (BinaryOp::Sub, Value::Num(x), Value::Num(y)) => checked(x - y),
            (BinaryOp::Mul, Value::Num(x), Value::Num(y)) => checked(x * y),
            _ => Err(self.operand_error()),
        }
    }

    /// Applies the operator to literal operands, with overflow detected.
    pub fn apply(self, a: Value, b: Value) -> (r: Result<Value, EvalError>)
        ensures
            r == self.apply_spec(a, b),
    {
        match (self, a, b) {
            (BinaryOp::And, Value::Bool(x), Value::Bool(y)) => Ok(Value::Bool(x && y)),
            (BinaryOp::Or, Value::Bool(x), Value::Bool(y)) => Ok(Value::Bool(x || y)),
            (BinaryOp::Add, Value::Num(x), Value::Num(y)) => match x.checked_add(y) {
                Some(n) => Ok(Value::Num(n)),
                None => Err(EvalError::Overflow),
            },
            (BinaryOp::Sub, Value::Num(x), Value::Num(y)) => match x.checked_sub(y) {
                Some(n) => Ok(Value::Num(n)),
                None => Err(EvalError::Overflow),
            },
            (BinaryOp::Mul, Value::Num(x), Value::Num(y)) => match x.checked_mul(y) {
                Some(n) => Ok(Value::Num(n)),
                None => Err(EvalError::Overflow),
            },
            _ => Err(self.operand_error()),
        }
    }
}

} // verus!
