//! The ways in which parsing and evaluation fail.

use vstd::prelude::*;
use vstd::string::StringExecFns;
use crate::text::{decimal, push_decimal};

verus! {

/// Why a reduction step failed.
#[derive(Clone, Copy, Debug, PartialEq, Eq, Structural)]
pub enum EvalError {
    /// The result of an arithmetic operator does not fit in 64 bits.
    Overflow,
    /// A boolean operator was applied to an operand that is not a boolean
    /// literal.
    ExpectedBoolean,
    /// An arithmetic operator was applied to an operand that is not a numeric
    /// literal.
    ExpectedNumber,
    /// The path does not fit the shape of the tree.
    InvalidPath,
}

impl EvalError {
    /// The text that describes the error.
    pub open spec fn message_spec(self) -> Seq<char> {
        match self {
            EvalError::Overflow => "Overflow"@,
            EvalError::ExpectedBoolean => "Expected a boolean"@,
            EvalError::ExpectedNumber => "Expected a number"@,
            EvalError::InvalidPath => "Invalid path"@,
        }
    }

    /// The text that describes the error to a reader.
    pub fn message(&self) -> (r: String)
        ensures
            r@ == self.message_spec(),
    {
        match self {
            EvalError::Overflow => String::from_str("Overflow"),
            EvalError::ExpectedBoolean => String::from_str("Expected a boolean"),
            EvalError::ExpectedNumber => String::from_str("Expected a number"),
            EvalError::InvalidPath => String::from_str("Invalid path"),
        }
    }
}

/// What the parser found wrong with the input.
#[derive(Clone, Copy, Debug, PartialEq, Eq, Structural)]
pub enum ParseErrorKind {
    /// Something other than white space follows the expression.
    UnexpectedInput,
    /// An opening parenthesis has no closing one.
    ExpectedClosingParen,
    /// A boolean literal or an opening parenthesis was expected.
    ExpectedTruthValue,
    /// A number or an opening parenthesis was expected.
    ExpectedNumber,
    /// A number does not fit in 64 bits.
    NumberTooLarge,
}

impl ParseErrorKind {
    /// The text that names the kind of error.
    pub open spec fn label(self) -> Seq<char> {
        match self {
            ParseErrorKind::UnexpectedInput => "Unexpected input"@,
            ParseErrorKind::ExpectedClosingParen => "Expected ')'"@,
            ParseErrorKind::ExpectedTruthValue => "Expected true/false"@,
            ParseErrorKind::ExpectedNumber => "Expected a number"@,
            ParseErrorKind::NumberTooLarge => "Number too large"@,
        }
    }
}

/// A parse error with the place at which it was detected.
#[derive(Clone, Copy, Debug, PartialEq, Eq, Structural)]
pub struct ParseError {
    pub kind: ParseErrorKind,
    /// The byte offset of the place, counted from zero.
    pub offset: usize,
}

impl ParseError {
    /// The place of the error counted from one, as it is shown to a reader.
    pub open spec fn position_spec(self) -> nat {
        (self.offset + 1) as nat
    }

    /// The place of the error counted from one.
    pub fn position(&self) -> (p: u128)
        ensures
            p == self.position_spec(),
    {
        self.offset as u128 + 1
    }

    /// The text of the error: what was wrong, and the place counted from
    /// one.
    pub open spec fn message_spec(self) -> Seq<char> {
        self.kind.label() + " at position "@ + decimal(self.position_spec())
    }

    /// The text that describes the error to a reader.
    pub fn message(&self) -> (r: String)
        ensures
            r@ == self.message_spec(),
    {
        let mut out = match self.kind {
            ParseErrorKind::UnexpectedInput => String::from_str("Unexpected input"),
            ParseErrorKind::ExpectedClosingParen => String::from_str("Expected ')'"),
            ParseErrorKind::ExpectedTruthValue => String::from_str("Expected true/false"),
            ParseErrorKind::ExpectedNumber => String::from_str("Expected a number"),
            ParseErrorKind::NumberTooLarge => String::from_str("Number too large"),
        };
        out.append(" at position ");
        push_decimal(&mut out, self.position());
        out
    }
}

} // verus!
