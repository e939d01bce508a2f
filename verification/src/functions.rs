//! Small functions of one number, and questions about what they return.

use vstd::prelude::*;
use vstd::string::StringExecFns;
use crate::rng::{draw_between, xorshift, SimpleRng};
use crate::text::{push_signed, signed_decimal};

verus! {

/// `n` if it fits in 32 bits, and `fallback` if it does not.
pub open spec fn fitting(n: int, fallback: i32) -> i32 {
    if i32::MIN <= n <= i32::MAX {
        n as i32
    } else {
        fallback
    }
}

/// A function that is asked about.
#[derive(Clone, Copy, Debug, PartialEq, Eq, Structural)]
pub enum FunctionKind {
    Double,
    AddTwo,
    Square,
}

impl FunctionKind {
    /// The name of the function.
    pub open spec fn name_spec(self) -> Seq<char> {
        match self {
            FunctionKind::Double => "double"@,
            FunctionKind::AddTwo => "add_two"@,
            FunctionKind::Square => "square"@,
        }
    }

    /// The name of the function.
    pub fn name(self) -> (r: &'static str)
        ensures
            r@ == self.name_spec(),
    {
        match self {
            FunctionKind::Double => "double",
            FunctionKind::AddTwo => "add_two",
            FunctionKind::Square => "square",
        }
    }

    /// The expression that the function returns, over its parameter `n`.
    pub open spec fn body_spec(self) -> Seq<char> {
        match self {
            FunctionKind::Double => "n * 2"@,
            FunctionKind::AddTwo => "n + 2"@,
            FunctionKind::Square => "n * n"@,
        }
    }

    /// The expression that the function returns, over its parameter `n`.
    pub fn body(self) -> (r: &'static str)
        ensures
            r@ == self.body_spec(),
    {
        match self {
            FunctionKind::Double => "n * 2",
            FunctionKind::AddTwo => "n + 2",
            FunctionKind::Square => "n * n",
        }
    }

    /// What the function returns for `value`: its double, the number two
    /// above it, or its square; `value` itself where that does not fit in 32
    /// bits.
    pub open spec fn apply_spec(self, value: i32) -> i32 {
        match self {
            FunctionKind::Double => fitting(value * 2, value),
            FunctionKind::AddTwo => fitting(value + 2, value),
            FunctionKind::Square => fitting(value * value, value),
        }
    }

    /// Applies the function to `value`.
    pub fn apply(self, value: i32) -> (r: i32)
        ensures
            r == self.apply_spec(value),
    {
        let result = match self {
            FunctionKind::Double => value.checked_mul(2),
            FunctionKind::AddTwo => value.checked_add(2),
            FunctionKind::Square => value.checked_mul(value),
        };
        match result {
            Some(r) => r,
            None => value,
        }
    }
}

/// A question: what a function returns for an input.
#[derive(Clone, Copy, Debug, PartialEq, Eq, Structural)]
pub struct FunctionQuestion {
    pub kind: FunctionKind,
    pub input: i32,
    pub output: i32,
}

/// The function that a roll of 0 to 2 stands for.
pub open spec fn rolled_kind(roll: int) -> FunctionKind {
    if roll == 0 {
        FunctionKind::Double
    } else if roll == 1 {
        FunctionKind::AddTwo
    } else {
        FunctionKind::Square
    }
}

/// The question that is drawn from `state`: one of the three functions and
/// an input from 0 to 9.
pub open spec fn question_of(state: u64) -> FunctionQuestion {
    let kind = rolled_kind(draw_between(state, 0, 2));
    let input = draw_between(xorshift(state), 0, 9) as i32;
    FunctionQuestion { kind, input, output: kind.apply_spec(input) }
}

/// Draws a question: one of the three functions and an input from 0 to 9,
/// with what the function returns for it.
pub fn generate_question(rng: &mut SimpleRng) -> (q: FunctionQuestion)
    ensures
        q == question_of(old(rng).state),
        final(rng).state == xorshift(xorshift(old(rng).state)),
        q.output == q.kind.apply_spec(q.input),
        0 <= q.input <= 9,
{
    let roll: i32 = rng.gen_range_i32(0, 2);
    let kind = if roll == 0 {
        FunctionKind::Double
    } else if roll == 1 {
        FunctionKind::AddTwo
    } else {
        FunctionKind::Square
    };
    let input: i32 = rng.gen_range_i32(0, 9);
    let output: i32 = kind.apply(input);
    FunctionQuestion { kind, input, output }
}

/// The four lines of code of a question: the head of the function, its
/// body, its end, and the call.
pub open spec fn question_code_spec(q: FunctionQuestion) -> Seq<Seq<char>> {
    seq![
        "function "@ + q.kind.name_spec() + "(n) {"@,
        "    "@ + q.kind.body_spec(),
        "}"@,
        "result <- "@ + q.kind.name_spec() + "("@ + signed_decimal(q.input as int) + ")"@,
    ]
}

/// The texts of a list of lines.
pub open spec fn texts(lines: Seq<String>) -> Seq<Seq<char>> {
    Seq::new(lines.len(), |i: int| lines[i]@)
}

/// Writes the question as four lines of code.
pub fn question_code(question: &FunctionQuestion) -> (lines: Vec<String>)
    ensures
        texts(lines@) == question_code_spec(*question),
{
    let mut head = String::from_str("function ");
    head.append(question.kind.name());
    head.append("(n) {");
    let mut body = String::from_str("    ");
    body.append(question.kind.body());
    let mut call = String::from_str("result <- ");
    call.append(question.kind.name());
    call.append("(");
    push_signed(&mut call, question.input as i64);
    call.append(")");
    let mut lines: Vec<String> = Vec::new();
    lines.push(head);
    lines.push(body);
    lines.push(String::from_str("}"));
    lines.push(call);
    assert(texts(lines@) =~= question_code_spec(*question));
    lines
}

/// The double of `input` plus one. A step that does not fit in 32 bits is
/// left out.
pub fn double_plus_one(input: i32) -> (r: i32)
    ensures
        r == fitting(fitting(input * 2, input) + 1, fitting(input * 2, input)),
{
    let doubled: i32 = match input.checked_mul(2) {
        Some(d) => d,
        None => input,
    };
    match doubled.checked_add(1) {
        Some(r) => r,
        None => doubled,
    }
}

/// The double of `input` plus three. A step that does not fit in 32 bits
/// is left out.
pub fn step_output(input: i32) -> (r: i32)
    ensures
        r == fitting(fitting(input + 3, input) * 2, fitting(input + 3, input)),
{
    let base: i32 = match input.checked_add(3) {
        Some(b) => b,
        None => input,
    };
    match base.checked_mul(2) {
        Some(r) => r,
        None => base,
    }
}

/// The last outputs of a function that is called again and again: the
/// newest five of them.
pub open spec fn pushed(outputs: Seq<i32>, value: i32) -> Seq<i32> {
    if outputs.len() + 1 > 5 {
        outputs.push(value).drop_first()
    } else {
        outputs.push(value)
    }
}

/// Adds an output to the list and drops the oldest one if the list has
/// grown past five.
pub fn push_output(outputs: &mut Vec<i32>, value: i32)
    ensures
        final(outputs)@ == pushed(old(outputs)@, value),
{
    outputs.push(value);
    if outputs.len() > 5 {
        outputs.remove(0);
    }
    assert(outputs@ =~= pushed(old(outputs)@, value));
}

} // verus!
