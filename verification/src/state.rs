//! A variable that is updated line by line, and sequences of updates to
//! practise on.

use vstd::prelude::*;
use vstd::string::StringExecFns;
use crate::rng::{draw_between, xorshift, SimpleRng};
use crate::text::{push_signed, signed_decimal};

verus! {

/// An update of a variable: the amount that is added to it, taken from it,
/// or that it is multiplied by.
#[derive(Clone, Copy, Debug, PartialEq, Eq, Structural)]
pub enum Op {
    Add(i32),
    Sub(i32),
    Mul(i32),
}

impl Op {
    /// The amount of the update.
    pub open spec fn amount(self) -> i32 {
        match self {
            Op::Add(amount) => amount,
            Op::Sub(amount) => amount,
            Op::Mul(amount) => amount,
        }
    }

    /// The sign that the update is written with.
    pub open spec fn sign(self) -> Seq<char> {
        match self {
            Op::Add(_) => " + "@,
            Op::Sub(_) => " - "@,
            Op::Mul(_) => " * "@,
        }
    }

    /// The value after the update, if it fits in 32 bits.
    pub open spec fn apply_spec(self, value: i32) -> Option<i32> {
        let result = match self {
            Op::Add(amount) => value + amount,
            Op::Sub(amount) => value - amount,
            Op::Mul(amount) => value * amount,
        };
        if i32::MIN <= result <= i32::MAX {
            Some(result as i32)
        } else {
            None
        }
    }

    /// Applies the update to `value`. Returns nothing on overflow.
    pub fn apply(self, value: i32) -> (r: Option<i32>)
        ensures
            r == self.apply_spec(value),
    {
        match self {
            Op::Add(amount) => value.checked_add(amount),
            Op::Sub(amount) => value.checked_sub(amount),
            Op::Mul(amount) => value.checked_mul(amount),
        }
    }

    /// The line of code for the update of the variable `name`, with `arrow`
    /// as the sign of assignment.
    pub open spec fn update_line_spec(self, name: Seq<char>, arrow: Seq<char>) -> Seq<char> {
        name + " "@ + arrow + " "@ + name + self.sign() + signed_decimal(self.amount() as int)
    }

    /// Writes the update as a line of code: the name, the arrow, and the
    /// name with the amount added, taken away or multiplied.
    pub fn update_line(self, name: &str, arrow: &str) -> (line: String)
        ensures
            line@ == self.update_line_spec(name@, arrow@),
    {
        let mut line = String::from_str(name);
        line.append(" ");
        line.append(arrow);
        line.append(" ");
        line.append(name);
        let amount: i32 = match self {
            Op::Add(amount) => {
                line.append(" + ");
                amount
            },
            Op::Sub(amount) => {
                line.append(" - ");
                amount
            },
            Op::Mul(amount) => {
                line.append(" * ");
                amount
            },
        };
        push_signed(&mut line, amount as i64);
        line
    }
}

/// The value after the updates have been applied in order, if every value
/// on the way lies between 0 and 99.
pub open spec fn run(value: i32, ops: Seq<Op>) -> Option<i32>
    decreases ops.len(),
{
    if ops.len() == 0 {
        Some(value)
    } else {
        match ops[0].apply_spec(value) {
            Some(next) => if 0 <= next <= 99 {
                run(next, ops.drop_first())
            } else {
                None
            },
            None => None,
        }
    }
}

/// The update that is drawn from `state`, and the state after it: an
/// addition or a subtraction of 1 to 4, or a multiplication by 2 or 3.
pub open spec fn drawn_op(state: u64) -> (Op, u64) {
    let kind = draw_between(state, 0, 2);
    let s1 = xorshift(state);
    let op = if kind == 0 {
        Op::Add(draw_between(s1, 1, 4) as i32)
    } else if kind == 1 {
        Op::Sub(draw_between(s1, 1, 4) as i32)
    } else {
        Op::Mul(draw_between(s1, 2, 3) as i32)
    };
    (op, xorshift(s1))
}

/// The `count` updates that are drawn from `state`, and the state after
/// them.
pub open spec fn drawn_ops(state: u64, count: nat) -> (Seq<Op>, u64)
    decreases count,
{
    if count == 0 {
        (Seq::empty(), state)
    } else {
        let (ops, s) = drawn_ops(state, (count - 1) as nat);
        let (op, next) = drawn_op(s);
        (ops.push(op), next)
    }
}

/// A sequence to practise on: the starting value, the updates, and the value
/// after them.
pub struct Practice {
    pub start: i32,
    pub ops: Seq<Op>,
    pub result: i32,
}

/// The sequence that one attempt draws from `state`: a start from 2 to 9
/// and two to four updates. It is kept if every value on the way lies
/// between 0 and 99.
pub open spec fn attempt(state: u64) -> (Option<Practice>, u64) {
    let start = draw_between(state, 2, 9) as i32;
    let s1 = xorshift(state);
    let count = draw_between(s1, 2, 4) as nat;
    let (ops, next) = drawn_ops(xorshift(s1), count);
    match run(start, ops) {
        Some(result) => (Some(Practice { start, ops, result }), next),
        None => (None, next),
    }
}

/// The first sequence that is kept among the next `attempts`, and the state
/// after it; the fixed sequence if none is kept.
pub open spec fn first_kept(state: u64, attempts: nat) -> (Practice, u64)
    decreases attempts,
{
    if attempts == 0 {
        (Practice { start: 3, ops: seq![Op::Add(2), Op::Mul(2)], result: 10 }, state)
    } else {
        match attempt(state) {
            (Some(practice), next) => (practice, next),
            (None, next) => first_kept(next, (attempts - 1) as nat),
        }
    }
}

/// Draws one update.
fn draw_op(rng: &mut SimpleRng) -> (op: Op)
    ensures
        (op, final(rng).state) == drawn_op(old(rng).state),
{
    let kind: i32 = rng.gen_range_i32(0, 2);
    if kind == 0 {
        Op::Add(rng.gen_range_i32(1, 4))
    } else if kind == 1 {
        Op::Sub(rng.gen_range_i32(1, 4))
    } else {
        Op::Mul(rng.gen_range_i32(2, 3))
    }
}

/// Applies the updates in order and keeps every value between 0 and 99.
pub fn run_ops(start: i32, ops: &Vec<Op>) -> (r: Option<i32>)
    ensures
        r == run(start, ops@),
{
    let mut value: i32 = start;
    let mut i: usize = 0;
    assert(ops@.skip(0) =~= ops@);
    while i < ops.len()
        invariant
            i <= ops.len(),
            run(start, ops@) == run(value, ops@.skip(i as int)),
        decreases ops.len() - i,
    {
        proof {
            assert(ops@.skip(i as int).drop_first() =~= ops@.skip(i as int + 1));
        }
        match ops[i].apply(value) {
            Some(next) => {
                value = next;
            },
            None => {
                return None;
            },
        }
        if value < 0 || value > 99 {
            return None;
        }
        i += 1;
    }
    Some(value)
}

/// A sequence to practise on: the first of the next `attempts` sequences
/// drawn that keeps its value between 0 and 99, with the value after it.
/// If none of them does, it is 3, plus 2, times 2, which gives 10.
pub fn generate_practice_within(rng: &mut SimpleRng, attempts: usize) -> (r: (i32, Vec<Op>, i32))
    ensures
        (Practice { start: r.0, ops: r.1@, result: r.2 }, final(rng).state) == first_kept(
            old(rng).state,
            attempts as nat,
        ),
{
    let mut left: usize = attempts;
    while left > 0
        invariant
            left <= attempts,
            first_kept(old(rng).state, attempts as nat) == first_kept(rng.state, left as nat),
        decreases left,
    {
        let start: i32 = rng.gen_range_i32(2, 9);
        let op_count: i32 = rng.gen_range_i32(2, 4);
        let ghost from = rng.state;
        let mut ops: Vec<Op> = Vec::new();
        let mut k: i32 = 0;
        while k < op_count
            invariant
                0 <= k <= op_count,
                (ops@, rng.state) == drawn_ops(from, k as nat),
            decreases op_count - k,
        {
            let op = draw_op(rng);
            ops.push(op);
            k += 1;
        }
        left -= 1;
        match run_ops(start, &ops) {
            Some(value) => {
                return (start, ops, value);
            },
            None => {},
        }
    }
    let mut ops: Vec<Op> = Vec::new();
    ops.push(Op::Add(2));
    ops.push(Op::Mul(2));
    assert(ops@ =~= seq![Op::Add(2), Op::Mul(2)]);
    (3, ops, 10)
}

/// The number of sequences that are drawn before the fixed one is taken.
pub const ATTEMPTS: usize = 200;

/// A sequence to practise on: a start from 2 to 9 and two to four updates
/// that keep the value between 0 and 99, with the value after them. If 200
/// attempts give no such sequence, it is 3, plus 2, times 2, which gives 10.
pub fn generate_practice(rng: &mut SimpleRng) -> (r: (i32, Vec<Op>, i32))
    ensures
        (Practice { start: r.0, ops: r.1@, result: r.2 }, final(rng).state) == first_kept(
            old(rng).state,
            ATTEMPTS as nat,
        ),
{
    generate_practice_within(rng, ATTEMPTS)
}

} // verus!
