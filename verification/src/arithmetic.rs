//! The grammar of arithmetic expressions.
//!
//! From lowest to highest precedence: `+` and `-`, then `*`, then unary
//! `-`, then a number or an expression in parentheses. The binary operators
//! group from the left. A number is a run of decimal digits with a value of
//! at most `i64::MAX`. White space may stand before any token.

use vstd::prelude::*;
use vstd::string::StringSliceAdditionalSpecFns;
use crate::error::{EvalError, ParseError, ParseErrorKind};
use crate::expr::{count_ops, lemma_small_tree, BinaryOp, Expr, UnaryOp, Value};
use crate::laws::law_arithmetic_expression_has_a_number;
use crate::reduce::eval_expr;
use crate::rng::{draw_between, xorshift, SimpleRng};
use crate::scan::{
    fail, is_ascii_digit, is_digit, lemma_skip_spaces, remaining, shift, skip_spaces, Parser,
};

verus! {

/// The byte `+`.
pub const PLUS: u8 = 0x2b;

/// The byte `-`.
pub const MINUS: u8 = 0x2d;

/// The byte `*`.
pub const STAR: u8 = 0x2a;

/// The byte `(`.
pub const OPEN: u8 = 0x28;

/// The byte `)`.
pub const CLOSE: u8 = 0x29;

/// Whether the byte `b` stands in `s` at `pos`.
pub open spec fn has_byte_at(s: Seq<u8>, pos: int, b: u8) -> bool {
    0 <= pos < s.len() && s[pos] == b
}

/// The run of digits at `pos`, read into the value `acc` that the digits
/// before it gave: the value of the whole run and the number of digits read.
/// A value above `i64::MAX` is an error at the digit that takes it there.
pub open spec fn digits(s: Seq<u8>, pos: int, acc: int) -> Result<(int, nat), ParseError>
    decreases remaining(s, pos),
{
    if 0 <= pos < s.len() && is_digit(s[pos]) {
        let next = acc * 10 + (s[pos] - 0x30);
        if next > i64::MAX {
            Err(fail(ParseErrorKind::NumberTooLarge, pos))
        } else {
            match digits(s, pos + 1, next) {
                Ok((v, n)) => Ok((v, n + 1)),
                Err(e) => Err(e),
            }
        }
    } else {
        Ok((acc, 0))
    }
}

/// A number, read from `pos`.
pub open spec fn number(s: Seq<u8>, pos: int) -> Result<(Expr, nat), ParseError> {
    let p = skip_spaces(s, pos);
    match digits(s, p, 0) {
        Err(e) => Err(e),
        Ok((v, n)) => if n == 0 {
            Err(fail(ParseErrorKind::ExpectedNumber, p))
        } else {
            Ok((Expr::Literal(Value::Num(v as i64)), (p + n - pos) as nat))
        },
    }
}

/// Any number of unary `-` in front of a number or of an expression in
/// parentheses, read from `pos`.
pub open spec fn factor(s: Seq<u8>, pos: int) -> Result<(Expr, nat), ParseError>
    decreases remaining(s, pos), 0nat,
{
    let p = skip_spaces(s, pos);
    if has_byte_at(s, p, MINUS) {
        proof {
            lemma_skip_spaces(s, pos);
        }
        match factor(s, p + 1) {
            Ok((inner, n)) => Ok(
                (Expr::Unary(UnaryOp::Neg, Box::new(inner)), (p + 1 + n - pos) as nat),
            ),
            Err(e) => Err(e),
        }
    } else if has_byte_at(s, p, OPEN) {
        proof {
            lemma_skip_spaces(s, pos);
        }
        match sum(s, p + 1) {
            Err(e) => Err(e),
            Ok((e, n)) => {
                let q = skip_spaces(s, p + 1 + n);
                if has_byte_at(s, q, CLOSE) {
                    Ok((e, (q + 1 - pos) as nat))
                } else {
                    Err(fail(ParseErrorKind::ExpectedClosingParen, q))
                }
            },
        }
    } else {
        number(s, pos)
    }
}

/// What follows an operand of a chain of `*`, read from `pos`: each further
/// operand is joined to the tree on its left.
pub open spec fn product_tail(s: Seq<u8>, pos: int, left: Expr) -> Result<(Expr, nat), ParseError>
    decreases remaining(s, pos), 1nat,
{
    let p = skip_spaces(s, pos);
    if has_byte_at(s, p, STAR) {
        proof {
            lemma_skip_spaces(s, pos);
        }
        match factor(s, p + 1) {
            Ok((right, m)) => shift(
                product_tail(
                    s,
                    p + 1 + m,
                    Expr::Binary(BinaryOp::Mul, Box::new(left), Box::new(right)),
                ),
                p + 1 + m - pos,
            ),
            Err(e) => Err(e),
        }
    } else {
        Ok((left, (p - pos) as nat))
    }
}

/// A chain of factors joined by `*`, grouped from the left.
pub open spec fn product(s: Seq<u8>, pos: int) -> Result<(Expr, nat), ParseError>
    decreases remaining(s, pos), 2nat,
{
    match factor(s, pos) {
        Ok((first, n)) => shift(product_tail(s, pos + n, first), n as int),
        Err(e) => Err(e),
    }
}

/// The operator `+` or `-` at `pos`, if one stands there.
pub open spec fn additive_at(s: Seq<u8>, pos: int) -> Option<BinaryOp> {
    if has_byte_at(s, pos, PLUS) {
        Some(BinaryOp::Add)
    } else if has_byte_at(s, pos, MINUS) {
        Some(BinaryOp::Sub)
    } else {
        None
    }
}

/// What follows an operand of a chain of `+` and `-`, read from `pos`.
pub open spec fn sum_tail(s: Seq<u8>, pos: int, left: Expr) -> Result<(Expr, nat), ParseError>
    decreases remaining(s, pos), 3nat,
{
    let p = skip_spaces(s, pos);
    match additive_at(s, p) {
        Some(op) => {
            proof {
                lemma_skip_spaces(s, pos);
            }
            match product(s, p + 1) {
                Ok((right, m)) => shift(
                    sum_tail(s, p + 1 + m, Expr::Binary(op, Box::new(left), Box::new(right))),
                    p + 1 + m - pos,
                ),
                Err(e) => Err(e),
            }
        },
        None => Ok((left, (p - pos) as nat)),
    }
}

/// A chain of products joined by `+` and `-`, grouped from the left.
pub open spec fn sum(s: Seq<u8>, pos: int) -> Result<(Expr, nat), ParseError>
    decreases remaining(s, pos), 4nat,
{
    match product(s, pos) {
        Ok((first, n)) => shift(sum_tail(s, pos + n, first), n as int),
        Err(e) => Err(e),
    }
}

/// The whole input as an arithmetic expression: a sum, and after it nothing
/// but white space.
pub open spec fn parse(s: Seq<u8>) -> Result<Expr, ParseError> {
    match sum(s, 0) {
        Err(e) => Err(e),
        Ok((e, n)) => {
            let q = skip_spaces(s, n as int);
            if q < s.len() {
                Err(fail(ParseErrorKind::UnexpectedInput, q))
            } else {
                Ok(e)
            }
        },
    }
}

/// What is read is an arithmetic expression that lies inside the input and
/// has at most one node for each byte read.
pub open spec fn well_read(s: Seq<u8>, pos: int, r: Result<(Expr, nat), ParseError>) -> bool {
    r matches Ok((e, n)) ==> e.is_arithmetic() && 0 <= pos && pos + n <= s.len()
        && e.node_count() <= n
}

/// What is read after an operand is an arithmetic expression that lies
/// inside the input and has at most one node more than the operand for each
/// byte read.
pub open spec fn well_continued(
    s: Seq<u8>,
    pos: int,
    left: Expr,
    r: Result<(Expr, nat), ParseError>,
) -> bool {
    r matches Ok((e, n)) ==> e.is_arithmetic() && pos + n <= s.len() && e.node_count()
        <= left.node_count() + n
}

/// The digits that are read lie inside the input, and their value is a
/// number from 0 to `i64::MAX`.
pub proof fn lemma_digits(s: Seq<u8>, pos: int, acc: int)
    requires
        0 <= pos <= s.len(),
        0 <= acc <= i64::MAX,
    ensures
        digits(s, pos, acc) matches Ok((v, n)) ==> pos + n <= s.len() && 0 <= v <= i64::MAX,
    decreases remaining(s, pos),
{
    if pos < s.len() && is_digit(s[pos]) {
        let next = acc * 10 + (s[pos] - 0x30);
        if next <= i64::MAX {
            lemma_digits(s, pos + 1, next);
        }
    }
}

/// A factor that is read is an arithmetic expression inside the input.
pub proof fn lemma_factor_well_read(s: Seq<u8>, pos: int)
    ensures
        well_read(s, pos, factor(s, pos)),
    decreases remaining(s, pos), 0nat,
{
    let p = skip_spaces(s, pos);
    lemma_skip_spaces(s, pos);
    if has_byte_at(s, p, MINUS) {
        lemma_factor_well_read(s, p + 1);
    } else if has_byte_at(s, p, OPEN) {
        lemma_sum_well_read(s, p + 1);
        match sum(s, p + 1) {
            Err(_) => {},
            Ok((e, n)) => {
                lemma_skip_spaces(s, p + 1 + n);
            },
        }
    } else {
        if 0 <= p <= s.len() {
            lemma_digits(s, p, 0);
        }
    }
}

/// A chain of `*` that is read after an arithmetic operand is an
/// arithmetic expression inside the input.
pub proof fn lemma_product_tail_well_read(s: Seq<u8>, pos: int, left: Expr)
    requires
        left.is_arithmetic(),
        0 <= pos <= s.len(),
    ensures
        well_continued(s, pos, left, product_tail(s, pos, left)),
    decreases remaining(s, pos), 1nat,
{
    let p = skip_spaces(s, pos);
    lemma_skip_spaces(s, pos);
    if has_byte_at(s, p, STAR) {
        lemma_factor_well_read(s, p + 1);
        match factor(s, p + 1) {
            Ok((right, m)) => {
                lemma_product_tail_well_read(
                    s,
                    p + 1 + m,
                    Expr::Binary(BinaryOp::Mul, Box::new(left), Box::new(right)),
                );
            },
            Err(_) => {},
        }
    }
}

/// A product that is read is an arithmetic expression inside the input.
pub proof fn lemma_product_well_read(s: Seq<u8>, pos: int)
    ensures
        well_read(s, pos, product(s, pos)),
    decreases remaining(s, pos), 2nat,
{
    lemma_factor_well_read(s, pos);
    match factor(s, pos) {
        Ok((first, n)) => {
            lemma_product_tail_well_read(s, pos + n, first);
        },
        Err(_) => {},
    }
}

/// A chain of `+` and `-` that is read after an arithmetic operand is an
/// arithmetic expression inside the input.
pub proof fn lemma_sum_tail_well_read(s: Seq<u8>, pos: int, left: Expr)
    requires
        left.is_arithmetic(),
        0 <= pos <= s.len(),
    ensures
        well_continued(s, pos, left, sum_tail(s, pos, left)),
    decreases remaining(s, pos), 3nat,
{
    let p = skip_spaces(s, pos);
    lemma_skip_spaces(s, pos);
    match additive_at(s, p) {
        Some(op) => {
            lemma_product_well_read(s, p + 1);
            match product(s, p + 1) {
                Ok((right, m)) => {
                    lemma_sum_tail_well_read(
                        s,
                        p + 1 + m,
                        Expr::Binary(op, Box::new(left), Box::new(right)),
                    );
                },
                Err(_) => {},
            }
        },
        None => {},
    }
}

/// A sum that is read is an arithmetic expression inside the input.
pub proof fn lemma_sum_well_read(s: Seq<u8>, pos: int)
    ensures
        well_read(s, pos, sum(s, pos)),
    decreases remaining(s, pos), 4nat,
{
    lemma_product_well_read(s, pos);
    match product(s, pos) {
        Ok((first, n)) => {
            lemma_sum_tail_well_read(s, pos + n, first);
        },
        Err(_) => {},
    }
}

/// What is parsed is an arithmetic expression with no more nodes than the
/// input has bytes, so it evaluates to a number or overflows.
pub proof fn law_parsed_is_arithmetic(s: Seq<u8>)
    ensures
        parse(s) matches Ok(e) ==> e.is_arithmetic() && e.node_count() <= s.len() && (
        e.value() matches Ok(Value::Num(_)) || e.value() == Err::<Value, EvalError>(
            EvalError::Overflow,
        )),
{
    lemma_sum_well_read(s, 0);
    if parse(s) is Ok {
        law_arithmetic_expression_has_a_number(parse(s)->Ok_0);
    }
}

/// Reading a number after the white space before it gives the same tree
/// and ends at the same place as reading it with the white space.
pub proof fn lemma_number_after_spaces(s: Seq<u8>, pos: int)
    ensures
        number(s, pos) == shift(number(s, skip_spaces(s, pos)), skip_spaces(s, pos) - pos),
{
    lemma_skip_spaces(s, pos);
}

impl<'a> Parser<'a> {
    /// Reads a run of decimal digits as a number.
    pub fn parse_number(&mut self) -> (r: Result<Expr, ParseError>)
        requires
            old(self).wf(),
        ensures
            old(self).parsed_as(final(self), r, number(old(self).input@, old(self).pos as int)),
    {
        let ghost s = self.input@;
        proof {
            lemma_skip_spaces(s, self.pos as int);
        }
        self.skip_ws();
        let start: usize = self.pos;
        let mut value: i64 = 0;
        while self.pos < self.input.len() && is_ascii_digit(self.input[self.pos])
            invariant
                self.wf(),
                self.input == old(self).input,
                s == old(self).input@,
                start == skip_spaces(s, old(self).pos as int),
                start <= self.pos,
                0 <= value,
                digits(s, start as int, 0) == match digits(s, self.pos as int, value as int) {
                    Ok((v, n)) => Ok::<(int, nat), ParseError>((v, (n + (self.pos - start)) as nat)),
                    Err(e) => Err(e),
                },
            decreases remaining(s, self.pos as int),
        {
            let digit: i64 = (self.input[self.pos] - 0x30) as i64;
            let here: usize = self.pos;
            self.pos += 1;
            let next = match value.checked_mul(10) {
                Some(tenfold) => tenfold.checked_add(digit),
                None => None,
            };
            match next {
                Some(v) => {
                    value = v;
                },
                None => {
                    assert(value * 10 + digit > i64::MAX);
                    assert(digits(s, here as int, value as int) == Err::<(int, nat), ParseError>(
                        fail(ParseErrorKind::NumberTooLarge, here as int),
                    ));
                    return Err(ParseError { kind: ParseErrorKind::NumberTooLarge, offset: here });
                },
            }
        }
        if self.pos == start {
            return Err(self.error_here(ParseErrorKind::ExpectedNumber));
        }
        Ok(Expr::num(value))
    }

    /// Reads any number of unary `-` and what they stand before: a number
    /// or an expression in parentheses.
    pub fn parse_factor(&mut self) -> (r: Result<Expr, ParseError>)
        requires
            old(self).wf(),
        ensures
            old(self).parsed_as(final(self), r, factor(old(self).input@, old(self).pos as int)),
        decreases remaining(old(self).input@, old(self).pos as int), 0nat,
    {
        let ghost s = self.input@;
        let ghost start = self.pos as int;
        proof {
            lemma_skip_spaces(s, start);
            lemma_number_after_spaces(s, start);
        }
        self.skip_ws();
        if self.consume(MINUS) {
            return match self.parse_factor() {
                Ok(inner) => Ok(Expr::Unary(UnaryOp::Neg, Box::new(inner))),
                Err(e) => Err(e),
            };
        }
        if self.consume(OPEN) {
            let inner = match self.parse_sum() {
                Ok(e) => e,
                Err(e) => {
                    return Err(e);
                },
            };
            proof {
                lemma_skip_spaces(s, self.pos as int);
            }
            self.skip_ws();
            if !self.consume(CLOSE) {
                return Err(self.error_here(ParseErrorKind::ExpectedClosingParen));
            }
            return Ok(inner);
        }
        self.parse_number()
    }

    /// Reads a chain of factors joined by `*`.
    pub fn parse_product(&mut self) -> (r: Result<Expr, ParseError>)
        requires
            old(self).wf(),
        ensures
            old(self).parsed_as(final(self), r, product(old(self).input@, old(self).pos as int)),
        decreases remaining(old(self).input@, old(self).pos as int), 2nat,
    {
        let ghost s = self.input@;
        let ghost start = self.pos as int;
        let mut node = match self.parse_factor() {
            Ok(e) => e,
            Err(e) => {
                return Err(e);
            },
        };
        loop
            invariant
                self.wf(),
                self.input == old(self).input,
                s == old(self).input@,
                start == old(self).pos,
                start <= self.pos,
                product(s, start) == shift(
                    product_tail(s, self.pos as int, node),
                    self.pos - start,
                ),
            decreases remaining(s, self.pos as int),
        {
            let ghost here = self.pos as int;
            let ghost left = node;
            proof {
                lemma_skip_spaces(s, here);
            }
            self.skip_ws();
            if !self.consume(STAR) {
                return Ok(node);
            }
            let right = match self.parse_factor() {
                Ok(e) => e,
                Err(e) => {
                    return Err(e);
                },
            };
            node = Expr::Binary(BinaryOp::Mul, Box::new(node), Box::new(right));
            assert(product_tail(s, here, left) == shift(
                product_tail(s, self.pos as int, node),
                self.pos - here,
            ));
        }
    }

    /// Reads a chain of products joined by `+` and `-`.
    pub fn parse_sum(&mut self) -> (r: Result<Expr, ParseError>)
        requires
            old(self).wf(),
        ensures
            old(self).parsed_as(final(self), r, sum(old(self).input@, old(self).pos as int)),
        decreases remaining(old(self).input@, old(self).pos as int), 4nat,
    {
        let ghost s = self.input@;
        let ghost start = self.pos as int;
        let mut node = match self.parse_product() {
            Ok(e) => e,
            Err(e) => {
                return Err(e);
            },
        };
        loop
            invariant
                self.wf(),
                self.input == old(self).input,
                s == old(self).input@,
                start == old(self).pos,
                start <= self.pos,
                sum(s, start) == shift(sum_tail(s, self.pos as int, node), self.pos - start),
            decreases remaining(s, self.pos as int),
        {
            let ghost here = self.pos as int;
            let ghost left = node;
            proof {
                lemma_skip_spaces(s, here);
            }
            self.skip_ws();
            let op = if self.consume(PLUS) {
                BinaryOp::Add
            } else if self.consume(MINUS) {
                BinaryOp::Sub
            } else {
                return Ok(node);
            };
            let right = match self.parse_product() {
                Ok(e) => e,
                Err(e) => {
                    return Err(e);
                },
            };
            node = Expr::Binary(op, Box::new(node), Box::new(right));
            assert(sum_tail(s, here, left) == shift(
                sum_tail(s, self.pos as int, node),
                self.pos - here,
            ));
        }
    }
}

/// Parses the whole text as an arithmetic expression. Fails when a number
/// or a closing parenthesis is missing, when a number does not fit in 64
/// bits, and when anything but white space follows the expression; the
/// error names the offset at which this was found.
pub fn parse_expression(input: &str) -> (r: Result<Expr, ParseError>)
    ensures
        r == parse(input.spec_bytes()),
        r matches Ok(e) ==> e.is_arithmetic() && e.node_count() <= input.spec_bytes().len(),
{
    proof {
        law_parsed_is_arithmetic(input.spec_bytes());
    }
    let mut parser = Parser::new(input);
    let expr = match parser.parse_sum() {
        Ok(e) => e,
        Err(e) => {
            return Err(e);
        },
    };
    parser.skip_ws();
    if parser.pos < parser.input.len() {
        return Err(parser.error_here(ParseErrorKind::UnexpectedInput));
    }
    Ok(expr)
}

/// The binary operator that a roll of 0 to 4 stands for.
pub open spec fn rolled_operator(roll: int) -> BinaryOp {
    if roll == 0 {
        BinaryOp::Add
    } else if roll == 1 {
        BinaryOp::Sub
    } else {
        BinaryOp::Mul
    }
}

/// The random arithmetic expression that is drawn from `state`, with its
/// root `depth` levels down and no node more than `max_depth` levels down,
/// and the state after it. One draw in five ends in a number from 1 to 9,
/// as does every draw at `max_depth`; of the others one in five is a
/// negation, one a sum, one a difference and two are products.
pub open spec fn random_tree(state: u64, depth: nat, max_depth: nat) -> (Expr, u64)
    decreases max_depth - depth,
{
    if depth >= max_depth {
        (Expr::Literal(Value::Num(draw_between(state, 1, 9) as i64)), xorshift(state))
    } else if draw_between(state, 0, 4) == 0 {
        let s1 = xorshift(state);
        (Expr::Literal(Value::Num(draw_between(s1, 1, 9) as i64)), xorshift(s1))
    } else {
        let s1 = xorshift(state);
        let s2 = xorshift(s1);
        let roll = draw_between(s1, 0, 4);
        if roll == 3 {
            let (inner, s3) = random_tree(s2, depth + 1, max_depth);
            (Expr::Unary(UnaryOp::Neg, Box::new(inner)), s3)
        } else {
            let (left, s3) = random_tree(s2, depth + 1, max_depth);
            let (right, s4) = random_tree(s3, depth + 1, max_depth);
            (Expr::Binary(rolled_operator(roll), Box::new(left), Box::new(right)), s4)
        }
    }
}

/// A random tree is an arithmetic expression and no higher than it may be.
pub proof fn lemma_random_tree(state: u64, depth: nat, max_depth: nat)
    requires
        depth <= max_depth,
    ensures
        random_tree(state, depth, max_depth).0.is_arithmetic(),
        random_tree(state, depth, max_depth).0.height() <= max_depth - depth,
    decreases max_depth - depth,
{
    if depth < max_depth && draw_between(state, 0, 4) != 0 {
        let s1 = xorshift(state);
        let s2 = xorshift(s1);
        lemma_random_tree(s2, depth + 1, max_depth);
        if draw_between(s1, 0, 4) != 3 {
            let s3 = random_tree(s2, depth + 1, max_depth).1;
            lemma_random_tree(s3, depth + 1, max_depth);
        }
    }
}

/// Draws a random arithmetic expression whose root lies `depth` levels
/// down and whose nodes lie no more than `max_depth` levels down.
pub fn random_expr(rng: &mut SimpleRng, depth: u8, max_depth: u8) -> (e: Expr)
    ensures
        (e, final(rng).state) == random_tree(old(rng).state, depth as nat, max_depth as nat),
    decreases max_depth - depth,
{
    let use_number = depth >= max_depth || rng.gen_range_i64(0, 4) == 0;
    if use_number {
        let value: i64 = rng.gen_range_i64(1, 9);
        return Expr::num(value);
    }
    let roll: i64 = rng.gen_range_i64(0, 4);
    if roll == 3 {
        let inner = random_expr(rng, depth + 1, max_depth);
        return Expr::Unary(UnaryOp::Neg, Box::new(inner));
    }
    let left = random_expr(rng, depth + 1, max_depth);
    let right = random_expr(rng, depth + 1, max_depth);
    let op = if roll == 0 {
        BinaryOp::Add
    } else if roll == 1 {
        BinaryOp::Sub
    } else {
        BinaryOp::Mul
    };
    Expr::Binary(op, Box::new(left), Box::new(right))
}

/// An expression to evaluate, with the value it has.
#[derive(Debug)]
pub struct Exercise {
    pub expr: Expr,
    pub answer: i64,
}

/// The greatest depth of a node in a generated expression.
pub const MAX_DEPTH: u8 = 3;

/// The number of expressions that are drawn for an exercise before the
/// fixed one is taken.
pub const EXERCISE_ATTEMPTS: usize = 200;

/// The number of expressions that are drawn for a tree to practise on
/// before the fixed one is taken.
pub const TREE_ATTEMPTS: usize = 120;

/// What a drawn expression is for.
pub enum Purpose {
    /// To ask for its value.
    Exercise,
    /// To reduce it step by step.
    Tree,
}

/// Whether a drawn expression serves the purpose. An exercise has two
/// operators at least and a value from 0 to 99; a tree to practise on has
/// an operator and a value from -50 to 50.
pub open spec fn serves(e: Expr, purpose: Purpose) -> bool {
    match purpose {
        Purpose::Exercise => e.op_count() >= 2 && (e.value() matches Ok(Value::Num(n)) && 0 <= n
            <= 99),
        Purpose::Tree => e.op_count() >= 1 && (e.value() matches Ok(Value::Num(n)) && -50 <= n
            <= 50),
    }
}

/// The first expression that serves the purpose among the next `attempts`
/// that are drawn from `state`, with the state after it, or nothing if none
/// of them does.
pub open spec fn first_serving(state: u64, attempts: nat, purpose: Purpose) -> Option<(Expr, u64)>
    decreases attempts,
{
    if attempts == 0 {
        None
    } else {
        let (e, next) = random_tree(state, 0, MAX_DEPTH as nat);
        if serves(e, purpose) {
            Some((e, next))
        } else {
            first_serving(next, (attempts - 1) as nat, purpose)
        }
    }
}

/// The state after `attempts` expressions have been drawn from `state`.
pub open spec fn state_after(state: u64, attempts: nat) -> u64
    decreases attempts,
{
    if attempts == 0 {
        state
    } else {
        state_after(random_tree(state, 0, MAX_DEPTH as nat).1, (attempts - 1) as nat)
    }
}

/// What is found to serve a purpose is an arithmetic expression of height
/// 3 at most, and serves the purpose.
pub proof fn lemma_first_serving(state: u64, attempts: nat, purpose: Purpose)
    ensures
        first_serving(state, attempts, purpose) matches Some((e, _)) ==> e.is_arithmetic()
            && e.height() <= MAX_DEPTH && serves(e, purpose),
    decreases attempts,
{
    if attempts > 0 {
        lemma_random_tree(state, 0, MAX_DEPTH as nat);
        let (e, next) = random_tree(state, 0, MAX_DEPTH as nat);
        if !serves(e, purpose) {
            lemma_first_serving(next, (attempts - 1) as nat, purpose);
        }
    }
}

/// The expression `(2 * 3) + 1`, which is asked about when no drawn
/// expression will do.
pub open spec fn fixed_exercise() -> Expr {
    Expr::Binary(
        BinaryOp::Add,
        Box::new(
            Expr::Binary(
                BinaryOp::Mul,
                Box::new(Expr::Literal(Value::Num(2))),
                Box::new(Expr::Literal(Value::Num(3))),
            ),
        ),
        Box::new(Expr::Literal(Value::Num(1))),
    )
}

/// The expression `(2 * 3) + 1`.
fn fixed() -> (e: Expr)
    ensures
        e == fixed_exercise(),
        e.is_arithmetic(),
        e.op_count() == 2,
        e.value() == Ok::<Value, EvalError>(Value::Num(7)),
{
    proof {
        reveal_with_fuel(Expr::is_arithmetic, 3);
        reveal_with_fuel(Expr::op_count, 3);
        reveal_with_fuel(Expr::value, 3);
    }
    Expr::Binary(
        BinaryOp::Add,
        Box::new(Expr::Binary(BinaryOp::Mul, Box::new(Expr::num(2)), Box::new(Expr::num(3)))),
        Box::new(Expr::num(1)),
    )
}

/// An exercise: the first of the next `attempts` random arithmetic
/// expressions that has two operators at least and a value from 0 to 99,
/// together with its value. If none of them will do, the exercise is
/// `(2 * 3) + 1`.
pub fn generate_exercise_within(rng: &mut SimpleRng, attempts: usize) -> (exercise: Exercise)
    ensures
        match first_serving(old(rng).state, attempts as nat, Purpose::Exercise) {
            Some((e, state)) => exercise.expr == e && final(rng).state == state,
            None => exercise.expr == fixed_exercise() && final(rng).state == state_after(
                old(rng).state,
                attempts as nat,
            ),
        },
        exercise.expr.is_arithmetic(),
        exercise.expr.value() == Ok::<Value, EvalError>(Value::Num(exercise.answer)),
        0 <= exercise.answer <= 99,
{
    let ghost purpose = Purpose::Exercise;
    let mut left: usize = attempts;
    while left > 0
        invariant
            left <= attempts,
            purpose == Purpose::Exercise,
            first_serving(old(rng).state, attempts as nat, purpose) == first_serving(
                rng.state,
                left as nat,
                purpose,
            ),
            first_serving(rng.state, left as nat, purpose).is_none() ==> state_after(
                old(rng).state,
                attempts as nat,
            ) == state_after(rng.state, left as nat),
        decreases left,
    {
        let ghost before = rng.state;
        let expr = random_expr(rng, 0, MAX_DEPTH);
        proof {
            lemma_random_tree(before, 0, MAX_DEPTH as nat);
            lemma_small_tree(expr);
            law_arithmetic_expression_has_a_number(expr);
        }
        left -= 1;
        if expr.is_literal() {
            continue ;
        }
        if count_ops(&expr) < 2 {
            continue ;
        }
        match eval_expr(&expr) {
            Ok(Value::Num(answer)) => {
                if 0 <= answer && answer <= 99 {
                    return Exercise { expr, answer };
                }
            },
            _ => {},
        }
    }
    Exercise { expr: fixed(), answer: 7 }
}

/// An exercise: a random arithmetic expression with two operators at
/// least and a value from 0 to 99, together with its value. If 200 draws
/// give no such expression, the exercise is `(2 * 3) + 1`.
pub fn generate_exercise(rng: &mut SimpleRng) -> (exercise: Exercise)
    ensures
        match first_serving(old(rng).state, EXERCISE_ATTEMPTS as nat, Purpose::Exercise) {
            Some((e, state)) => exercise.expr == e && final(rng).state == state,
            None => exercise.expr == fixed_exercise() && final(rng).state == state_after(
                old(rng).state,
                EXERCISE_ATTEMPTS as nat,
            ),
        },
        exercise.expr.is_arithmetic(),
        exercise.expr.value() == Ok::<Value, EvalError>(Value::Num(exercise.answer)),
        0 <= exercise.answer <= 99,
{
    generate_exercise_within(rng, EXERCISE_ATTEMPTS)
}

/// A tree to practise on: the first of the next `attempts` random
/// arithmetic expressions that has an operator and a value from -50 to 50.
/// If none of them will do, the tree is the single number 1.
pub fn generate_tree_expr_within(rng: &mut SimpleRng, attempts: usize) -> (expr: Expr)
    ensures
        match first_serving(old(rng).state, attempts as nat, Purpose::Tree) {
            Some((e, state)) => expr == e && final(rng).state == state,
            None => expr == Expr::Literal(Value::Num(1)) && final(rng).state == state_after(
                old(rng).state,
                attempts as nat,
            ),
        },
        expr.is_arithmetic(),
        expr.height() <= MAX_DEPTH,
        expr.value() matches Ok(Value::Num(n)) && -50 <= n <= 50,
{
    let ghost purpose = Purpose::Tree;
    let mut left: usize = attempts;
    while left > 0
        invariant
            left <= attempts,
            purpose == Purpose::Tree,
            first_serving(old(rng).state, attempts as nat, purpose) == first_serving(
                rng.state,
                left as nat,
                purpose,
            ),
            first_serving(rng.state, left as nat, purpose).is_none() ==> state_after(
                old(rng).state,
                attempts as nat,
            ) == state_after(rng.state, left as nat),
        decreases left,
    {
        let ghost before = rng.state;
        let expr = random_expr(rng, 0, MAX_DEPTH);
        proof {
            lemma_random_tree(before, 0, MAX_DEPTH as nat);
            law_arithmetic_expression_has_a_number(expr);
        }
        left -= 1;
        if expr.is_literal() {
            continue ;
        }
        match eval_expr(&expr) {
            Ok(Value::Num(value)) => {
                if -50 <= value && value <= 50 {
                    return expr;
                }
            },
            _ => {},
        }
    }
    Expr::num(1)
}

/// A tree to practise on: a random arithmetic expression with an operator
/// and a value from -50 to 50. If 120 draws give no such expression, the
/// tree is the single number 1.
pub fn generate_tree_expr(rng: &mut SimpleRng) -> (expr: Expr)
    ensures
        match first_serving(old(rng).state, TREE_ATTEMPTS as nat, Purpose::Tree) {
            Some((e, state)) => expr == e && final(rng).state == state,
            None => expr == Expr::Literal(Value::Num(1)) && final(rng).state == state_after(
                old(rng).state,
                TREE_ATTEMPTS as nat,
            ),
        },
        expr.is_arithmetic(),
        expr.height() <= MAX_DEPTH,
        expr.value() matches Ok(Value::Num(n)) && -50 <= n <= 50,
{
    generate_tree_expr_within(rng, TREE_ATTEMPTS)
}

} // verus!
