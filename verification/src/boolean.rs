//! The grammar of boolean expressions.
//!
//! From lowest to highest precedence: `or`, `and`, `not`, then a literal or
//! an expression in parentheses. The operators may be written as the words
//! `or`, `and`, `not` or as `||`, `&&`, `!`; the literals are `true`, `yes`,
//! `on` and `false`, `no`, `off`. White space may stand before any token.

use vstd::prelude::*;
use vstd::string::*;
use crate::error::{EvalError, ParseError, ParseErrorKind};
use crate::expr::{count_ops, lemma_small_tree, BinaryOp, Expr, UnaryOp, Value};
use crate::laws::law_boolean_expression_has_a_truth_value;
use crate::reduce::eval_expr;
use crate::rng::{draw_between, xorshift, SimpleRng};
use crate::scan::{
    fail, has_text_at, has_word_at, lemma_ascii_bytes, lemma_skip_spaces, remaining, shift,
    skip_spaces, text_bytes, Parser,
};

verus! {

/// The boolean literal that stands at `pos` as a word of its own, with its
/// length in bytes.
pub open spec fn literal_at(s: Seq<u8>, pos: int) -> Option<(bool, nat)> {
    if has_word_at(s, pos, "true"@) {
        Some((true, "true"@.len()))
    } else if has_word_at(s, pos, "yes"@) {
        Some((true, "yes"@.len()))
    } else if has_word_at(s, pos, "on"@) {
        Some((true, "on"@.len()))
    } else if has_word_at(s, pos, "false"@) {
        Some((false, "false"@.len()))
    } else if has_word_at(s, pos, "no"@) {
        Some((false, "no"@.len()))
    } else if has_word_at(s, pos, "off"@) {
        Some((false, "off"@.len()))
    } else {
        None
    }
}

/// The length of the operator `or` or `||` at `pos`, if one stands there.
pub open spec fn or_at(s: Seq<u8>, pos: int) -> Option<nat> {
    if has_word_at(s, pos, "or"@) {
        Some("or"@.len())
    } else if has_text_at(s, pos, "||"@) {
        Some("||"@.len())
    } else {
        None
    }
}

/// The length of the operator `and` or `&&` at `pos`, if one stands there.
pub open spec fn and_at(s: Seq<u8>, pos: int) -> Option<nat> {
    if has_word_at(s, pos, "and"@) {
        Some("and"@.len())
    } else if has_text_at(s, pos, "&&"@) {
        Some("&&"@.len())
    } else {
        None
    }
}

/// The length of the operator `not` or `!` at `pos`, if one stands there.
pub open spec fn not_at(s: Seq<u8>, pos: int) -> Option<nat> {
    if has_word_at(s, pos, "not"@) {
        Some("not"@.len())
    } else if has_text_at(s, pos, "!"@) {
        Some("!"@.len())
    } else {
        None
    }
}

/// An operator that stands at `pos` lies inside the input and is not empty.
pub proof fn lemma_operator_at(s: Seq<u8>, pos: int)
    ensures
        or_at(s, pos) matches Some(n) ==> 0 <= pos && n > 0 && pos + n <= s.len(),
        and_at(s, pos) matches Some(n) ==> 0 <= pos && n > 0 && pos + n <= s.len(),
        not_at(s, pos) matches Some(n) ==> 0 <= pos && n > 0 && pos + n <= s.len(),
        has_text_at(s, pos, "("@) ==> 0 <= pos < s.len(),
{
    reveal_strlit("or");
    reveal_strlit("||");
    reveal_strlit("and");
    reveal_strlit("&&");
    reveal_strlit("not");
    reveal_strlit("!");
    reveal_strlit("(");
}

/// A literal or an expression in parentheses, read from `pos`. The result
/// is the tree and the number of bytes read.
pub open spec fn primary(s: Seq<u8>, pos: int) -> Result<(Expr, nat), ParseError>
    decreases remaining(s, pos), 0nat,
{
    let p = skip_spaces(s, pos);
    if has_text_at(s, p, "("@) {
        proof {
            lemma_operator_at(s, p);
            lemma_skip_spaces(s, pos);
        }
        match disjunction(s, p + 1) {
            Err(e) => Err(e),
            Ok((e, n)) => {
                let q = skip_spaces(s, p + 1 + n);
                if has_text_at(s, q, ")"@) {
                    Ok((e, (q + 1 - pos) as nat))
                } else {
                    Err(fail(ParseErrorKind::ExpectedClosingParen, q))
                }
            },
        }
    } else {
        match literal_at(s, p) {
            Some((b, n)) => Ok((Expr::Literal(Value::Bool(b)), (p + n - pos) as nat)),
            None => Err(fail(ParseErrorKind::ExpectedTruthValue, p)),
        }
    }
}

/// Any number of `not` in front of a primary, read from `pos`.
pub open spec fn negation(s: Seq<u8>, pos: int) -> Result<(Expr, nat), ParseError>
    decreases remaining(s, pos), 1nat,
{
    let p = skip_spaces(s, pos);
    match not_at(s, p) {
        Some(n) => {
            proof {
                lemma_operator_at(s, p);
                if 0 <= pos <= s.len() {
                    lemma_skip_spaces(s, pos);
                }
            }
            match negation(s, p + n) {
                Ok((inner, m)) => Ok(
                    (Expr::Unary(UnaryOp::Not, Box::new(inner)), (p + n + m - pos) as nat),
                ),
                Err(e) => Err(e),
            }
        },
        None => primary(s, pos),
    }
}

/// What follows an operand of a chain of `and`, read from `pos`: each
/// further operand is joined to the tree on its left.
pub open spec fn conjunction_tail(s: Seq<u8>, pos: int, left: Expr) -> Result<
    (Expr, nat),
    ParseError,
>
    decreases remaining(s, pos), 2nat,
{
    let p = skip_spaces(s, pos);
    match and_at(s, p) {
        Some(n) => {
            proof {
                lemma_operator_at(s, p);
                if 0 <= pos <= s.len() {
                    lemma_skip_spaces(s, pos);
                }
            }
            match negation(s, p + n) {
                Ok((right, m)) => match conjunction_tail(
                    s,
                    p + n + m,
                    Expr::Binary(BinaryOp::And, Box::new(left), Box::new(right)),
                ) {
                    Ok((e, k)) => Ok((e, (p + n + m + k - pos) as nat)),
                    Err(e) => Err(e),
                },
                Err(e) => Err(e),
            }
        },
        None => Ok((left, (p - pos) as nat)),
    }
}

/// A chain of negations joined by `and`, grouped from the left.
pub open spec fn conjunction(s: Seq<u8>, pos: int) -> Result<(Expr, nat), ParseError>
    decreases remaining(s, pos), 3nat,
{
    match negation(s, pos) {
        Ok((first, n)) => match conjunction_tail(s, pos + n, first) {
            Ok((e, k)) => Ok((e, n + k)),
            Err(e) => Err(e),
        },
        Err(e) => Err(e),
    }
}

/// What follows an operand of a chain of `or`, read from `pos`.
pub open spec fn disjunction_tail(s: Seq<u8>, pos: int, left: Expr) -> Result<
    (Expr, nat),
    ParseError,
>
    decreases remaining(s, pos), 4nat,
{
    let p = skip_spaces(s, pos);
    match or_at(s, p) {
        Some(n) => {
            proof {
                lemma_operator_at(s, p);
                if 0 <= pos <= s.len() {
                    lemma_skip_spaces(s, pos);
                }
            }
            match conjunction(s, p + n) {
                Ok((right, m)) => match disjunction_tail(
                    s,
                    p + n + m,
                    Expr::Binary(BinaryOp::Or, Box::new(left), Box::new(right)),
                ) {
                    Ok((e, k)) => Ok((e, (p + n + m + k - pos) as nat)),
                    Err(e) => Err(e),
                },
                Err(e) => Err(e),
            }
        },
        None => Ok((left, (p - pos) as nat)),
    }
}

/// A chain of conjunctions joined by `or`, grouped from the left.
pub open spec fn disjunction(s: Seq<u8>, pos: int) -> Result<(Expr, nat), ParseError>
    decreases remaining(s, pos), 5nat,
{
    match conjunction(s, pos) {
        Ok((first, n)) => match disjunction_tail(s, pos + n, first) {
            Ok((e, k)) => Ok((e, n + k)),
            Err(e) => Err(e),
        },
        Err(e) => Err(e),
    }
}

/// The whole input as a boolean expression: a disjunction, and after it
/// nothing but white space.
pub open spec fn parse(s: Seq<u8>) -> Result<Expr, ParseError> {
    match disjunction(s, 0) {
        Err(e) => Err(e),
        Ok((e, n)) => {
            let q = skip_spaces(s, n as int);
            if q < s.len() {
                Err(fail(ParseErrorKind::UnexpectedInput, q))
            } else {
                Ok(e)
            }
        },
    }
}

/// What is read is a boolean expression that lies inside the input and
/// has at most one node for each byte read.
pub open spec fn well_read(s: Seq<u8>, pos: int, r: Result<(Expr, nat), ParseError>) -> bool {
    r matches Ok((e, n)) ==> e.is_boolean() && 0 <= pos && pos + n <= s.len() && e.node_count()
        <= n
}

/// What is read after an operand is a boolean expression that lies inside
/// the input and has at most one node more than the operand for each byte
/// read.
pub open spec fn well_continued(
    s: Seq<u8>,
    pos: int,
    left: Expr,
    r: Result<(Expr, nat), ParseError>,
) -> bool {
    r matches Ok((e, n)) ==> e.is_boolean() && pos + n <= s.len() && e.node_count()
        <= left.node_count() + n
}

/// A literal that is read has two bytes at least.
pub proof fn lemma_literal_at(s: Seq<u8>, pos: int)
    ensures
        literal_at(s, pos) matches Some((_, n)) ==> 0 <= pos && n >= 2 && pos + n <= s.len(),
        has_text_at(s, pos, ")"@) ==> 0 <= pos < s.len(),
{
    reveal_strlit("true");
    reveal_strlit("yes");
    reveal_strlit("on");
    reveal_strlit("false");
    reveal_strlit("no");
    reveal_strlit("off");
    reveal_strlit(")");
}

/// A primary that is read is a boolean expression inside the input.
pub proof fn lemma_primary_well_read(s: Seq<u8>, pos: int)
    ensures
        well_read(s, pos, primary(s, pos)),
    decreases remaining(s, pos), 0nat,
{
    let p = skip_spaces(s, pos);
    lemma_skip_spaces(s, pos);
    lemma_operator_at(s, p);
    lemma_literal_at(s, p);
    if has_text_at(s, p, "("@) {
        lemma_disjunction_well_read(s, p + 1);
        match disjunction(s, p + 1) {
            Err(_) => {},
            Ok((e, n)) => {
                lemma_skip_spaces(s, p + 1 + n);
                lemma_literal_at(s, skip_spaces(s, p + 1 + n));
            },
        }
    }
}

/// A negation that is read is a boolean expression inside the input.
pub proof fn lemma_negation_well_read(s: Seq<u8>, pos: int)
    ensures
        well_read(s, pos, negation(s, pos)),
    decreases remaining(s, pos), 1nat,
{
    let p = skip_spaces(s, pos);
    lemma_skip_spaces(s, pos);
    lemma_operator_at(s, p);
    match not_at(s, p) {
        Some(n) => {
            lemma_negation_well_read(s, p + n);
        },
        None => {
            lemma_primary_well_read(s, pos);
        },
    }
}

/// A chain of `and` that is read after a boolean operand is a boolean
/// expression inside the input.
pub proof fn lemma_conjunction_tail_well_read(s: Seq<u8>, pos: int, left: Expr)
    requires
        left.is_boolean(),
        0 <= pos <= s.len(),
    ensures
        well_continued(s, pos, left, conjunction_tail(s, pos, left)),
    decreases remaining(s, pos), 2nat,
{
    let p = skip_spaces(s, pos);
    lemma_skip_spaces(s, pos);
    lemma_operator_at(s, p);
    match and_at(s, p) {
        Some(n) => {
            lemma_negation_well_read(s, p + n);
            match negation(s, p + n) {
                Ok((right, m)) => {
                    lemma_conjunction_tail_well_read(
                        s,
                        p + n + m,
                        Expr::Binary(BinaryOp::And, Box::new(left), Box::new(right)),
                    );
                },
                Err(_) => {},
            }
        },
        None => {},
    }
}

/// A conjunction that is read is a boolean expression inside the input.
pub proof fn lemma_conjunction_well_read(s: Seq<u8>, pos: int)
    ensures
        well_read(s, pos, conjunction(s, pos)),
    decreases remaining(s, pos), 3nat,
{
    lemma_negation_well_read(s, pos);
    match negation(s, pos) {
        Ok((first, n)) => {
            lemma_conjunction_tail_well_read(s, pos + n, first);
        },
        Err(_) => {},
    }
}

/// A chain of `or` that is read after a boolean operand is a boolean
/// expression inside the input.
pub proof fn lemma_disjunction_tail_well_read(s: Seq<u8>, pos: int, left: Expr)
    requires
        left.is_boolean(),
        0 <= pos <= s.len(),
    ensures
        well_continued(s, pos, left, disjunction_tail(s, pos, left)),
    decreases remaining(s, pos), 4nat,
{
    let p = skip_spaces(s, pos);
    lemma_skip_spaces(s, pos);
    lemma_operator_at(s, p);
    match or_at(s, p) {
        Some(n) => {
            lemma_conjunction_well_read(s, p + n);
            match conjunction(s, p + n) {
                Ok((right, m)) => {
                    lemma_disjunction_tail_well_read(
                        s,
                        p + n + m,
                        Expr::Binary(BinaryOp::Or, Box::new(left), Box::new(right)),
                    );
                },
                Err(_) => {},
            }
        },
        None => {},
    }
}

/// A disjunction that is read is a boolean expression inside the input.
pub proof fn lemma_disjunction_well_read(s: Seq<u8>, pos: int)
    ensures
        well_read(s, pos, disjunction(s, pos)),
    decreases remaining(s, pos), 5nat,
{
    lemma_conjunction_well_read(s, pos);
    match conjunction(s, pos) {
        Ok((first, n)) => {
            lemma_disjunction_tail_well_read(s, pos + n, first);
        },
        Err(_) => {},
    }
}

/// What is parsed is a boolean expression with no more nodes than the
/// input has bytes, so its value is a truth value.
pub proof fn law_parsed_is_boolean(s: Seq<u8>)
    ensures
        parse(s) matches Ok(e) ==> e.is_boolean() && e.node_count() <= s.len() && (
        e.value() matches Ok(Value::Bool(_))),
{
    lemma_disjunction_well_read(s, 0);
    if parse(s) is Ok {
        law_boolean_expression_has_a_truth_value(parse(s)->Ok_0);
    }
}

/// The bytes of each token are its characters.
pub proof fn lemma_tokens()
    ensures
        "or".spec_bytes() == text_bytes("or"@),
        "||".spec_bytes() == text_bytes("||"@),
        "and".spec_bytes() == text_bytes("and"@),
        "&&".spec_bytes() == text_bytes("&&"@),
        "not".spec_bytes() == text_bytes("not"@),
        "!".spec_bytes() == text_bytes("!"@),
        "(".spec_bytes() == text_bytes("("@),
        ")".spec_bytes() == text_bytes(")"@),
        "true".spec_bytes() == text_bytes("true"@),
        "yes".spec_bytes() == text_bytes("yes"@),
        "on".spec_bytes() == text_bytes("on"@),
        "false".spec_bytes() == text_bytes("false"@),
        "no".spec_bytes() == text_bytes("no"@),
        "off".spec_bytes() == text_bytes("off"@),
        "("@.len() == 1,
        ")"@.len() == 1,
{
    reveal_strlit("or");
    reveal_strlit("||");
    reveal_strlit("and");
    reveal_strlit("&&");
    reveal_strlit("not");
    reveal_strlit("!");
    reveal_strlit("(");
    reveal_strlit(")");
    reveal_strlit("true");
    reveal_strlit("yes");
    reveal_strlit("on");
    reveal_strlit("false");
    reveal_strlit("no");
    reveal_strlit("off");
    lemma_ascii_bytes("or");
    lemma_ascii_bytes("||");
    lemma_ascii_bytes("and");
    lemma_ascii_bytes("&&");
    lemma_ascii_bytes("not");
    lemma_ascii_bytes("!");
    lemma_ascii_bytes("(");
    lemma_ascii_bytes(")");
    lemma_ascii_bytes("true");
    lemma_ascii_bytes("yes");
    lemma_ascii_bytes("on");
    lemma_ascii_bytes("false");
    lemma_ascii_bytes("no");
    lemma_ascii_bytes("off");
}

/// Reading a primary after the white space before it gives the same tree
/// and ends at the same place as reading it with the white space.
pub proof fn lemma_primary_after_spaces(s: Seq<u8>, pos: int)
    ensures
        primary(s, pos) == shift(primary(s, skip_spaces(s, pos)), skip_spaces(s, pos) - pos),
{
    let p = skip_spaces(s, pos);
    lemma_skip_spaces(s, pos);
    lemma_tokens();
    if has_text_at(s, p, "("@) {
        match disjunction(s, p + 1) {
            Err(e) => {},
            Ok((e, n)) => {
                lemma_skip_spaces(s, p + 1 + n);
            },
        }
    }
}

impl<'a> Parser<'a> {
    /// Reads a boolean literal at the cursor, if one stands there.
    pub fn consume_bool(&mut self) -> (r: Option<bool>)
        requires
            old(self).wf(),
        ensures
            final(self).input == old(self).input,
            final(self).wf(),
            match literal_at(old(self).input@, old(self).pos as int) {
                Some((b, n)) => r == Some(b) && final(self).pos == old(self).pos + n,
                None => r.is_none() && final(self).pos == old(self).pos,
            },
    {
        proof {
            lemma_tokens();
        }
        if self.consume_word("true") {
            return Some(true);
        }
        if self.consume_word("yes") {
            return Some(true);
        }
        if self.consume_word("on") {
            return Some(true);
        }
        if self.consume_word("false") {
            return Some(false);
        }
        if self.consume_word("no") {
            return Some(false);
        }
        if self.consume_word("off") {
            return Some(false);
        }
        None
    }

    /// Reads `or` or `||` at the cursor, if one stands there.
    fn consume_or(&mut self) -> (found: bool)
        requires
            old(self).wf(),
        ensures
            final(self).input == old(self).input,
            final(self).wf(),
            match or_at(old(self).input@, old(self).pos as int) {
                Some(n) => found && final(self).pos == old(self).pos + n && n > 0,
                None => !found && final(self).pos == old(self).pos,
            },
    {
        proof {
            lemma_tokens();
            lemma_operator_at(self.input@, self.pos as int);
        }
        if self.consume_word("or") {
            return true;
        }
        self.consume_bytes("||")
    }

    /// Reads `and` or `&&` at the cursor, if one stands there.
    fn consume_and(&mut self) -> (found: bool)
        requires
            old(self).wf(),
        ensures
            final(self).input == old(self).input,
            final(self).wf(),
            match and_at(old(self).input@, old(self).pos as int) {
                Some(n) => found && final(self).pos == old(self).pos + n && n > 0,
                None => !found && final(self).pos == old(self).pos,
            },
    {
        proof {
            lemma_tokens();
            lemma_operator_at(self.input@, self.pos as int);
        }
        if self.consume_word("and") {
            return true;
        }
        self.consume_bytes("&&")
    }

    /// Reads `not` or `!` at the cursor, if one stands there.
    fn consume_not(&mut self) -> (found: bool)
        requires
            old(self).wf(),
        ensures
            final(self).input == old(self).input,
            final(self).wf(),
            match not_at(old(self).input@, old(self).pos as int) {
                Some(n) => found && final(self).pos == old(self).pos + n && n > 0,
                None => !found && final(self).pos == old(self).pos,
            },
    {
        proof {
            lemma_tokens();
            lemma_operator_at(self.input@, self.pos as int);
        }
        if self.consume_word("not") {
            return true;
        }
        self.consume_bytes("!")
    }

    /// Reads a literal or an expression in parentheses.
    pub fn parse_primary(&mut self) -> (r: Result<Expr, ParseError>)
        requires
            old(self).wf(),
        ensures
            old(self).parsed_as(final(self), r, primary(old(self).input@, old(self).pos as int)),
        decreases remaining(old(self).input@, old(self).pos as int), 0nat,
    {
        let ghost s = self.input@;
        let ghost start = self.pos as int;
        let ghost p = skip_spaces(s, start);
        proof {
            lemma_tokens();
            lemma_skip_spaces(s, start);
        }
        self.skip_ws();
        if self.consume_bytes("(") {
            let expr = match self.parse_or() {
                Ok(e) => e,
                Err(e) => {
                    return Err(e);
                },
            };
            proof {
                lemma_skip_spaces(s, self.pos as int);
            }
            self.skip_ws();
            if !self.consume_bytes(")") {
                return Err(self.error_here(ParseErrorKind::ExpectedClosingParen));
            }
            return Ok(expr);
        }
        match self.consume_bool() {
            Some(value) => Ok(Expr::boolean(value)),
            None => Err(self.error_here(ParseErrorKind::ExpectedTruthValue)),
        }
    }

    /// Reads any number of `not` and the primary they stand before.
    pub fn parse_unary(&mut self) -> (r: Result<Expr, ParseError>)
        requires
            old(self).wf(),
        ensures
            old(self).parsed_as(final(self), r, negation(old(self).input@, old(self).pos as int)),
        decreases remaining(old(self).input@, old(self).pos as int), 1nat,
    {
        let ghost s = self.input@;
        let ghost start = self.pos as int;
        proof {
            lemma_skip_spaces(s, start);
            lemma_primary_after_spaces(s, start);
        }
        self.skip_ws();
        if self.consume_not() {
            return match self.parse_unary() {
                Ok(inner) => Ok(Expr::Unary(UnaryOp::Not, Box::new(inner))),
                Err(e) => Err(e),
            };
        }
        self.parse_primary()
    }

    /// Reads a chain of negations joined by `and`.
    pub fn parse_and(&mut self) -> (r: Result<Expr, ParseError>)
        requires
            old(self).wf(),
        ensures
            old(self).parsed_as(
                final(self),
                r,
                conjunction(old(self).input@, old(self).pos as int),
            ),
        decreases remaining(old(self).input@, old(self).pos as int), 3nat,
    {
        let ghost s = self.input@;
        let ghost start = self.pos as int;
        let mut node = match self.parse_unary() {
            Ok(e) => e,
            Err(e) => {
                return Err(e);
            },
        };
        loop
            invariant
                self.wf(),
                self.input == old(self).input,
                s == old(self).input@,
                start == old(self).pos,
                start <= self.pos,
                conjunction(s, start) == shift(
                    conjunction_tail(s, self.pos as int, node),
                    self.pos - start,
                ),
            decreases remaining(s, self.pos as int),
        {
            let ghost here = self.pos as int;
            let ghost left = node;
            proof {
                lemma_skip_spaces(s, here);
            }
            self.skip_ws();
            if !self.consume_and() {
                return Ok(node);
            }
            let ghost operand = self.pos as int;
            let right = match self.parse_unary() {
                Ok(e) => e,
                Err(e) => {
                    return Err(e);
                },
            };
            node = Expr::Binary(BinaryOp::And, Box::new(node), Box::new(right));
            assert(conjunction_tail(s, here, left) == shift(
                conjunction_tail(s, self.pos as int, node),
                self.pos - here,
            ));
        }
    }

    /// Reads a chain of conjunctions joined by `or`.
    pub fn parse_or(&mut self) -> (r: Result<Expr, ParseError>)
        requires
            old(self).wf(),
        ensures
            old(self).parsed_as(
                final(self),
                r,
                disjunction(old(self).input@, old(self).pos as int),
            ),
        decreases remaining(old(self).input@, old(self).pos as int), 5nat,
    {
        let ghost s = self.input@;
        let ghost start = self.pos as int;
        let mut node = match self.parse_and() {
            Ok(e) => e,
            Err(e) => {
                return Err(e);
            },
        };
        loop
            invariant
                self.wf(),
                self.input == old(self).input,
                s == old(self).input@,
                start == old(self).pos,
                start <= self.pos,
                disjunction(s, start) == shift(
                    disjunction_tail(s, self.pos as int, node),
                    self.pos - start,
                ),
            decreases remaining(s, self.pos as int),
        {
            let ghost here = self.pos as int;
            let ghost left = node;
            proof {
                lemma_skip_spaces(s, here);
            }
            self.skip_ws();
            if !self.consume_or() {
                return Ok(node);
            }
            let right = match self.parse_and() {
                Ok(e) => e,
                Err(e) => {
                    return Err(e);
                },
            };
            node = Expr::Binary(BinaryOp::Or, Box::new(node), Box::new(right));
            assert(disjunction_tail(s, here, left) == shift(
                disjunction_tail(s, self.pos as int, node),
                self.pos - here,
            ));
        }
    }
}

/// Parses the whole text as a boolean expression. Fails when a literal or a
/// closing parenthesis is missing, and when anything but white space
/// follows the expression; the error names the offset at which this was
/// found.
pub fn parse_expression(input: &str) -> (r: Result<Expr, ParseError>)
    ensures
        r == parse(input.spec_bytes()),
        r matches Ok(e) ==> e.is_boolean() && e.node_count() <= input.spec_bytes().len(),
{
    proof {
        law_parsed_is_boolean(input.spec_bytes());
    }
    let mut parser = Parser::new(input);
    let expr = match parser.parse_or() {
        Ok(e) => e,
        Err(e) => {
            return Err(e);
        },
    };
    parser.skip_ws();
    if parser.pos < parser.input.len() {
        return Err(parser.error_here(ParseErrorKind::UnexpectedInput));
    }
    Ok(expr)
}

/// The random boolean expression that is drawn from `state`, with its
/// root `depth` levels down and no node more than `max_depth` levels down,
/// and the state after it. One draw in four ends in a literal, as does
/// every draw at `max_depth`; of the others one in three is a `not`, and the
/// rest are `and` and `or` in equal parts.
pub open spec fn random_tree(state: u64, depth: nat, max_depth: nat) -> (Expr, u64)
    decreases max_depth - depth,
{
    if depth >= max_depth {
        (Expr::Literal(Value::Bool(draw_between(state, 0, 1) == 1)), xorshift(state))
    } else if draw_between(state, 0, 3) == 0 {
        let s1 = xorshift(state);
        (Expr::Literal(Value::Bool(draw_between(s1, 0, 1) == 1)), xorshift(s1))
    } else {
        let s1 = xorshift(state);
        let s2 = xorshift(s1);
        if draw_between(s1, 0, 2) == 0 {
            let (inner, s3) = random_tree(s2, depth + 1, max_depth);
            (Expr::Unary(UnaryOp::Not, Box::new(inner)), s3)
        } else {
            let (left, s3) = random_tree(s2, depth + 1, max_depth);
            let (right, s4) = random_tree(s3, depth + 1, max_depth);
            let op = if draw_between(s4, 0, 1) == 0 {
                BinaryOp::And
            } else {
                BinaryOp::Or
            };
            (Expr::Binary(op, Box::new(left), Box::new(right)), xorshift(s4))
        }
    }
}

/// A random tree is a boolean expression and no higher than it may be.
pub proof fn lemma_random_tree(state: u64, depth: nat, max_depth: nat)
    requires
        depth <= max_depth,
    ensures
        random_tree(state, depth, max_depth).0.is_boolean(),
        random_tree(state, depth, max_depth).0.height() <= max_depth - depth,
    decreases max_depth - depth,
{
    if depth < max_depth && draw_between(state, 0, 3) != 0 {
        let s1 = xorshift(state);
        let s2 = xorshift(s1);
        lemma_random_tree(s2, depth + 1, max_depth);
        if draw_between(s1, 0, 2) != 0 {
            let s3 = random_tree(s2, depth + 1, max_depth).1;
            lemma_random_tree(s3, depth + 1, max_depth);
        }
    }
}

/// Draws a random boolean expression whose root lies `depth` levels down
/// and whose nodes lie no more than `max_depth` levels down.
pub fn random_expr(rng: &mut SimpleRng, depth: u8, max_depth: u8) -> (e: Expr)
    ensures
        (e, final(rng).state) == random_tree(old(rng).state, depth as nat, max_depth as nat),
    decreases max_depth - depth,
{
    let use_literal = depth >= max_depth || rng.gen_range_i32(0, 3) == 0;
    if use_literal {
        let value = rng.gen_range_i32(0, 1) == 1;
        return Expr::boolean(value);
    }
    let roll: i32 = rng.gen_range_i32(0, 2);
    if roll == 0 {
        let inner = random_expr(rng, depth + 1, max_depth);
        return Expr::Unary(UnaryOp::Not, Box::new(inner));
    }
    let left = random_expr(rng, depth + 1, max_depth);
    let right = random_expr(rng, depth + 1, max_depth);
    let op = if rng.gen_range_i32(0, 1) == 0 {
        BinaryOp::And
    } else {
        BinaryOp::Or
    };
    Expr::Binary(op, Box::new(left), Box::new(right))
}

/// An expression to evaluate, with the value it has.
#[derive(Debug)]
pub struct Exercise {
    pub expr: Expr,
    pub answer: bool,
}

/// The greatest depth of a node in a generated expression.
pub const MAX_DEPTH: u8 = 3;

/// The number of expressions that are drawn before the fixed one is taken.
pub const ATTEMPTS: usize = 200;

/// Whether a drawn expression is worth asking about: it has two operators
/// at least.
pub open spec fn worth_asking(e: Expr) -> bool {
    e.op_count() >= 2
}

/// The first expression worth asking about among the next `attempts` that
/// are drawn from `state`, with the state after it, or nothing if none of
/// them is.
pub open spec fn first_worth_asking(state: u64, attempts: nat) -> Option<(Expr, u64)>
    decreases attempts,
{
    if attempts == 0 {
        None
    } else {
        let (e, next) = random_tree(state, 0, MAX_DEPTH as nat);
        if worth_asking(e) {
            Some((e, next))
        } else {
            first_worth_asking(next, (attempts - 1) as nat)
        }
    }
}

/// The state after `attempts` expressions have been drawn from `state`.
pub open spec fn state_after(state: u64, attempts: nat) -> u64
    decreases attempts,
{
    if attempts == 0 {
        state
    } else {
        state_after(random_tree(state, 0, MAX_DEPTH as nat).1, (attempts - 1) as nat)
    }
}

/// The expression `true and false`, which is asked about when no drawn
/// expression is worth it.
pub open spec fn fixed_exercise() -> Expr {
    Expr::Binary(
        BinaryOp::And,
        Box::new(Expr::Literal(Value::Bool(true))),
        Box::new(Expr::Literal(Value::Bool(false))),
    )
}

/// Draws expressions until one is worth asking about, `attempts` at most.
fn draw_worth_asking(rng: &mut SimpleRng, attempts: usize) -> (r: Option<Expr>)
    ensures
        match first_worth_asking(old(rng).state, attempts as nat) {
            Some((e, state)) => r == Some(e) && final(rng).state == state,
            None => r.is_none() && final(rng).state == state_after(
                old(rng).state,
                attempts as nat,
            ),
        },
{
    let mut left: usize = attempts;
    while left > 0
        invariant
            left <= attempts,
            first_worth_asking(old(rng).state, attempts as nat) == first_worth_asking(
                rng.state,
                left as nat,
            ),
            first_worth_asking(rng.state, left as nat).is_none() ==> state_after(
                old(rng).state,
                attempts as nat,
            ) == state_after(rng.state, left as nat),
        decreases left,
    {
        let ghost before = rng.state;
        let expr = random_expr(rng, 0, MAX_DEPTH);
        proof {
            lemma_random_tree(before, 0, MAX_DEPTH as nat);
            lemma_small_tree(expr);
        }
        left -= 1;
        if count_ops(&expr) >= 2 {
            return Some(expr);
        }
    }
    None
}

/// An exercise: the first of the next `attempts` random boolean
/// expressions that has two operators at least, together with its value. If
/// none of them has, the exercise is `true and false`.
pub fn generate_exercise_within(rng: &mut SimpleRng, attempts: usize) -> (exercise: Exercise)
    ensures
        match first_worth_asking(old(rng).state, attempts as nat) {
            Some((e, state)) => exercise.expr == e && final(rng).state == state,
            None => exercise.expr == fixed_exercise() && final(rng).state == state_after(
                old(rng).state,
                attempts as nat,
            ),
        },
        exercise.expr.is_boolean(),
        exercise.expr.op_count() >= 1,
        exercise.expr.value() == Ok::<Value, EvalError>(Value::Bool(exercise.answer)),
{
    let ghost start = rng.state;
    match draw_worth_asking(rng, attempts) {
        Some(expr) => {
            proof {
                lemma_first_worth_asking(start, attempts as nat);
                law_boolean_expression_has_a_truth_value(expr);
            }
            match eval_expr(&expr) {
                Ok(Value::Bool(answer)) => Exercise { expr, answer },
                _ => Exercise { expr: fixed(), answer: false },
            }
        },
        None => Exercise { expr: fixed(), answer: false },
    }
}

/// An exercise: a random boolean expression with two operators at least,
/// together with its value. If 200 draws give no such expression, the
/// exercise is `true and false`.
pub fn generate_exercise(rng: &mut SimpleRng) -> (exercise: Exercise)
    ensures
        match first_worth_asking(old(rng).state, ATTEMPTS as nat) {
            Some((e, state)) => exercise.expr == e && final(rng).state == state,
            None => exercise.expr == fixed_exercise() && final(rng).state == state_after(
                old(rng).state,
                ATTEMPTS as nat,
            ),
        },
        exercise.expr.is_boolean(),
        exercise.expr.op_count() >= 1,
        exercise.expr.value() == Ok::<Value, EvalError>(Value::Bool(exercise.answer)),
{
    generate_exercise_within(rng, ATTEMPTS)
}

/// The expression `true and false`.
fn fixed() -> (e: Expr)
    ensures
        e == fixed_exercise(),
        e.is_boolean(),
        e.op_count() == 1,
        e.value() == Ok::<Value, EvalError>(Value::Bool(false)),
{
    proof {
        reveal_with_fuel(Expr::is_boolean, 2);
        reveal_with_fuel(Expr::op_count, 2);
        reveal_with_fuel(Expr::value, 2);
    }
    Expr::Binary(BinaryOp::And, Box::new(Expr::boolean(true)), Box::new(Expr::boolean(false)))
}

/// What is found worth asking about is a boolean expression of height 3
/// at most with two operators at least.
pub proof fn lemma_first_worth_asking(state: u64, attempts: nat)
    ensures
        first_worth_asking(state, attempts) matches Some((e, _)) ==> e.is_boolean() && e.height()
            <= MAX_DEPTH && worth_asking(e),
    decreases attempts,
{
    if attempts > 0 {
        lemma_random_tree(state, 0, MAX_DEPTH as nat);
        let (e, next) = random_tree(state, 0, MAX_DEPTH as nat);
        if !worth_asking(e) {
            lemma_first_worth_asking(next, (attempts - 1) as nat);
        }
    }
}

/// A tree to practise on: the first of the next `attempts` random boolean
/// expressions that has two operators at least. If none of them has, the
/// tree is the single literal `true`.
pub fn generate_tree_expr_within(rng: &mut SimpleRng, attempts: usize) -> (expr: Expr)
    ensures
        match first_worth_asking(old(rng).state, attempts as nat) {
            Some((e, state)) => expr == e && final(rng).state == state,
            None => expr == Expr::Literal(Value::Bool(true)) && final(rng).state == state_after(
                old(rng).state,
                attempts as nat,
            ),
        },
        expr.is_boolean(),
        expr.height() <= MAX_DEPTH,
{
    let ghost start = rng.state;
    proof {
        lemma_first_worth_asking(start, attempts as nat);
    }
    match draw_worth_asking(rng, attempts) {
        Some(expr) => expr,
        None => Expr::boolean(true),
    }
}

/// A tree to practise on: a random boolean expression with two operators
/// at least. If 200 draws give no such expression, the tree is the single
/// literal `true`.
pub fn generate_tree_expr(rng: &mut SimpleRng) -> (expr: Expr)
    ensures
        match first_worth_asking(old(rng).state, ATTEMPTS as nat) {
            Some((e, state)) => expr == e && final(rng).state == state,
            None => expr == Expr::Literal(Value::Bool(true)) && final(rng).state == state_after(
                old(rng).state,
                ATTEMPTS as nat,
            ),
        },
        expr.is_boolean(),
        expr.height() <= MAX_DEPTH,
{
    generate_tree_expr_within(rng, ATTEMPTS)
}

} // verus!
