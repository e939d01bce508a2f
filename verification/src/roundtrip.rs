//! Writing an expression out and reading it back.

use vstd::prelude::*;
use vstd::string::StringSliceAdditionalSpecFns;
use crate::arithmetic;
use crate::boolean;
use crate::error::{EvalError, ParseError};
use crate::expr::{BinaryOp, Expr, UnaryOp, Value};
use crate::scan::{
    has_text_at, is_digit, is_space, is_word_byte, lemma_skip_spaces, shift, skip_spaces,
    text_bytes,
};
use crate::laws::law_stepwise_agrees_with_direct;
use crate::reduce::normal_form;
use crate::render::lemma_rendered_is_plain;
use crate::scan::lemma_ascii_bytes;
use crate::text::{decimal, digit_char, is_plain, signed_decimal};

verus! {

/// A text stands at a position exactly when it fits into the input there
/// and every byte is the character at its place.
pub proof fn lemma_text_at(s: Seq<u8>, pos: int, text: Seq<char>)
    ensures
        has_text_at(s, pos, text) <==> (0 <= pos && pos + text.len() <= s.len() && forall|i: int|
            0 <= i < text.len() ==> #[trigger] s[pos + i] == text[i] as u8),
{
    if has_text_at(s, pos, text) {
        assert forall|i: int| 0 <= i < text.len() implies #[trigger] s[pos + i] == text[i] as u8 by {
            assert(s.subrange(pos, pos + text.len())[i] == text_bytes(text)[i]);
        }
    }
    if 0 <= pos && pos + text.len() <= s.len() && forall|i: int|
        0 <= i < text.len() ==> #[trigger] s[pos + i] == text[i] as u8 {
        let part = s.subrange(pos, pos + text_bytes(text).len());
        assert forall|i: int| 0 <= i < part.len() implies part[i] == text_bytes(text)[i] by {
            assert(s[pos + i] == text[i] as u8);
        }
        assert(part =~= text_bytes(text));
    }
}

/// A text that is made of two parts stands at a position exactly when the
/// first part stands there and the second part after it.
pub proof fn lemma_text_parts(s: Seq<u8>, pos: int, a: Seq<char>, b: Seq<char>)
    ensures
        has_text_at(s, pos, a + b) <==> has_text_at(s, pos, a) && has_text_at(s, pos + a.len(), b),
{
    lemma_text_at(s, pos, a + b);
    lemma_text_at(s, pos, a);
    lemma_text_at(s, pos + a.len(), b);
    if has_text_at(s, pos, a + b) {
        assert forall|i: int| 0 <= i < a.len() implies #[trigger] s[pos + i] == a[i] as u8 by {
            assert((a + b)[i] == a[i]);
        }
        assert forall|i: int| 0 <= i < b.len() implies #[trigger] s[pos + a.len() + i]
            == b[i] as u8 by {
            assert((a + b)[a.len() + i] == b[i]);
            assert(s[pos + (a.len() + i)] == (a + b)[a.len() + i] as u8);
        }
    }
    if has_text_at(s, pos, a) && has_text_at(s, pos + a.len(), b) {
        assert forall|i: int| 0 <= i < (a + b).len() implies #[trigger] s[pos + i] == (a + b)[i] as u8 by {
            if i >= a.len() {
                assert(s[pos + a.len() + (i - a.len())] == b[i - a.len()] as u8);
            }
        }
    }
}

/// The byte at `pos`, or -1 where the input has none.
pub open spec fn byte_at(s: Seq<u8>, pos: int) -> int {
    if 0 <= pos < s.len() {
        s[pos] as int
    } else {
        -1
    }
}

/// White space is skipped only where it stands.
pub proof fn lemma_no_space_to_skip(s: Seq<u8>, pos: int)
    requires
        byte_at(s, pos) == -1 || !is_space(byte_at(s, pos) as u8),
    ensures
        skip_spaces(s, pos) == pos,
{
}

/// One byte of white space is skipped before a byte that is none.
pub proof fn lemma_one_space(s: Seq<u8>, pos: int)
    requires
        byte_at(s, pos) == 0x20,
        byte_at(s, pos + 1) == -1 || !is_space(byte_at(s, pos + 1) as u8),
    ensures
        skip_spaces(s, pos) == pos + 1,
{
    lemma_no_space_to_skip(s, pos + 1);
}

/// Every token of the boolean grammar starts with a byte of its own kind:
/// no operator and no literal starts with a parenthesis, and only `or`
/// and `on` share their first byte.
pub proof fn lemma_boolean_heads(s: Seq<u8>, pos: int)
    ensures
        boolean::not_at(s, pos).is_some() ==> byte_at(s, pos) == 'n' as u8 || byte_at(s, pos)
            == '!' as u8,
        boolean::and_at(s, pos).is_some() ==> byte_at(s, pos) == 'a' as u8 || byte_at(s, pos)
            == '&' as u8,
        boolean::or_at(s, pos).is_some() ==> byte_at(s, pos) == 'o' as u8 || byte_at(s, pos)
            == '|' as u8,
        boolean::literal_at(s, pos).is_some() ==> byte_at(s, pos) == 't' as u8 || byte_at(s, pos)
            == 'y' as u8 || byte_at(s, pos) == 'o' as u8 || byte_at(s, pos) == 'f' as u8
            || byte_at(s, pos) == 'n' as u8,
        has_text_at(s, pos, "("@) <==> byte_at(s, pos) == '(' as u8,
        has_text_at(s, pos, ")"@) <==> byte_at(s, pos) == ')' as u8,
{
    reveal_strlit("not");
    reveal_strlit("!");
    reveal_strlit("and");
    reveal_strlit("&&");
    reveal_strlit("or");
    reveal_strlit("||");
    reveal_strlit("(");
    reveal_strlit(")");
    reveal_strlit("true");
    reveal_strlit("yes");
    reveal_strlit("on");
    reveal_strlit("false");
    reveal_strlit("no");
    reveal_strlit("off");
    lemma_text_at(s, pos, "not"@);
    lemma_text_at(s, pos, "!"@);
    lemma_text_at(s, pos, "and"@);
    lemma_text_at(s, pos, "&&"@);
    lemma_text_at(s, pos, "or"@);
    lemma_text_at(s, pos, "||"@);
    lemma_text_at(s, pos, "("@);
    lemma_text_at(s, pos, ")"@);
    lemma_text_at(s, pos, "true"@);
    lemma_text_at(s, pos, "yes"@);
    lemma_text_at(s, pos, "on"@);
    lemma_text_at(s, pos, "false"@);
    lemma_text_at(s, pos, "no"@);
    lemma_text_at(s, pos, "off"@);
    assert(s[pos + 0] == s[pos]);
}

/// Where `not` and a space stand, the operator `not` is read.
pub proof fn lemma_reads_not(s: Seq<u8>, pos: int)
    requires
        has_text_at(s, pos, "not "@),
    ensures
        boolean::not_at(s, pos) == Some(3nat),
        byte_at(s, pos) == 'n' as u8,
        byte_at(s, pos + 3) == ' ' as u8,
{
    reveal_strlit("not ");
    reveal_strlit("not");
    lemma_text_at(s, pos, "not "@);
    lemma_text_at(s, pos, "not"@);
    assert(s[pos + 0] == 'n' as u8);
    assert(s[pos + 1] == 'o' as u8);
    assert(s[pos + 2] == 't' as u8);
    assert(s[pos + 3] == ' ' as u8);
}

/// Where `and` stands between spaces, the operator `and` is read after
/// the first space.
pub proof fn lemma_reads_and(s: Seq<u8>, pos: int)
    requires
        has_text_at(s, pos, " and "@),
    ensures
        byte_at(s, pos) == ' ' as u8,
        boolean::and_at(s, pos + 1) == Some(3nat),
        byte_at(s, pos + 1) == 'a' as u8,
        byte_at(s, pos + 4) == ' ' as u8,
{
    reveal_strlit(" and ");
    reveal_strlit("and");
    lemma_text_at(s, pos, " and "@);
    lemma_text_at(s, pos + 1, "and"@);
    assert(s[pos + 0] == ' ' as u8);
    assert(s[pos + 1] == 'a' as u8);
    assert(s[pos + 2] == 'n' as u8);
    assert(s[pos + 3] == 'd' as u8);
    assert(s[pos + 4] == ' ' as u8);
    assert(s[pos + 1 + 0] == 'a' as u8);
    assert(s[pos + 1 + 1] == 'n' as u8);
    assert(s[pos + 1 + 2] == 'd' as u8);
}

/// Where `or` stands between spaces, the operator `or` is read after the
/// first space, and no `and`.
pub proof fn lemma_reads_or(s: Seq<u8>, pos: int)
    requires
        has_text_at(s, pos, " or "@),
    ensures
        byte_at(s, pos) == ' ' as u8,
        boolean::or_at(s, pos + 1) == Some(2nat),
        boolean::and_at(s, pos + 1).is_none(),
        byte_at(s, pos + 1) == 'o' as u8,
        byte_at(s, pos + 3) == ' ' as u8,
{
    reveal_strlit(" or ");
    reveal_strlit("or");
    lemma_text_at(s, pos, " or "@);
    lemma_text_at(s, pos + 1, "or"@);
    lemma_boolean_heads(s, pos + 1);
    assert(s[pos + 0] == ' ' as u8);
    assert(s[pos + 1] == 'o' as u8);
    assert(s[pos + 2] == 'r' as u8);
    assert(s[pos + 3] == ' ' as u8);
    assert(s[pos + 1 + 0] == 'o' as u8);
    assert(s[pos + 1 + 1] == 'r' as u8);
}

/// Where the text of a boolean literal stands as a word of its own, the
/// literal is read, and no operator and no parenthesis.
pub proof fn lemma_reads_literal(s: Seq<u8>, pos: int, b: bool)
    requires
        has_text_at(s, pos, Value::Bool(b).text()),
        byte_at(s, pos + Value::Bool(b).text().len()) == -1 || !is_word_byte(
            byte_at(s, pos + Value::Bool(b).text().len()) as u8,
        ),
    ensures
        boolean::literal_at(s, pos) == Some((b, Value::Bool(b).text().len())),
        boolean::not_at(s, pos).is_none(),
        !has_text_at(s, pos, "("@),
        byte_at(s, pos) == 't' as u8 || byte_at(s, pos) == 'f' as u8,
{
    reveal_strlit("true");
    reveal_strlit("false");
    reveal_strlit("yes");
    reveal_strlit("on");
    lemma_text_at(s, pos, "true"@);
    lemma_text_at(s, pos, "false"@);
    lemma_text_at(s, pos, "yes"@);
    lemma_text_at(s, pos, "on"@);
    lemma_boolean_heads(s, pos);
    assert(s[pos + 0] == s[pos]);
}

/// The byte at `pos` ends a word: it is no letter, digit or underscore,
/// or the input ends there.
pub open spec fn word_ends(s: Seq<u8>, pos: int) -> bool {
    byte_at(s, pos) == -1 || !is_word_byte(byte_at(s, pos) as u8)
}

/// Reading a negation after the white space before it gives the same tree
/// and ends at the same place as reading it with the white space.
pub proof fn lemma_negation_after_spaces(s: Seq<u8>, pos: int)
    ensures
        boolean::negation(s, pos) == shift(
            boolean::negation(s, skip_spaces(s, pos)),
            skip_spaces(s, pos) - pos,
        ),
{
    lemma_skip_spaces(s, pos);
    boolean::lemma_primary_after_spaces(s, pos);
    boolean::lemma_operator_at(s, skip_spaces(s, pos));
}

/// The text of a boolean expression starts with a letter or an opening
/// parenthesis, and so with no white space.
pub proof fn lemma_boolean_head(s: Seq<u8>, pos: int, t: Expr)
    requires
        t.is_boolean(),
        has_text_at(s, pos, t.rendered()),
    ensures
        byte_at(s, pos) == 't' as u8 || byte_at(s, pos) == 'f' as u8 || byte_at(s, pos)
            == 'n' as u8 || byte_at(s, pos) == '(' as u8,
{
    reveal_strlit("true");
    reveal_strlit("false");
    reveal_strlit("not ");
    reveal_strlit("(");
    match t {
        Expr::Literal(v) => {
            lemma_text_at(s, pos, v.text());
            assert(s[pos + 0] == v.text()[0] as u8);
        },
        Expr::Unary(op, inner) => {
            lemma_text_parts(s, pos, op.opening() + inner.rendered(), op.closing());
            lemma_text_parts(s, pos, op.opening(), inner.rendered());
            lemma_text_at(s, pos, op.opening());
            assert(s[pos + 0] == op.opening()[0] as u8);
        },
        Expr::Binary(op, left, right) => {
            let a = "("@;
            lemma_text_parts(s, pos, a + left.rendered() + op.infix() + right.rendered(), ")"@);
            lemma_text_parts(s, pos, a + left.rendered() + op.infix(), right.rendered());
            lemma_text_parts(s, pos, a + left.rendered(), op.infix());
            lemma_text_parts(s, pos, a, left.rendered());
            lemma_text_at(s, pos, a);
            assert(s[pos + 0] == a[0] as u8);
        },
    }
}

/// The places of the parts of the text of a binary operator that stands
/// at `pos`: the left operand, the operator, the right operand and the
/// closing parenthesis.
pub open spec fn places(pos: int, op: BinaryOp, left: Expr, right: Expr) -> (int, int, int, int) {
    let a = pos + 1;
    let b = a + left.rendered().len();
    let c = b + op.infix().len();
    let d = c + right.rendered().len();
    (a, b, c, d)
}

/// The parts of the text of a binary operator stand at their places.
pub proof fn lemma_binary_parts(s: Seq<u8>, pos: int, op: BinaryOp, left: Expr, right: Expr)
    requires
        has_text_at(s, pos, Expr::Binary(op, Box::new(left), Box::new(right)).rendered()),
    ensures
        ({
            let (a, b, c, d) = places(pos, op, left, right);
            &&& byte_at(s, pos) == '(' as u8
            &&& has_text_at(s, a, left.rendered())
            &&& has_text_at(s, b, op.infix())
            &&& has_text_at(s, c, right.rendered())
            &&& byte_at(s, d) == ')' as u8
            &&& Expr::Binary(op, Box::new(left), Box::new(right)).rendered().len() == d + 1 - pos
        }),
{
    reveal_strlit("(");
    reveal_strlit(")");
    let open = "("@;
    let (a, b, c, d) = places(pos, op, left, right);
    lemma_text_parts(s, pos, open + left.rendered() + op.infix() + right.rendered(), ")"@);
    lemma_text_parts(s, pos, open + left.rendered() + op.infix(), right.rendered());
    lemma_text_parts(s, pos, open + left.rendered(), op.infix());
    lemma_text_parts(s, pos, open, left.rendered());
    lemma_text_at(s, pos, open);
    lemma_text_at(s, d, ")"@);
    assert(s[pos + 0] == '(' as u8);
    assert(s[d + 0] == ')' as u8);
}

/// The parts of the text of a unary operator stand at their places.
pub proof fn lemma_unary_parts(s: Seq<u8>, pos: int, op: UnaryOp, inner: Expr)
    requires
        has_text_at(s, pos, Expr::Unary(op, Box::new(inner)).rendered()),
    ensures
        has_text_at(s, pos, op.opening()),
        has_text_at(s, pos + op.opening().len(), inner.rendered()),
        has_text_at(s, pos + op.opening().len() + inner.rendered().len(), op.closing()),
        Expr::Unary(op, Box::new(inner)).rendered().len() == op.opening().len()
            + inner.rendered().len() + op.closing().len(),
{
    lemma_text_parts(s, pos, op.opening() + inner.rendered(), op.closing());
    lemma_text_parts(s, pos, op.opening(), inner.rendered());
}

/// A closing parenthesis ends every chain of operators: nothing is read
/// there but the parenthesis itself.
pub proof fn lemma_boolean_chain_ends(s: Seq<u8>, pos: int, t: Expr)
    requires
        byte_at(s, pos) == ')' as u8 || byte_at(s, pos) == -1,
    ensures
        skip_spaces(s, pos) == pos,
        boolean::conjunction_tail(s, pos, t) == Ok::<(Expr, nat), ParseError>((t, 0)),
        boolean::disjunction_tail(s, pos, t) == Ok::<(Expr, nat), ParseError>((t, 0)),
        word_ends(s, pos),
{
    lemma_boolean_heads(s, pos);
    lemma_no_space_to_skip(s, pos);
}

/// A negation that is read after `not` and a space is read as a whole.
pub proof fn lemma_reads_negated(s: Seq<u8>, pos: int, x: Expr)
    requires
        x.is_boolean(),
        has_text_at(s, pos, Expr::Unary(UnaryOp::Not, Box::new(x)).rendered()),
        boolean::negation(s, pos + 4) == Ok::<(Expr, nat), ParseError>((x, x.rendered().len())),
    ensures
        boolean::negation(s, pos) == Ok::<(Expr, nat), ParseError>(
            (
                Expr::Unary(UnaryOp::Not, Box::new(x)),
                Expr::Unary(UnaryOp::Not, Box::new(x)).rendered().len(),
            ),
        ),
{
    reveal_strlit("not ");
    reveal_strlit("");
    lemma_unary_parts(s, pos, UnaryOp::Not, x);
    lemma_reads_not(s, pos);
    lemma_no_space_to_skip(s, pos);
    lemma_boolean_head(s, pos + 4, x);
    lemma_one_space(s, pos + 3);
    lemma_negation_after_spaces(s, pos + 3);
    assert(boolean::negation(s, pos + 3) == Ok::<(Expr, nat), ParseError>(
        (x, x.rendered().len() + 1),
    ));
}

/// A conjunction in parentheses whose operands are read is read as a
/// whole.
pub proof fn lemma_reads_and_node(s: Seq<u8>, pos: int, l: Expr, r: Expr)
    requires
        l.is_boolean(),
        r.is_boolean(),
        has_text_at(s, pos, Expr::Binary(BinaryOp::And, Box::new(l), Box::new(r)).rendered()),
        boolean::negation(s, places(pos, BinaryOp::And, l, r).0) == Ok::<(Expr, nat), ParseError>(
            (l, l.rendered().len()),
        ),
        boolean::negation(s, places(pos, BinaryOp::And, l, r).2) == Ok::<(Expr, nat), ParseError>(
            (r, r.rendered().len()),
        ),
    ensures
        boolean::negation(s, pos) == Ok::<(Expr, nat), ParseError>(
            (
                Expr::Binary(BinaryOp::And, Box::new(l), Box::new(r)),
                Expr::Binary(BinaryOp::And, Box::new(l), Box::new(r)).rendered().len(),
            ),
        ),
{
    let t = Expr::Binary(BinaryOp::And, Box::new(l), Box::new(r));
    let (a, b, c, d) = places(pos, BinaryOp::And, l, r);
    reveal_strlit(" and ");
    lemma_binary_parts(s, pos, BinaryOp::And, l, r);
    lemma_boolean_heads(s, pos);
    lemma_no_space_to_skip(s, pos);
    lemma_boolean_chain_ends(s, d, t);
    lemma_boolean_heads(s, d);
    lemma_boolean_head(s, c, r);
    lemma_reads_and(s, b);
    lemma_one_space(s, b);
    lemma_one_space(s, b + 4);
    lemma_negation_after_spaces(s, b + 4);
    assert(boolean::negation(s, b + 4) == Ok::<(Expr, nat), ParseError>(
        (r, r.rendered().len() + 1),
    ));
    assert(boolean::conjunction_tail(s, b, l) == Ok::<(Expr, nat), ParseError>(
        (t, (d - b) as nat),
    ));
    assert(boolean::conjunction(s, a) == Ok::<(Expr, nat), ParseError>((t, (d - a) as nat)));
    assert(boolean::disjunction(s, a) == Ok::<(Expr, nat), ParseError>((t, (d - a) as nat)));
    assert(boolean::primary(s, pos) == Ok::<(Expr, nat), ParseError>((t, (d + 1 - pos) as nat)));
}

/// A disjunction in parentheses whose operands are read is read as a
/// whole.
#[verifier::rlimit(50)]
pub proof fn lemma_reads_or_node(s: Seq<u8>, pos: int, l: Expr, r: Expr)
    requires
        l.is_boolean(),
        r.is_boolean(),
        has_text_at(s, pos, Expr::Binary(BinaryOp::Or, Box::new(l), Box::new(r)).rendered()),
        boolean::negation(s, places(pos, BinaryOp::Or, l, r).0) == Ok::<(Expr, nat), ParseError>(
            (l, l.rendered().len()),
        ),
        boolean::negation(s, places(pos, BinaryOp::Or, l, r).2) == Ok::<(Expr, nat), ParseError>(
            (r, r.rendered().len()),
        ),
    ensures
        boolean::negation(s, pos) == Ok::<(Expr, nat), ParseError>(
            (
                Expr::Binary(BinaryOp::Or, Box::new(l), Box::new(r)),
                Expr::Binary(BinaryOp::Or, Box::new(l), Box::new(r)).rendered().len(),
            ),
        ),
{
    let t = Expr::Binary(BinaryOp::Or, Box::new(l), Box::new(r));
    let (a, b, c, d) = places(pos, BinaryOp::Or, l, r);
    reveal_strlit(" or ");
    lemma_binary_parts(s, pos, BinaryOp::Or, l, r);
    lemma_boolean_heads(s, pos);
    lemma_no_space_to_skip(s, pos);
    lemma_boolean_chain_ends(s, d, t);
    lemma_boolean_chain_ends(s, d, r);
    lemma_boolean_heads(s, d);
    lemma_boolean_head(s, c, r);
    lemma_reads_or(s, b);
    lemma_one_space(s, b);
    lemma_one_space(s, b + 3);
    lemma_no_space_to_skip(s, b + 1);
    lemma_negation_after_spaces(s, b + 3);
    assert(boolean::negation(s, b + 3) == Ok::<(Expr, nat), ParseError>(
        (r, r.rendered().len() + 1),
    ));
    assert(boolean::conjunction_tail(s, b, l) == Ok::<(Expr, nat), ParseError>((l, 1)));
    assert(boolean::conjunction(s, a) == Ok::<(Expr, nat), ParseError>((l, (b + 1 - a) as nat)));
    assert(boolean::conjunction(s, b + 3) == Ok::<(Expr, nat), ParseError>(
        (r, r.rendered().len() + 1),
    ));
    assert(boolean::disjunction_tail(s, b + 1, l) == Ok::<(Expr, nat), ParseError>(
        (t, (d - (b + 1)) as nat),
    ));
    assert(boolean::disjunction(s, a) == Ok::<(Expr, nat), ParseError>((t, (d - a) as nat)));
    assert(boolean::primary(s, pos) == Ok::<(Expr, nat), ParseError>((t, (d + 1 - pos) as nat)));
}

/// Where the text of a boolean expression stands as a word of its own,
/// the expression is read back from it.
pub proof fn lemma_reads_boolean(s: Seq<u8>, pos: int, t: Expr)
    requires
        t.is_boolean(),
        has_text_at(s, pos, t.rendered()),
        word_ends(s, pos + t.rendered().len()),
    ensures
        boolean::negation(s, pos) == Ok::<(Expr, nat), ParseError>((t, t.rendered().len())),
    decreases t,
{
    match t {
        Expr::Literal(Value::Bool(b)) => {
            lemma_reads_literal(s, pos, b);
            lemma_no_space_to_skip(s, pos);
            assert(boolean::primary(s, pos) == Ok::<(Expr, nat), ParseError>(
                (t, t.rendered().len()),
            ));
        },
        Expr::Literal(Value::Num(_)) => {},
        Expr::Unary(op, inner) => {
            reveal_strlit("not ");
            reveal_strlit("");
            lemma_unary_parts(s, pos, op, *inner);
            assert(t.rendered().len() == 4 + inner.rendered().len());
            lemma_reads_boolean(s, pos + 4, *inner);
            lemma_reads_negated(s, pos, *inner);
        },
        Expr::Binary(op, left, right) => {
            let (a, b, c, d) = places(pos, op, *left, *right);
            lemma_binary_parts(s, pos, op, *left, *right);
            lemma_boolean_chain_ends(s, d, t);
            if op == BinaryOp::And {
                lemma_reads_and(s, b);
                reveal_strlit(" and ");
                lemma_reads_boolean(s, a, *left);
                lemma_reads_boolean(s, c, *right);
                lemma_reads_and_node(s, pos, *left, *right);
            } else {
                lemma_reads_or(s, b);
                reveal_strlit(" or ");
                lemma_reads_boolean(s, a, *left);
                lemma_reads_boolean(s, c, *right);
                lemma_reads_or_node(s, pos, *left, *right);
            }
        },
    }
}

/// The bytes of the text of an expression are its characters, one byte
/// each.
pub proof fn lemma_rendered_bytes(t: Expr, text: &str)
    requires
        text@ == t.rendered(),
    ensures
        text.spec_bytes() == text_bytes(t.rendered()),
{
    lemma_rendered_is_plain(t);
    reveal(is_plain);
    lemma_ascii_bytes(text);
}

/// Writing a boolean expression out and reading the text back gives the
/// expression itself, and so its value: what `expr_to_string` returns for
/// a boolean expression, `boolean::parse_expression` reads as that
/// expression.
pub proof fn law_boolean_text_reads_back(t: Expr, text: &str)
    requires
        t.is_boolean(),
        text@ == t.rendered(),
    ensures
        boolean::parse(text.spec_bytes()) == Ok::<Expr, ParseError>(t),
        boolean::parse(text_bytes(t.rendered())) == Ok::<Expr, ParseError>(t),
{
    lemma_rendered_bytes(t, text);
    let s = text_bytes(t.rendered());
    let n = t.rendered().len() as int;
    lemma_text_at(s, 0, t.rendered());
    lemma_boolean_chain_ends(s, n, t);
    lemma_reads_boolean(s, 0, t);
    assert(boolean::conjunction(s, 0) == Ok::<(Expr, nat), ParseError>((t, n as nat)));
    assert(boolean::disjunction(s, 0) == Ok::<(Expr, nat), ParseError>((t, n as nat)));
}

/// The byte at `pos` ends a number: it is no digit, or the input ends
/// there.
pub open spec fn number_ends(s: Seq<u8>, pos: int) -> bool {
    byte_at(s, pos) == -1 || !is_digit(byte_at(s, pos) as u8)
}

/// The result of reading digits, counted from `by` digits earlier.
pub open spec fn later(r: Result<(int, nat), ParseError>, by: nat) -> Result<
    (int, nat),
    ParseError,
> {
    match r {
        Ok((v, n)) => Ok((v, n + by)),
        Err(e) => Err(e),
    }
}

/// Reading the digits of `n` takes the value from 0 to `n`.
pub proof fn lemma_reads_digits(s: Seq<u8>, pos: int, n: nat)
    requires
        has_text_at(s, pos, decimal(n)),
        n <= i64::MAX,
    ensures
        arithmetic::digits(s, pos, 0) == later(
            arithmetic::digits(s, pos + decimal(n).len(), n as int),
            decimal(n).len(),
        ),
        is_digit(byte_at(s, pos) as u8),
        byte_at(s, pos) != -1,
    decreases n,
{
    lemma_text_at(s, pos, decimal(n));
    if n < 10 {
        assert(s[pos + 0] == digit_char(n as int) as u8);
    } else {
        let front = decimal(n / 10);
        let d = (n % 10) as int;
        lemma_text_parts(s, pos, front, seq![digit_char(d)]);
        assert(decimal(n) =~= front + seq![digit_char(d)]);
        lemma_reads_digits(s, pos, n / 10);
        let here = pos + front.len();
        lemma_text_at(s, here, seq![digit_char(d)]);
        assert(s[here + 0] == digit_char(d) as u8);
        assert((n / 10) * 10 + d == n);
        assert(arithmetic::digits(s, here, (n / 10) as int) == later(
            arithmetic::digits(s, here + 1, n as int),
            1,
        ));
    }
}

/// Where the digits of `n` stand as a number of their own, the number `n`
/// is read.
pub proof fn lemma_reads_number(s: Seq<u8>, pos: int, n: nat)
    requires
        has_text_at(s, pos, decimal(n)),
        n <= i64::MAX,
        number_ends(s, pos + decimal(n).len()),
    ensures
        arithmetic::factor(s, pos) == Ok::<(Expr, nat), ParseError>(
            (Expr::Literal(Value::Num(n as i64)), decimal(n).len()),
        ),
{
    lemma_reads_digits(s, pos, n);
    lemma_no_space_to_skip(s, pos);
    assert(arithmetic::digits(s, pos + decimal(n).len(), n as int) == Ok::<
        (int, nat),
        ParseError,
    >((n as int, 0)));
    assert(arithmetic::number(s, pos) == Ok::<(Expr, nat), ParseError>(
        (Expr::Literal(Value::Num(n as i64)), decimal(n).len()),
    ));
}

/// Reading a factor after the white space before it gives the same tree
/// and ends at the same place as reading it with the white space.
pub proof fn lemma_factor_after_spaces(s: Seq<u8>, pos: int)
    ensures
        arithmetic::factor(s, pos) == shift(
            arithmetic::factor(s, skip_spaces(s, pos)),
            skip_spaces(s, pos) - pos,
        ),
{
    let p = skip_spaces(s, pos);
    lemma_skip_spaces(s, pos);
    arithmetic::lemma_number_after_spaces(s, pos);
    if arithmetic::has_byte_at(s, p, arithmetic::OPEN) {
        match arithmetic::sum(s, p + 1) {
            Err(e) => {},
            Ok((e, n)) => {
                lemma_skip_spaces(s, p + 1 + n);
            },
        }
    }
}

/// An expression in which every number can be negated: none is the
/// smallest integer.
pub open spec fn is_negatable(t: Expr) -> bool
    decreases t,
{
    match t {
        Expr::Literal(Value::Num(n)) => n > i64::MIN,
        Expr::Literal(_) => true,
        Expr::Unary(_, inner) => is_negatable(*inner),
        Expr::Binary(_, left, right) => is_negatable(*left) && is_negatable(*right),
    }
}

/// The expression as it is read back from its text: a negative number is
/// read as the negation of a positive one.
pub open spec fn as_read(t: Expr) -> Expr
    decreases t,
{
    match t {
        Expr::Literal(Value::Num(n)) => if n < 0 {
            Expr::Unary(UnaryOp::Neg, Box::new(Expr::Literal(Value::Num((-n) as i64))))
        } else {
            t
        },
        Expr::Literal(_) => t,
        Expr::Unary(op, inner) => Expr::Unary(op, Box::new(as_read(*inner))),
        Expr::Binary(op, left, right) => Expr::Binary(
            op,
            Box::new(as_read(*left)),
            Box::new(as_read(*right)),
        ),
    }
}

/// Reading a negative number as the negation of a positive one keeps the
/// value of the expression.
pub proof fn lemma_as_read_keeps_value(t: Expr)
    requires
        is_negatable(t),
    ensures
        as_read(t).value() == t.value(),
    decreases t,
{
    match t {
        Expr::Literal(Value::Num(n)) => {
            if n < 0 {
                assert(Expr::Literal(Value::Num((-n) as i64)).value() == Ok::<Value, EvalError>(
                    Value::Num((-n) as i64),
                ));
            }
        },
        Expr::Literal(_) => {},
        Expr::Unary(_, inner) => {
            lemma_as_read_keeps_value(*inner);
        },
        Expr::Binary(_, left, right) => {
            lemma_as_read_keeps_value(*left);
            lemma_as_read_keeps_value(*right);
        },
    }
}

/// The text of an arithmetic expression starts with a digit, a minus sign
/// or an opening parenthesis, and so with no white space.
pub proof fn lemma_arithmetic_head(s: Seq<u8>, pos: int, t: Expr)
    requires
        t.is_arithmetic(),
        has_text_at(s, pos, t.rendered()),
    ensures
        is_digit(byte_at(s, pos) as u8) || byte_at(s, pos) == arithmetic::MINUS || byte_at(s, pos)
            == arithmetic::OPEN,
        byte_at(s, pos) != -1,
{
    reveal_strlit("(-");
    reveal_strlit("(");
    match t {
        Expr::Literal(Value::Num(n)) => {
            if n < 0 {
                lemma_text_parts(s, pos, seq!['-'], decimal((-n) as nat));
                lemma_text_at(s, pos, seq!['-']);
                assert(s[pos + 0] == '-' as u8);
            } else {
                crate::text::lemma_decimal_is_ascii(n as nat);
                lemma_text_at(s, pos, decimal(n as nat));
                assert(s[pos + 0] == decimal(n as nat)[0] as u8);
            }
        },
        Expr::Literal(_) => {},
        Expr::Unary(op, inner) => {
            lemma_unary_parts(s, pos, op, *inner);
            lemma_text_at(s, pos, op.opening());
            assert(s[pos + 0] == op.opening()[0] as u8);
        },
        Expr::Binary(op, left, right) => {
            lemma_binary_parts(s, pos, op, *left, *right);
        },
    }
}

/// A closing parenthesis ends every chain of arithmetic operators, and so
/// does the end of the input.
pub proof fn lemma_arithmetic_chain_ends(s: Seq<u8>, pos: int, t: Expr)
    requires
        byte_at(s, pos) == arithmetic::CLOSE || byte_at(s, pos) == -1,
    ensures
        skip_spaces(s, pos) == pos,
        arithmetic::product_tail(s, pos, t) == Ok::<(Expr, nat), ParseError>((t, 0)),
        arithmetic::sum_tail(s, pos, t) == Ok::<(Expr, nat), ParseError>((t, 0)),
        number_ends(s, pos),
{
    lemma_no_space_to_skip(s, pos);
}

/// The operator of an arithmetic node stands between two spaces.
pub proof fn lemma_reads_infix(s: Seq<u8>, pos: int, op: BinaryOp)
    requires
        !op.is_boolean(),
        has_text_at(s, pos, op.infix()),
    ensures
        op.infix().len() == 3,
        byte_at(s, pos) == ' ' as u8,
        byte_at(s, pos + 2) == ' ' as u8,
        byte_at(s, pos + 1) == match op {
            BinaryOp::Add => arithmetic::PLUS,
            BinaryOp::Sub => arithmetic::MINUS,
            _ => arithmetic::STAR,
        },
{
    reveal_strlit(" + ");
    reveal_strlit(" - ");
    reveal_strlit(" * ");
    lemma_text_at(s, pos, op.infix());
    assert(s[pos + 0] == op.infix()[0] as u8);
    assert(s[pos + 1] == op.infix()[1] as u8);
    assert(s[pos + 2] == op.infix()[2] as u8);
}

/// Where a minus sign and the digits of a number stand, the negation of
/// the number is read.
pub proof fn lemma_reads_negative(s: Seq<u8>, pos: int, n: int)
    requires
        i64::MIN < n < 0,
        has_text_at(s, pos, signed_decimal(n)),
        number_ends(s, pos + signed_decimal(n).len()),
    ensures
        arithmetic::factor(s, pos) == Ok::<(Expr, nat), ParseError>(
            (as_read(Expr::Literal(Value::Num(n as i64))), signed_decimal(n).len()),
        ),
{
    let m = (-n) as nat;
    lemma_text_parts(s, pos, seq!['-'], decimal(m));
    lemma_text_at(s, pos, seq!['-']);
    assert(s[pos + 0] == '-' as u8);
    lemma_no_space_to_skip(s, pos);
    lemma_reads_number(s, pos + 1, m);
}

/// A negation in parentheses whose operand is read is read as a whole.
pub proof fn lemma_reads_neg_node(s: Seq<u8>, pos: int, x: Expr, read: Expr)
    requires
        has_text_at(s, pos, Expr::Unary(UnaryOp::Neg, Box::new(x)).rendered()),
        arithmetic::factor(s, pos + 2) == Ok::<(Expr, nat), ParseError>((read, x.rendered().len())),
    ensures
        arithmetic::factor(s, pos) == Ok::<(Expr, nat), ParseError>(
            (
                Expr::Unary(UnaryOp::Neg, Box::new(read)),
                Expr::Unary(UnaryOp::Neg, Box::new(x)).rendered().len(),
            ),
        ),
{
    reveal_strlit("(-");
    reveal_strlit(")");
    let t = Expr::Unary(UnaryOp::Neg, Box::new(read));
    lemma_unary_parts(s, pos, UnaryOp::Neg, x);
    lemma_text_at(s, pos, "(-"@);
    assert(s[pos + 0] == '(' as u8);
    assert(s[pos + 1] == '-' as u8);
    let d = pos + 2 + x.rendered().len();
    lemma_text_at(s, d, ")"@);
    assert(s[d + 0] == ')' as u8);
    lemma_no_space_to_skip(s, pos);
    lemma_no_space_to_skip(s, pos + 1);
    lemma_arithmetic_chain_ends(s, d, t);
    assert(arithmetic::factor(s, pos + 1) == Ok::<(Expr, nat), ParseError>(
        (t, (d - (pos + 1)) as nat),
    ));
    assert(arithmetic::product(s, pos + 1) == Ok::<(Expr, nat), ParseError>(
        (t, (d - (pos + 1)) as nat),
    ));
    assert(arithmetic::sum(s, pos + 1) == Ok::<(Expr, nat), ParseError>(
        (t, (d - (pos + 1)) as nat),
    ));
}

/// A product in parentheses whose operands are read is read as a whole.
pub proof fn lemma_reads_mul_node(
    s: Seq<u8>,
    pos: int,
    l: Expr,
    r: Expr,
    read_l: Expr,
    read_r: Expr,
)
    requires
        l.is_arithmetic(),
        r.is_arithmetic(),
        has_text_at(s, pos, Expr::Binary(BinaryOp::Mul, Box::new(l), Box::new(r)).rendered()),
        arithmetic::factor(s, places(pos, BinaryOp::Mul, l, r).0) == Ok::<(Expr, nat), ParseError>(
            (read_l, l.rendered().len()),
        ),
        arithmetic::factor(s, places(pos, BinaryOp::Mul, l, r).2) == Ok::<(Expr, nat), ParseError>(
            (read_r, r.rendered().len()),
        ),
    ensures
        arithmetic::factor(s, pos) == Ok::<(Expr, nat), ParseError>(
            (
                Expr::Binary(BinaryOp::Mul, Box::new(read_l), Box::new(read_r)),
                Expr::Binary(BinaryOp::Mul, Box::new(l), Box::new(r)).rendered().len(),
            ),
        ),
{
    let t = Expr::Binary(BinaryOp::Mul, Box::new(read_l), Box::new(read_r));
    let (a, b, c, d) = places(pos, BinaryOp::Mul, l, r);
    lemma_binary_parts(s, pos, BinaryOp::Mul, l, r);
    lemma_reads_infix(s, b, BinaryOp::Mul);
    lemma_no_space_to_skip(s, pos);
    lemma_arithmetic_chain_ends(s, d, t);
    lemma_arithmetic_head(s, c, r);
    lemma_no_space_to_skip(s, b + 1);
    lemma_one_space(s, b);
    lemma_one_space(s, b + 2);
    lemma_factor_after_spaces(s, b + 2);
    assert(arithmetic::factor(s, b + 2) == Ok::<(Expr, nat), ParseError>(
        (read_r, r.rendered().len() + 1),
    ));
    assert(arithmetic::product_tail(s, b, read_l) == Ok::<(Expr, nat), ParseError>(
        (t, (d - b) as nat),
    ));
    assert(arithmetic::product(s, a) == Ok::<(Expr, nat), ParseError>((t, (d - a) as nat)));
    assert(arithmetic::sum(s, a) == Ok::<(Expr, nat), ParseError>((t, (d - a) as nat)));
}

/// A sum or a difference in parentheses whose operands are read is read
/// as a whole.
#[verifier::rlimit(50)]
pub proof fn lemma_reads_additive_node(
    s: Seq<u8>,
    pos: int,
    op: BinaryOp,
    l: Expr,
    r: Expr,
    read_l: Expr,
    read_r: Expr,
)
    requires
        op == BinaryOp::Add || op == BinaryOp::Sub,
        l.is_arithmetic(),
        r.is_arithmetic(),
        has_text_at(s, pos, Expr::Binary(op, Box::new(l), Box::new(r)).rendered()),
        arithmetic::factor(s, places(pos, op, l, r).0) == Ok::<(Expr, nat), ParseError>(
            (read_l, l.rendered().len()),
        ),
        arithmetic::factor(s, places(pos, op, l, r).2) == Ok::<(Expr, nat), ParseError>(
            (read_r, r.rendered().len()),
        ),
    ensures
        arithmetic::factor(s, pos) == Ok::<(Expr, nat), ParseError>(
            (
                Expr::Binary(op, Box::new(read_l), Box::new(read_r)),
                Expr::Binary(op, Box::new(l), Box::new(r)).rendered().len(),
            ),
        ),
{
    let t = Expr::Binary(op, Box::new(read_l), Box::new(read_r));
    let (a, b, c, d) = places(pos, op, l, r);
    lemma_binary_parts(s, pos, op, l, r);
    lemma_reads_infix(s, b, op);
    lemma_no_space_to_skip(s, pos);
    lemma_arithmetic_chain_ends(s, d, t);
    lemma_arithmetic_chain_ends(s, d, read_r);
    lemma_arithmetic_head(s, c, r);
    lemma_no_space_to_skip(s, b + 1);
    lemma_one_space(s, b);
    lemma_one_space(s, b + 2);
    lemma_factor_after_spaces(s, b + 2);
    assert(arithmetic::factor(s, b + 2) == Ok::<(Expr, nat), ParseError>(
        (read_r, r.rendered().len() + 1),
    ));
    assert(arithmetic::product_tail(s, b, read_l) == Ok::<(Expr, nat), ParseError>((read_l, 1)));
    assert(arithmetic::product(s, a) == Ok::<(Expr, nat), ParseError>(
        (read_l, (b + 1 - a) as nat),
    ));
    assert(arithmetic::product(s, b + 2) == Ok::<(Expr, nat), ParseError>(
        (read_r, r.rendered().len() + 1),
    ));
    assert(arithmetic::additive_at(s, b + 1) == Some(op));
    assert(arithmetic::sum_tail(s, b + 1, read_l) == Ok::<(Expr, nat), ParseError>(
        (t, (d - (b + 1)) as nat),
    ));
    assert(arithmetic::sum(s, a) == Ok::<(Expr, nat), ParseError>((t, (d - a) as nat)));
}

/// Where the text of an arithmetic expression stands as a number of its
/// own, the expression is read back from it, with every negative number as
/// a negation.
pub proof fn lemma_reads_arithmetic(s: Seq<u8>, pos: int, t: Expr)
    requires
        t.is_arithmetic(),
        is_negatable(t),
        has_text_at(s, pos, t.rendered()),
        number_ends(s, pos + t.rendered().len()),
    ensures
        arithmetic::factor(s, pos) == Ok::<(Expr, nat), ParseError>(
            (as_read(t), t.rendered().len()),
        ),
    decreases t,
{
    match t {
        Expr::Literal(Value::Num(n)) => {
            if n < 0 {
                lemma_reads_negative(s, pos, n as int);
            } else {
                lemma_reads_number(s, pos, n as nat);
            }
        },
        Expr::Literal(_) => {},
        Expr::Unary(op, inner) => {
            reveal_strlit("(-");
            reveal_strlit(")");
            lemma_unary_parts(s, pos, op, *inner);
            let d = pos + 2 + inner.rendered().len();
            lemma_text_at(s, d, ")"@);
            assert(s[d + 0] == ')' as u8);
            lemma_reads_arithmetic(s, pos + 2, *inner);
            lemma_reads_neg_node(s, pos, *inner, as_read(*inner));
        },
        Expr::Binary(op, left, right) => {
            let (a, b, c, d) = places(pos, op, *left, *right);
            lemma_binary_parts(s, pos, op, *left, *right);
            lemma_reads_infix(s, b, op);
            lemma_reads_arithmetic(s, a, *left);
            lemma_reads_arithmetic(s, c, *right);
            if op == BinaryOp::Mul {
                lemma_reads_mul_node(s, pos, *left, *right, as_read(*left), as_read(*right));
            } else {
                lemma_reads_additive_node(
                    s,
                    pos,
                    op,
                    *left,
                    *right,
                    as_read(*left),
                    as_read(*right),
                );
            }
        },
    }
}

/// Writing an arithmetic expression out and reading the text back gives
/// an expression with the same value: the expression itself, but for its
/// negative numbers, which are read as negations. What `expr_to_string`
/// returns for such an expression, `arithmetic::parse_expression` reads in
/// this way. The smallest integer has no such reading, so an expression
/// that holds it is left out.
pub proof fn law_arithmetic_text_reads_back(t: Expr, text: &str)
    requires
        t.is_arithmetic(),
        is_negatable(t),
        text@ == t.rendered(),
    ensures
        arithmetic::parse(text.spec_bytes()) == Ok::<Expr, ParseError>(as_read(t)),
        arithmetic::parse(text_bytes(t.rendered())) == Ok::<Expr, ParseError>(as_read(t)),
        as_read(t).value() == t.value(),
        normal_form(as_read(t)) == normal_form(t),
{
    lemma_rendered_bytes(t, text);
    law_stepwise_agrees_with_direct(t);
    law_stepwise_agrees_with_direct(as_read(t));
    let s = text_bytes(t.rendered());
    let n = t.rendered().len() as int;
    lemma_text_at(s, 0, t.rendered());
    lemma_arithmetic_chain_ends(s, n, as_read(t));
    lemma_reads_arithmetic(s, 0, t);
    assert(arithmetic::product(s, 0) == Ok::<(Expr, nat), ParseError>((as_read(t), n as nat)));
    assert(arithmetic::sum(s, 0) == Ok::<(Expr, nat), ParseError>((as_read(t), n as nat)));
    lemma_as_read_keeps_value(t);
}

} // verus!
