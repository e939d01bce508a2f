//! An expression written out as text, and where in the text a node stands.

use std::ops::Range;
use vstd::prelude::*;
use vstd::slice::slice_subrange;
use vstd::string::{StringExecFns, StringSliceAdditionalSpecFns};
use crate::expr::{BinaryOp, Expr, UnaryOp, Value};
use crate::path::{subtree_at, PathStep};
use crate::text::{
    byte_len, is_plain, lemma_bytes_of_parts, lemma_plain_byte_len, lemma_plain_concat,
    lemma_plain_number, push_signed, signed_decimal, text_byte_len,
};

verus! {

impl UnaryOp {
    /// What is written before the operand.
    pub open spec fn opening(self) -> Seq<char> {
        match self {
            UnaryOp::Not => "not "@,
            UnaryOp::Neg => "(-"@,
        }
    }

    /// What is written after the operand.
    pub open spec fn closing(self) -> Seq<char> {
        match self {
            UnaryOp::Not => ""@,
            UnaryOp::Neg => ")"@,
        }
    }
}

impl BinaryOp {
    /// What is written between the operands.
    pub open spec fn infix(self) -> Seq<char> {
        match self {
            BinaryOp::And => " and "@,
            BinaryOp::Or => " or "@,
            BinaryOp::Add => " + "@,
            BinaryOp::Sub => " - "@,
            BinaryOp::Mul => " * "@,
        }
    }
}

impl Value {
    /// The value as text: `true`, `false`, or the number in decimal.
    pub open spec fn text(self) -> Seq<char> {
        match self {
            Value::Bool(true) => "true"@,
            Value::Bool(false) => "false"@,
            Value::Num(n) => signed_decimal(n as int),
        }
    }
}

impl Expr {
    /// The expression as text. Every binary operator stands in parentheses
    /// with its operands, so the text needs no rule of precedence to be read.
    pub open spec fn rendered(self) -> Seq<char>
        decreases self,
    {
        match self {
            Expr::Literal(v) => v.text(),
            Expr::Unary(op, inner) => op.opening() + inner.rendered() + op.closing(),
            Expr::Binary(op, left, right) => "("@ + left.rendered() + op.infix() + right.rendered()
                + ")"@,
        }
    }

    /// Where in the text of the expression the node at `path` stands: the
    /// offsets of its first character and of the character after its last.
    /// A path that does not fit the tree has no place.
    pub open spec fn span_at(self, path: Seq<PathStep>) -> Option<(nat, nat)>
        decreases path.len(),
    {
        if path.len() == 0 {
            Some((0, self.rendered().len()))
        } else {
            match (path[0], self) {
                (PathStep::Unary, Expr::Unary(op, inner)) => moved(
                    inner.span_at(path.drop_first()),
                    op.opening().len(),
                ),
                (PathStep::Left, Expr::Binary(_, left, _)) => moved(
                    left.span_at(path.drop_first()),
                    "("@.len(),
                ),
                (PathStep::Right, Expr::Binary(op, left, right)) => moved(
                    right.span_at(path.drop_first()),
                    "("@.len() + left.rendered().len() + op.infix().len(),
                ),
                _ => None,
            }
        }
    }
}

/// The span moved `by` characters to the right.
pub open spec fn moved(span: Option<(nat, nat)>, by: nat) -> Option<(nat, nat)> {
    match span {
        Some((a, b)) => Some((a + by, b + by)),
        None => None,
    }
}

/// The texts that expressions are written with are ASCII.
pub proof fn lemma_tokens_are_plain()
    ensures
        is_plain(UnaryOp::Not.opening()),
        is_plain(UnaryOp::Neg.opening()),
        is_plain(UnaryOp::Not.closing()),
        is_plain(UnaryOp::Neg.closing()),
        is_plain(BinaryOp::And.infix()),
        is_plain(BinaryOp::Or.infix()),
        is_plain(BinaryOp::Add.infix()),
        is_plain(BinaryOp::Sub.infix()),
        is_plain(BinaryOp::Mul.infix()),
        is_plain(Value::Bool(true).text()),
        is_plain(Value::Bool(false).text()),
        is_plain("("@),
        is_plain(")"@),
{
    reveal(is_plain);
    reveal_strlit("true");
    reveal_strlit("false");
    reveal_strlit("not ");
    reveal_strlit("(-");
    reveal_strlit("");
    reveal_strlit(")");
    reveal_strlit("(");
    reveal_strlit(" and ");
    reveal_strlit(" or ");
    reveal_strlit(" + ");
    reveal_strlit(" - ");
    reveal_strlit(" * ");
}

/// The text of an expression is ASCII.
pub proof fn lemma_rendered_is_plain(e: Expr)
    ensures
        is_plain(e.rendered()),
    decreases e,
{
    lemma_tokens_are_plain();
    match e {
        Expr::Literal(Value::Bool(_)) => {},
        Expr::Literal(Value::Num(n)) => {
            lemma_plain_number(n as int);
        },
        Expr::Unary(op, inner) => {
            lemma_rendered_is_plain(*inner);
            lemma_plain_concat(op.opening(), inner.rendered());
            lemma_plain_concat(op.opening() + inner.rendered(), op.closing());
        },
        Expr::Binary(op, left, right) => {
            lemma_rendered_is_plain(*left);
            lemma_rendered_is_plain(*right);
            lemma_plain_concat("("@, left.rendered());
            lemma_plain_concat("("@ + left.rendered(), op.infix());
            lemma_plain_concat("("@ + left.rendered() + op.infix(), right.rendered());
            lemma_plain_concat("("@ + left.rendered() + op.infix() + right.rendered(), ")"@);
        },
    }
}

/// A path has a place in the text exactly when it fits the tree, and the
/// text at that place is the text of the node that the path leads to.
pub proof fn law_span_holds_the_node(e: Expr, path: Seq<PathStep>)
    ensures
        e.span_at(path).is_some() <==> subtree_at(e, path).is_some(),
        e.span_at(path) matches Some((a, b)) ==> a <= b <= e.rendered().len()
            && e.rendered().subrange(a as int, b as int) == subtree_at(e, path).unwrap().rendered(),
    decreases path.len(),
{
    if path.len() == 0 {
        assert(e.rendered().subrange(0, e.rendered().len() as int) =~= e.rendered());
    } else {
        let rest = path.drop_first();
        match (path[0], e) {
            (PathStep::Unary, Expr::Unary(op, inner)) => {
                law_span_holds_the_node(*inner, rest);
                if inner.span_at(rest) is Some {
                    let (a, b) = inner.span_at(rest).unwrap();
                    let k = op.opening().len();
                    assert(e.rendered().subrange((a + k) as int, (b + k) as int) =~= inner.rendered().subrange(
                        a as int,
                        b as int,
                    ));
                }
            },
            (PathStep::Left, Expr::Binary(op, left, right)) => {
                law_span_holds_the_node(*left, rest);
                if left.span_at(rest) is Some {
                    let (a, b) = left.span_at(rest).unwrap();
                    let k = "("@.len();
                    assert(e.rendered().subrange((a + k) as int, (b + k) as int) =~= left.rendered().subrange(
                        a as int,
                        b as int,
                    ));
                }
            },
            (PathStep::Right, Expr::Binary(op, left, right)) => {
                law_span_holds_the_node(*right, rest);
                if right.span_at(rest) is Some {
                    let (a, b) = right.span_at(rest).unwrap();
                    let k = "("@.len() + left.rendered().len() + op.infix().len();
                    assert(e.rendered().subrange((a + k) as int, (b + k) as int) =~= right.rendered().subrange(
                        a as int,
                        b as int,
                    ));
                }
            },
            _ => {},
        }
    }
}

/// The span that a range of byte offsets stands for.
pub open spec fn range_of(span: Option<(nat, nat)>, base: nat) -> Option<Range<usize>> {
    match span {
        Some((a, b)) => Some(Range { start: (base + a) as usize, end: (base + b) as usize }),
        None => None,
    }
}

/// Appends ASCII text, which adds one byte for each character.
fn push_text(out: &mut String, text: &str)
    requires
        is_plain(text@),
    ensures
        final(out)@ == old(out)@ + text@,
        byte_len(final(out)@) == byte_len(old(out)@) + text@.len(),
{
    out.append(text);
    proof {
        lemma_bytes_of_parts(old(out)@, text@);
        lemma_plain_byte_len(text@);
    }
}

/// Appends the text of a literal.
fn push_value(out: &mut String, v: Value)
    ensures
        final(out)@ == old(out)@ + v.text(),
        byte_len(final(out)@) == byte_len(old(out)@) + v.text().len(),
{
    proof {
        lemma_tokens_are_plain();
        match v {
            Value::Bool(_) => {},
            Value::Num(n) => {
                lemma_plain_number(n as int);
            },
        }
        lemma_bytes_of_parts(old(out)@, v.text());
        lemma_plain_byte_len(v.text());
    }
    match v {
        Value::Bool(true) => {
            out.append("true");
        },
        Value::Bool(false) => {
            out.append("false");
        },
        Value::Num(n) => {
            push_signed(out, n);
        },
    }
}

/// Appends what is written before the operand of `op`.
fn push_opening(out: &mut String, op: UnaryOp)
    ensures
        final(out)@ == old(out)@ + op.opening(),
        byte_len(final(out)@) == byte_len(old(out)@) + op.opening().len(),
{
    proof {
        lemma_tokens_are_plain();
    }
    match op {
        UnaryOp::Not => push_text(out, "not "),
        UnaryOp::Neg => push_text(out, "(-"),
    }
}

/// Appends what is written after the operand of `op`.
fn push_closing(out: &mut String, op: UnaryOp)
    ensures
        final(out)@ == old(out)@ + op.closing(),
        byte_len(final(out)@) == byte_len(old(out)@) + op.closing().len(),
{
    proof {
        lemma_tokens_are_plain();
    }
    match op {
        UnaryOp::Not => {
            proof {
                reveal_strlit("");
                assert(old(out)@ + ""@ =~= old(out)@);
            }
        },
        UnaryOp::Neg => push_text(out, ")"),
    }
}

/// Appends what is written between the operands of `op`.
fn push_infix(out: &mut String, op: BinaryOp)
    ensures
        final(out)@ == old(out)@ + op.infix(),
        byte_len(final(out)@) == byte_len(old(out)@) + op.infix().len(),
{
    proof {
        lemma_tokens_are_plain();
    }
    match op {
        BinaryOp::And => push_text(out, " and "),
        BinaryOp::Or => push_text(out, " or "),
        BinaryOp::Add => push_text(out, " + "),
        BinaryOp::Sub => push_text(out, " - "),
        BinaryOp::Mul => push_text(out, " * "),
    }
}

/// What `render_expr` leaves in the range: the place of the node at `path`
/// in a text that starts `base` bytes in, if highlighting is enabled and the
/// path fits the tree, and the range as it was otherwise. The text of an
/// expression is ASCII, so its characters are counted as its bytes.
pub open spec fn marked(
    e: Expr,
    path: Seq<PathStep>,
    enabled: bool,
    base: nat,
    was: Option<Range<usize>>,
) -> Option<Range<usize>> {
    if enabled && e.span_at(path).is_some() {
        range_of(e.span_at(path), base)
    } else {
        was
    }
}

/// The range after the operand of a unary operator has been written is the
/// range of the whole node, unless the path ends at the node itself.
proof fn lemma_marked_unary(
    e: Expr,
    path: Seq<PathStep>,
    enabled: bool,
    base: nat,
    was: Option<Range<usize>>,
)
    requires
        e is Unary,
        path.len() > 0,
    ensures
        ({
            let on = enabled && path[0] == PathStep::Unary;
            let below = if on {
                path.drop_first()
            } else {
                Seq::<PathStep>::empty()
            };
            marked(e, path, enabled, base, was) == marked(
                *e->Unary_1,
                below,
                on,
                base + e->Unary_0.opening().len(),
                was,
            )
        }),
{
}

/// The range after both operands of a binary operator have been written
/// is the range of the whole node, unless the path ends at the node itself.
proof fn lemma_marked_binary(
    e: Expr,
    path: Seq<PathStep>,
    enabled: bool,
    base: nat,
    was: Option<Range<usize>>,
)
    requires
        e is Binary,
        path.len() > 0,
    ensures
        ({
            let on_left = enabled && path[0] == PathStep::Left;
            let on_right = enabled && path[0] == PathStep::Right;
            let left_path = if on_left {
                path.drop_first()
            } else {
                Seq::<PathStep>::empty()
            };
            let right_path = if on_right {
                path.drop_first()
            } else {
                Seq::<PathStep>::empty()
            };
            let after_left = marked(*e->Binary_1, left_path, on_left, base + "("@.len(), was);
            marked(e, path, enabled, base, was) == marked(
                *e->Binary_2,
                right_path,
                on_right,
                base + "("@.len() + e->Binary_1.rendered().len() + e->Binary_0.infix().len(),
                after_left,
            )
        }),
{
}

/// Appends the text of `expr` to `out`. With `highlight_enabled`, and a
/// `highlight_path` that fits the tree, the place of the node at that path
/// in `out`, counted in bytes, is stored in `highlight_range`; otherwise
/// `highlight_range` keeps its value.
pub fn render_expr(
    expr: &Expr,
    highlight_path: &[PathStep],
    highlight_enabled: bool,
    out: &mut String,
    highlight_range: &mut Option<Range<usize>>,
)
    ensures
        final(out)@ == old(out)@ + expr.rendered(),
        byte_len(final(out)@) == byte_len(old(out)@) + expr.rendered().len(),
        *final(highlight_range) == marked(
            *expr,
            highlight_path@,
            highlight_enabled,
            byte_len(old(out)@),
            *old(highlight_range),
        ),
    decreases *expr,
{
    let start: usize = text_byte_len(out.as_str());
    let has_step = highlight_path.len() > 0;
    let ghost before = out@;
    let ghost was = *highlight_range;
    proof {
        lemma_tokens_are_plain();
    }
    match expr {
        Expr::Literal(v) => {
            push_value(out, *v);
        },
        Expr::Unary(op, inner) => {
            push_opening(out, *op);
            let on = highlight_enabled && has_step && highlight_path[0] == PathStep::Unary;
            let path = below(highlight_path, on);
            render_expr(inner, path, on, out, highlight_range);
            push_closing(out, *op);
            proof {
                assert(out@ =~= before + expr.rendered());
                if has_step {
                    lemma_marked_unary(
                        *expr,
                        highlight_path@,
                        highlight_enabled,
                        byte_len(before),
                        was,
                    );
                }
            }
        },
        Expr::Binary(op, left, right) => {
            push_text(out, "(");
            let on_left = highlight_enabled && has_step && highlight_path[0] == PathStep::Left;
            let left_path = below(highlight_path, on_left);
            render_expr(left, left_path, on_left, out, highlight_range);
            push_infix(out, *op);
            assert(out@ =~= before + ("("@ + left.rendered() + op.infix()));
            let on_right = highlight_enabled && has_step && highlight_path[0] == PathStep::Right;
            let right_path = below(highlight_path, on_right);
            render_expr(right, right_path, on_right, out, highlight_range);
            push_text(out, ")");
            proof {
                assert(out@ =~= before + expr.rendered());
                if has_step {
                    lemma_marked_binary(
                        *expr,
                        highlight_path@,
                        highlight_enabled,
                        byte_len(before),
                        was,
                    );
                }
            }
        },
    }
    let end: usize = text_byte_len(out.as_str());
    if highlight_enabled && !has_step {
        *highlight_range = Some(start..end);
    }
}

/// The path below its first step if `follow` says to take it, and the empty
/// path otherwise.
fn below(path: &[PathStep], follow: bool) -> (rest: &[PathStep])
    requires
        follow ==> path@.len() > 0,
    ensures
        rest@ == if follow {
            path@.drop_first()
        } else {
            Seq::<PathStep>::empty()
        },
{
    let rest = if follow {
        slice_subrange(path, 1, path.len())
    } else {
        slice_subrange(path, 0, 0)
    };
    assert(rest@ =~= if follow {
        path@.drop_first()
    } else {
        Seq::<PathStep>::empty()
    });
    rest
}

/// The text of `expr`, and the place in it of the node at `highlight`: one
/// range of byte offsets if the path is given and fits the tree, and none
/// otherwise.
pub fn render_expr_with_highlight(expr: &Expr, highlight: Option<&[PathStep]>) -> (r: (
    String,
    Vec<Range<usize>>,
))
    ensures
        r.0@ == expr.rendered(),
        r.1@ == match highlight {
            Some(path) => match range_of(expr.span_at(path@), 0) {
                Some(range) => seq![range],
                None => Seq::<Range<usize>>::empty(),
            },
            None => Seq::<Range<usize>>::empty(),
        },
{
    let mut text = String::new();
    let mut highlight_range: Option<Range<usize>> = None;
    proof {
        crate::text::lemma_plain_empty();
        lemma_plain_byte_len(text@);
    }
    match highlight {
        Some(path) => {
            render_expr(expr, path, true, &mut text, &mut highlight_range);
        },
        None => {
            let none: Vec<PathStep> = Vec::new();
            render_expr(expr, none.as_slice(), false, &mut text, &mut highlight_range);
        },
    }
    let mut ranges: Vec<Range<usize>> = Vec::new();
    match highlight_range {
        Some(range) => {
            ranges.push(range);
        },
        None => {},
    }
    assert(text@ =~= expr.rendered());
    (text, ranges)
}

/// The text of `expr`.
pub fn expr_to_string(expr: &Expr) -> (text: String)
    ensures
        text@ == expr.rendered(),
{
    render_expr_with_highlight(expr, None).0
}

} // verus!
