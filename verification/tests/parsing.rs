use stepwise::arithmetic;
use stepwise::boolean;
use stepwise::error::{ParseError, ParseErrorKind};
use stepwise::expr::{BinaryOp, Expr, UnaryOp};
use stepwise::scan::{is_ascii_digit, is_ascii_space, is_ascii_word_byte, Parser};

fn lit(b: bool) -> Expr {
    Expr::boolean(b)
}

fn num(n: i64) -> Expr {
    Expr::num(n)
}

fn un(op: UnaryOp, e: Expr) -> Expr {
    Expr::Unary(op, Box::new(e))
}

fn bin(op: BinaryOp, l: Expr, r: Expr) -> Expr {
    Expr::Binary(op, Box::new(l), Box::new(r))
}

#[test]
fn boolean_precedence_is_not_then_and_then_or() {
    let parsed = boolean::parse_expression("not true and false or true").unwrap();
    let expected = bin(
        BinaryOp::Or,
        bin(BinaryOp::And, un(UnaryOp::Not, lit(true)), lit(false)),
        lit(true),
    );
    assert_eq!(parsed, expected);
}

#[test]
fn boolean_parentheses_group() {
    let parsed = boolean::parse_expression("not (true and false) or true").unwrap();
    let expected = bin(
        BinaryOp::Or,
        un(UnaryOp::Not, bin(BinaryOp::And, lit(true), lit(false))),
        lit(true),
    );
    assert_eq!(parsed, expected);
}

#[test]
fn boolean_symbols_and_synonyms() {
    let parsed = boolean::parse_expression("!yes&&on||no || off").unwrap();
    let expected = bin(
        BinaryOp::Or,
        bin(
            BinaryOp::Or,
            bin(BinaryOp::And, un(UnaryOp::Not, lit(true)), lit(true)),
            lit(false),
        ),
        lit(false),
    );
    assert_eq!(parsed, expected);
}

#[test]
fn boolean_chains_group_from_the_left() {
    let parsed = boolean::parse_expression("true and false and true").unwrap();
    let expected = bin(
        BinaryOp::And,
        bin(BinaryOp::And, lit(true), lit(false)),
        lit(true),
    );
    assert_eq!(parsed, expected);
}

#[test]
fn bare_identifier_is_no_boolean() {
    let err = boolean::parse_expression("andy").unwrap_err();
    assert_eq!(err, ParseError { kind: ParseErrorKind::ExpectedTruthValue, offset: 0 });
    assert_eq!(err.position(), 1);
}

#[test]
fn word_operator_needs_a_boundary() {
    let err = boolean::parse_expression("true andy").unwrap_err();
    assert_eq!(err, ParseError { kind: ParseErrorKind::UnexpectedInput, offset: 5 });
    let err = boolean::parse_expression("true_ and false").unwrap_err();
    assert_eq!(err.kind, ParseErrorKind::ExpectedTruthValue);
    assert_eq!(err.offset, 0);
}

#[test]
fn symbol_operator_needs_no_boundary() {
    let parsed = boolean::parse_expression("!true").unwrap();
    assert_eq!(parsed, un(UnaryOp::Not, lit(true)));
    let parsed = boolean::parse_expression("true&&false").unwrap();
    assert_eq!(parsed, bin(BinaryOp::And, lit(true), lit(false)));
}

#[test]
fn boolean_missing_closing_parenthesis() {
    let err = boolean::parse_expression("(true or false").unwrap_err();
    assert_eq!(err, ParseError { kind: ParseErrorKind::ExpectedClosingParen, offset: 14 });
    assert_eq!(err.position(), 15);
}

#[test]
fn boolean_trailing_input() {
    let err = boolean::parse_expression("true )").unwrap_err();
    assert_eq!(err, ParseError { kind: ParseErrorKind::UnexpectedInput, offset: 5 });
}

#[test]
fn boolean_empty_input_expects_a_value() {
    let err = boolean::parse_expression("   ").unwrap_err();
    assert_eq!(err, ParseError { kind: ParseErrorKind::ExpectedTruthValue, offset: 3 });
}

#[test]
fn arithmetic_precedence_and_grouping() {
    let parsed = arithmetic::parse_expression("3 + 2 * 4").unwrap();
    assert_eq!(parsed, bin(BinaryOp::Add, num(3), bin(BinaryOp::Mul, num(2), num(4))));
    let parsed = arithmetic::parse_expression("8 - 3 - 2").unwrap();
    assert_eq!(parsed, bin(BinaryOp::Sub, bin(BinaryOp::Sub, num(8), num(3)), num(2)));
    let parsed = arithmetic::parse_expression("(3 * 2) + 2").unwrap();
    assert_eq!(parsed, bin(BinaryOp::Add, bin(BinaryOp::Mul, num(3), num(2)), num(2)));
}

#[test]
fn arithmetic_unary_minus() {
    let parsed = arithmetic::parse_expression("-(4 + 1) * 3").unwrap();
    let expected = bin(
        BinaryOp::Mul,
        un(UnaryOp::Neg, bin(BinaryOp::Add, num(4), num(1))),
        num(3),
    );
    assert_eq!(parsed, expected);
    let parsed = arithmetic::parse_expression("2 - -3").unwrap();
    assert_eq!(parsed, bin(BinaryOp::Sub, num(2), un(UnaryOp::Neg, num(3))));
}

#[test]
fn arithmetic_largest_number() {
    let parsed = arithmetic::parse_expression("9223372036854775807").unwrap();
    assert_eq!(parsed, num(i64::MAX));
}

#[test]
fn arithmetic_number_too_large() {
    let err = arithmetic::parse_expression("9223372036854775808").unwrap_err();
    assert_eq!(err, ParseError { kind: ParseErrorKind::NumberTooLarge, offset: 18 });
    assert_eq!(err.position(), 19);
}

#[test]
fn arithmetic_missing_number() {
    let err = arithmetic::parse_expression("1 + ").unwrap_err();
    assert_eq!(err, ParseError { kind: ParseErrorKind::ExpectedNumber, offset: 4 });
    let err = arithmetic::parse_expression("true").unwrap_err();
    assert_eq!(err, ParseError { kind: ParseErrorKind::ExpectedNumber, offset: 0 });
}

#[test]
fn arithmetic_missing_closing_parenthesis() {
    let err = arithmetic::parse_expression("(1 + 2").unwrap_err();
    assert_eq!(err, ParseError { kind: ParseErrorKind::ExpectedClosingParen, offset: 6 });
}

#[test]
fn arithmetic_trailing_input() {
    let err = arithmetic::parse_expression("1 2").unwrap_err();
    assert_eq!(err, ParseError { kind: ParseErrorKind::UnexpectedInput, offset: 2 });
}

#[test]
fn cursor_reads_bytes_words_and_white_space() {
    let mut parser = Parser::new("  or_else or||x");
    assert_eq!(parser.peek(), Some(b' '));
    parser.skip_ws();
    assert_eq!(parser.pos, 2);
    assert_eq!(parser.peek(), Some(b'o'));
    assert!(!parser.consume_word("or"));
    assert_eq!(parser.pos, 2);
    assert!(parser.consume_bytes("or"));
    assert_eq!(parser.pos, 4);
    assert!(parser.consume(b'_'));
    assert!(!parser.consume(b'_'));
    assert!(parser.consume_word("else"));
    parser.skip_ws();
    assert!(parser.consume_word("or"));
    assert!(!parser.consume_bytes("|||"));
    assert!(parser.consume_bytes("||"));
    assert!(parser.consume_word("x"));
    assert_eq!(parser.peek(), None);
    assert!(!parser.consume(b'x'));
    assert!(!parser.consume_bytes("x"));
    assert!(parser.consume_bytes(""));
    parser.skip_ws();
    assert_eq!(parser.pos, 15);
}

#[test]
fn white_space_is_space_tab_and_line_ends() {
    for b in [b' ', b'\t', b'\n', b'\r', 0x0c] {
        assert!(is_ascii_space(b));
    }
    assert!(!is_ascii_space(0x0b));
    assert!(!is_ascii_space(b'a'));
    for b in 0..=255u8 {
        assert_eq!(is_ascii_space(b), b.is_ascii_whitespace());
        assert_eq!(is_ascii_digit(b), b.is_ascii_digit());
        assert_eq!(is_ascii_word_byte(b), b.is_ascii_alphanumeric() || b == b'_');
    }
    let parsed = stepwise::boolean::parse_expression("\t true\n\rand\x0cfalse ").unwrap();
    assert_eq!(
        parsed,
        bin(BinaryOp::And, lit(true), lit(false))
    );
}
