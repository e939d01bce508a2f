//! Numbers written out in decimal.

use vstd::prelude::*;
use vstd::string::StringExecFns;
use vstd::string::StringSliceAdditionalSpecFns;
use vstd::utf8::{encode_utf8, is_ascii_chars};

verus! {

/// The character of the decimal digit `d`.
pub open spec fn digit_char(d: int) -> char {
    (0x30 + d) as char
}

/// The decimal digits of `n`, the most significant first, without leading
/// zeros.
pub open spec fn decimal(n: nat) -> Seq<char>
    decreases n,
{
    if n < 10 {
        seq![digit_char(n as int)]
    } else {
        decimal(n / 10).push(digit_char((n % 10) as int))
    }
}

/// The decimal digits of `n`, after a minus sign if it is negative.
pub open spec fn signed_decimal(n: int) -> Seq<char> {
    if n < 0 {
        seq!['-'] + decimal((-n) as nat)
    } else {
        decimal(n as nat)
    }
}

/// The digits of a number are ASCII, and there is at least one.
pub proof fn lemma_decimal_is_ascii(n: nat)
    ensures
        is_ascii_chars(decimal(n)),
        decimal(n).len() >= 1,
        forall|i: int| 0 <= i < decimal(n).len() ==> '0' <= #[trigger] decimal(n)[i] <= '9',
    decreases n,
{
    if n >= 10 {
        lemma_decimal_is_ascii(n / 10);
    }
}

/// The text of one decimal digit.
pub fn digit_str(d: u8) -> (r: &'static str)
    requires
        d < 10,
    ensures
        r@ == seq![digit_char(d as int)],
{
    proof {
        reveal_strlit("0");
        reveal_strlit("1");
        reveal_strlit("2");
        reveal_strlit("3");
        reveal_strlit("4");
        reveal_strlit("5");
        reveal_strlit("6");
        reveal_strlit("7");
        reveal_strlit("8");
        reveal_strlit("9");
    }
    let r = if d == 0 {
        "0"
    } else if d == 1 {
        "1"
    } else if d == 2 {
        "2"
    } else if d == 3 {
        "3"
    } else if d == 4 {
        "4"
    } else if d == 5 {
        "5"
    } else if d == 6 {
        "6"
    } else if d == 7 {
        "7"
    } else if d == 8 {
        "8"
    } else {
        "9"
    };
    assert(r@ =~= seq![digit_char(d as int)]);
    r
}

/// Appends the decimal digits of `n` to `out`.
pub fn push_decimal(out: &mut String, n: u128)
    ensures
        final(out)@ == old(out)@ + decimal(n as nat),
    decreases n,
{
    if n >= 10 {
        push_decimal(out, n / 10);
    }
    let d: u8 = (n % 10) as u8;
    out.append(digit_str(d));
    assert(out@ =~= old(out)@ + decimal(n as nat));
}

/// The digits of a number with its sign are ASCII, and there is at least
/// one character.
pub proof fn lemma_signed_decimal_is_ascii(n: int)
    ensures
        is_ascii_chars(signed_decimal(n)),
        signed_decimal(n).len() >= 1,
{
    if n < 0 {
        lemma_decimal_is_ascii((-n) as nat);
    } else {
        lemma_decimal_is_ascii(n as nat);
    }
}

/// Every character of the text is ASCII, so that the text has one byte for
/// each character.
#[verifier::opaque]
pub open spec fn is_plain(text: Seq<char>) -> bool {
    is_ascii_chars(text)
}

/// Appending ASCII text to ASCII text gives ASCII text.
pub proof fn lemma_plain_concat(a: Seq<char>, b: Seq<char>)
    requires
        is_plain(a),
        is_plain(b),
    ensures
        is_plain(a + b),
{
    reveal(is_plain);
}

/// The empty text is ASCII.
pub proof fn lemma_plain_empty()
    ensures
        is_plain(Seq::<char>::empty()),
{
    reveal(is_plain);
}

/// A number in decimal is ASCII text.
pub proof fn lemma_plain_number(n: int)
    ensures
        is_plain(signed_decimal(n)),
        n >= 0 ==> is_plain(decimal(n as nat)),
{
    reveal(is_plain);
    lemma_signed_decimal_is_ascii(n);
}

/// The length of a text in bytes.
#[verifier::opaque]
pub open spec fn byte_len(text: Seq<char>) -> nat {
    encode_utf8(text).len()
}

/// The bytes of a text in two parts are the bytes of the parts.
pub proof fn lemma_bytes_of_parts(a: Seq<char>, b: Seq<char>)
    ensures
        encode_utf8(a + b) == encode_utf8(a) + encode_utf8(b),
        byte_len(a + b) == byte_len(a) + byte_len(b),
    decreases a.len(),
{
    reveal(byte_len);
    if a.len() == 0 {
        assert(a + b =~= b);
        assert(encode_utf8(a) + encode_utf8(b) =~= encode_utf8(b));
    } else {
        lemma_bytes_of_parts(a.drop_first(), b);
        assert((a + b).drop_first() =~= a.drop_first() + b);
        assert((a + b)[0] == a[0]);
        assert(encode_utf8(a + b) =~= encode_utf8(a) + encode_utf8(b));
    }
}

/// An ASCII text has one byte for each character.
pub proof fn lemma_plain_byte_len(text: Seq<char>)
    requires
        is_plain(text),
    ensures
        byte_len(text) == text.len(),
{
    reveal(byte_len);
    reveal(is_plain);
    vstd::utf8::is_ascii_chars_encode_utf8(text);
}

/// The length of the text in bytes.
pub fn text_byte_len(text: &str) -> (n: usize)
    ensures
        n == byte_len(text@),
{
    proof {
        reveal(byte_len);
    }
    text.as_bytes().len()
}

/// Appends `n` in decimal to `out`, with a minus sign if it is negative.
pub fn push_signed(out: &mut String, n: i64)
    ensures
        final(out)@ == old(out)@ + signed_decimal(n as int),
{
    if n < 0 {
        proof {
            reveal_strlit("-");
        }
        out.append("-");
        let magnitude: u128 = (-(n as i128)) as u128;
        push_decimal(out, magnitude);
        assert(out@ =~= old(out)@ + signed_decimal(n as int));
    } else {
        push_decimal(out, n as u128);
    }
}

} // verus!
