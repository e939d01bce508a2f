//! Reading bytes of the input: white space, fixed texts and words.

use vstd::prelude::*;
use vstd::string::*;
use crate::error::{ParseError, ParseErrorKind};
use crate::expr::Expr;

verus! {

/// A byte of ASCII white space: space, tab, line feed, form feed or
/// carriage return.
pub open spec fn is_space(b: u8) -> bool {
    b == 0x20 || b == 0x09 || b == 0x0a || b == 0x0c || b == 0x0d
}

/// A decimal digit.
pub open spec fn is_digit(b: u8) -> bool {
    0x30 <= b <= 0x39
}

/// A byte that continues a word: an ASCII letter, a digit or an underscore.
pub open spec fn is_word_byte(b: u8) -> bool {
    is_digit(b) || (0x41 <= b <= 0x5a) || (0x61 <= b <= 0x7a) || b == 0x5f
}

/// The first position at or after `pos` that holds no white space.
pub open spec fn skip_spaces(s: Seq<u8>, pos: int) -> int
    decreases s.len() - pos,
{
    if 0 <= pos < s.len() && is_space(s[pos]) {
        skip_spaces(s, pos + 1)
    } else {
        pos
    }
}

/// The bytes of a text whose characters are all ASCII.
pub open spec fn text_bytes(text: Seq<char>) -> Seq<u8> {
    Seq::new(text.len(), |i: int| text[i] as u8)
}

/// Whether the bytes `lit` stand in `s` at `pos`.
pub open spec fn has_bytes_at(s: Seq<u8>, pos: int, lit: Seq<u8>) -> bool {
    &&& 0 <= pos
    &&& pos + lit.len() <= s.len()
    &&& s.subrange(pos, pos + lit.len()) == lit
}

/// Whether the text stands in `s` at `pos`.
pub open spec fn has_text_at(s: Seq<u8>, pos: int, text: Seq<char>) -> bool {
    has_bytes_at(s, pos, text_bytes(text))
}

/// Whether the bytes `lit` stand in `s` at `pos` as a word of their own:
/// the byte after them, if there is one, does not continue a word.
pub open spec fn has_word_bytes_at(s: Seq<u8>, pos: int, lit: Seq<u8>) -> bool {
    &&& has_bytes_at(s, pos, lit)
    &&& pos + lit.len() < s.len() ==> !is_word_byte(s[pos + lit.len()])
}

/// Whether the text stands in `s` at `pos` as a word of its own.
pub open spec fn has_word_at(s: Seq<u8>, pos: int, text: Seq<char>) -> bool {
    has_word_bytes_at(s, pos, text_bytes(text))
}

/// What is left of the input from `pos` on, counted in bytes.
pub open spec fn remaining(s: Seq<u8>, pos: int) -> nat {
    if pos <= s.len() {
        (s.len() - pos) as nat
    } else {
        0
    }
}

/// The error of the given kind at `pos`.
pub open spec fn fail(kind: ParseErrorKind, pos: int) -> ParseError {
    ParseError { kind, offset: pos as usize }
}

/// The result of reading from one position, counted from a position that
/// lies `by` bytes before it.
pub open spec fn shift(r: Result<(Expr, nat), ParseError>, by: int) -> Result<
    (Expr, nat),
    ParseError,
> {
    match r {
        Ok((e, n)) => Ok((e, (n + by) as nat)),
        Err(e) => Err(e),
    }
}

/// Skipping white space moves forward, stays inside the input, and stops
/// at a byte that is no white space.
pub proof fn lemma_skip_spaces(s: Seq<u8>, pos: int)
    ensures
        pos <= skip_spaces(s, pos),
        pos <= s.len() ==> skip_spaces(s, pos) <= s.len(),
        0 <= skip_spaces(s, pos) < s.len() ==> !is_space(s[skip_spaces(s, pos)]),
        skip_spaces(s, skip_spaces(s, pos)) == skip_spaces(s, pos),
    decreases s.len() - pos,
{
    if 0 <= pos < s.len() && is_space(s[pos]) {
        lemma_skip_spaces(s, pos + 1);
    }
}

/// The bytes of an ASCII text are its characters, one byte each.
pub proof fn lemma_ascii_bytes(text: &str)
    requires
        is_ascii(text),
    ensures
        text.spec_bytes() == text_bytes(text@),
{
    is_ascii_spec_bytes(text);
    assert(text.spec_bytes() =~= text_bytes(text@));
}

/// Whether the byte is ASCII white space.
pub fn is_ascii_space(b: u8) -> (r: bool)
    ensures
        r == is_space(b),
{
    b == 0x20 || b == 0x09 || b == 0x0a || b == 0x0c || b == 0x0d
}

/// Whether the byte is a decimal digit.
pub fn is_ascii_digit(b: u8) -> (r: bool)
    ensures
        r == is_digit(b),
{
    0x30 <= b && b <= 0x39
}

/// Whether the byte is an ASCII letter, a digit or an underscore.
pub fn is_ascii_word_byte(b: u8) -> (r: bool)
    ensures
        r == is_word_byte(b),
{
    (0x30 <= b && b <= 0x39) || (0x41 <= b && b <= 0x5a) || (0x61 <= b && b <= 0x7a) || b == 0x5f
}

/// A cursor over the bytes of the input.
pub struct Parser<'a> {
    pub input: &'a [u8],
    pub pos: usize,
}

impl<'a> Parser<'a> {
    /// The cursor stands inside the input or at its end.
    pub open spec fn wf(&self) -> bool {
        self.pos <= self.input@.len()
    }

    /// The cursor `after` reads the same input as `self` and stands `n`
    /// bytes further on.
    pub open spec fn advanced(&self, after: &Parser<'a>, n: int) -> bool {
        &&& after.input == self.input
        &&& after.pos == self.pos + n
        &&& after.wf()
    }

    /// The cursor `after` and the result `r` are what reading gives when
    /// `expected` says what stands at the cursor `self`: on success the tree
    /// and a cursor moved past the bytes read, on failure the error.
    pub open spec fn parsed_as(
        &self,
        after: &Parser<'a>,
        r: Result<Expr, ParseError>,
        expected: Result<(Expr, nat), ParseError>,
    ) -> bool {
        &&& after.input == self.input
        &&& after.wf()
        &&& match expected {
            Ok((e, n)) => r == Ok::<Expr, ParseError>(e) && after.pos == self.pos + n,
            Err(err) => r == Err::<Expr, ParseError>(err),
        }
    }

    /// A cursor at the start of the text.
    pub fn new(input: &'a str) -> (p: Parser<'a>)
        ensures
            p.input@ == input.spec_bytes(),
            p.pos == 0,
            p.wf(),
    {
        Parser { input: input.as_bytes(), pos: 0 }
    }

    /// The byte under the cursor, if the input has not ended.
    pub fn peek(&self) -> (r: Option<u8>)
        requires
            self.wf(),
        ensures
            r == if self.pos < self.input@.len() {
                Some(self.input@[self.pos as int])
            } else {
                None
            },
    {
        if self.pos < self.input.len() {
            Some(self.input[self.pos])
        } else {
            None
        }
    }

    /// Moves the cursor past any white space.
    pub fn skip_ws(&mut self)
        requires
            old(self).wf(),
        ensures
            final(self).input == old(self).input,
            final(self).pos == skip_spaces(old(self).input@, old(self).pos as int),
            final(self).wf(),
    {
        proof {
            lemma_skip_spaces(self.input@, self.pos as int);
        }
        while self.pos < self.input.len() && is_ascii_space(self.input[self.pos])
            invariant
                self.input == old(self).input,
                self.wf(),
                skip_spaces(self.input@, self.pos as int) == skip_spaces(
                    old(self).input@,
                    old(self).pos as int,
                ),
            decreases self.input@.len() - self.pos,
        {
            self.pos += 1;
        }
    }

    /// Moves the cursor past `byte` if it stands under the cursor, and
    /// says whether it did.
    pub fn consume(&mut self, byte: u8) -> (matched: bool)
        requires
            old(self).wf(),
        ensures
            matched == (old(self).pos < old(self).input@.len() && old(self).input@[old(
                self,
            ).pos as int] == byte),
            old(self).advanced(final(self), if matched { 1int } else { 0int }),
    {
        if self.pos < self.input.len() && self.input[self.pos] == byte {
            self.pos += 1;
            true
        } else {
            false
        }
    }

    /// Whether the bytes of `text` stand under the cursor.
    fn looking_at(&self, bytes: &[u8]) -> (r: bool)
        requires
            self.wf(),
        ensures
            r == has_bytes_at(self.input@, self.pos as int, bytes@),
    {
        if bytes.len() > self.input.len() - self.pos {
            return false;
        }
        let mut i: usize = 0;
        while i < bytes.len()
            invariant
                self.wf(),
                i <= bytes.len(),
                bytes.len() <= self.input.len() - self.pos,
                forall|k: int| 0 <= k < i ==> self.input@[self.pos + k] == bytes@[k],
            decreases bytes.len() - i,
        {
            if self.input[self.pos + i] != bytes[i] {
                assert(self.input@.subrange(self.pos as int, self.pos + bytes@.len())[i as int]
                    != bytes@[i as int]);
                return false;
            }
            i += 1;
        }
        assert(self.input@.subrange(self.pos as int, self.pos + bytes@.len()) =~= bytes@);
        true
    }

    /// Moves the cursor past `text` if its bytes stand under the cursor,
    /// and says whether it did.
    pub fn consume_bytes(&mut self, text: &str) -> (matched: bool)
        requires
            old(self).wf(),
        ensures
            matched == has_bytes_at(old(self).input@, old(self).pos as int, text.spec_bytes()),
            old(self).advanced(
                final(self),
                if matched {
                    text.spec_bytes().len() as int
                } else {
                    0int
                },
            ),
    {
        let bytes = text.as_bytes();
        let total: usize = self.input.len();
        if self.looking_at(bytes) {
            assert(self.pos + bytes@.len() <= total);
            self.pos += bytes.len();
            true
        } else {
            false
        }
    }

    /// Moves the cursor past `word` if it stands under the cursor as a word
    /// of its own, and says whether it did. A word followed at once by a
    /// letter, a digit or an underscore is part of a longer word and is left
    /// alone.
    pub fn consume_word(&mut self, word: &str) -> (matched: bool)
        requires
            old(self).wf(),
        ensures
            matched == has_word_bytes_at(old(self).input@, old(self).pos as int, word.spec_bytes()),
            old(self).advanced(
                final(self),
                if matched {
                    word.spec_bytes().len() as int
                } else {
                    0int
                },
            ),
    {
        let bytes = word.as_bytes();
        if !self.looking_at(bytes) {
            return false;
        }
        let total: usize = self.input.len();
        assert(self.pos + bytes@.len() <= total);
        let after: usize = self.pos + bytes.len();
        if after < total && is_ascii_word_byte(self.input[after]) {
            return false;
        }
        self.pos = after;
        true
    }

    /// The error of the given kind at the cursor.
    pub fn error_here(&self, kind: ParseErrorKind) -> (e: ParseError)
        requires
            self.wf(),
        ensures
            e == (ParseError { kind, offset: self.pos }),
    {
        ParseError { kind, offset: self.pos }
    }
}

} // verus!
