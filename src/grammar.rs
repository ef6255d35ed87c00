use vstd::prelude::*;
use vstd::utf8::{decode_utf8, length_of_first_scalar};
use crate::token::{Decimal, KindView, LexError, TokenView};

verus! {

/// The longest operator spelling, in bytes.
pub const MAX_OPERATOR_LEN: usize = 3;

/// Whether `c` has Unicode's White_Space property (`char::is_whitespace`).
pub uninterp spec fn is_whitespace_of(c: char) -> bool;

/// Whether `c` has Unicode's Alphabetic property (`char::is_alphabetic`).
pub uninterp spec fn is_alphabetic_of(c: char) -> bool;

/// Whether `c` is alphabetic or numeric in Unicode's sense
/// (`char::is_alphanumeric`).
pub uninterp spec fn is_alphanumeric_of(c: char) -> bool;

/// ASCII whitespace: space, tab, line feed, vertical tab, form feed, carriage
/// return.
pub open spec fn is_ascii_space(c: u8) -> bool {
    c == 0x20 || c == 0x09 || c == 0x0a || c == 0x0b || c == 0x0c || c == 0x0d
}

pub open spec fn is_digit(c: u8) -> bool {
    0x30 <= c <= 0x39
}

/// An ASCII byte that can start an identifier: a letter, `_` or `$`.
pub open spec fn is_ascii_ident_start(c: u8) -> bool {
    (0x61 <= c <= 0x7a) || (0x41 <= c <= 0x5a) || c == 0x5f || c == 0x24
}

/// The character whose encoding starts at byte `i`.
pub open spec fn char_at(b: Seq<u8>, i: int) -> char {
    decode_utf8(b.subrange(i, b.len() as int))[0]
}

/// The end of the character whose encoding starts at byte `i` (never past
/// the end of the input).
pub open spec fn char_end(b: Seq<u8>, i: int) -> int {
    let e = i + length_of_first_scalar(b.subrange(i, b.len() as int));
    if e <= b.len() {
        e
    } else {
        b.len() as int
    }
}

/// The character at `i` is whitespace: an ASCII one is judged by its byte,
/// any other by Unicode's White_Space property.
pub open spec fn space_at(b: Seq<u8>, i: int) -> bool {
    if b[i] < 0x80 {
        is_ascii_space(b[i])
    } else {
        is_whitespace_of(char_at(b, i))
    }
}

/// The character at `i` can start an identifier: an ASCII letter, `_` or
/// `$`, or a non-ASCII alphabetic character (no alphabetic character is
/// whitespace).
pub open spec fn ident_start_at(b: Seq<u8>, i: int) -> bool {
    if b[i] < 0x80 {
        is_ascii_ident_start(b[i])
    } else {
        is_alphabetic_of(char_at(b, i)) && !is_whitespace_of(char_at(b, i))
    }
}

/// The character at `i` can continue an identifier: one that can start it,
/// an ASCII digit, or a non-ASCII alphanumeric character.
pub open spec fn ident_part_at(b: Seq<u8>, i: int) -> bool {
    if b[i] < 0x80 {
        is_ascii_ident_start(b[i]) || is_digit(b[i])
    } else {
        is_alphanumeric_of(char_at(b, i)) && !is_whitespace_of(char_at(b, i))
    }
}

/// The end of the maximal run of ASCII digits that starts at `i`.
pub open spec fn digits_end(b: Seq<u8>, i: int) -> int
    decreases b.len() - i,
{
    if 0 <= i < b.len() && is_digit(b[i]) {
        digits_end(b, i + 1)
    } else {
        i
    }
}

/// The end of the maximal run of identifier characters that starts at `i`.
pub open spec fn ident_end(b: Seq<u8>, i: int) -> int
    decreases b.len() - i,
{
    if 0 <= i < b.len() && ident_part_at(b, i) {
        ident_end(b, char_end(b, i))
    } else {
        i
    }
}

/// Where the insignificant input (whitespace, `//` line comments and `/* */`
/// block comments) that starts at `i` ends, or the error for a block comment
/// that is never closed.
pub open spec fn trivia_end(b: Seq<u8>, i: int) -> Result<int, LexError>
    decreases b.len() - i, 0int,
{
    if !(0 <= i < b.len()) {
        Ok(i)
    } else if space_at(b, i) {
        trivia_end(b, char_end(b, i))
    } else if b[i] == 0x2f && i + 1 < b.len() && b[i + 1] == 0x2f {
        line_comment_end(b, i + 2)
    } else if b[i] == 0x2f && i + 1 < b.len() && b[i + 1] == 0x2a {
        block_comment_end(b, i, i + 2)
    } else {
        Ok(i)
    }
}

/// Inside a line comment at `i`: it runs up to the next newline.
pub open spec fn line_comment_end(b: Seq<u8>, i: int) -> Result<int, LexError>
    decreases b.len() - i, 1int,
{
    if 0 <= i < b.len() && b[i] != 0x0a {
        line_comment_end(b, i + 1)
    } else {
        trivia_end(b, i)
    }
}

/// Inside the block comment opened at `open`, at `i`: it runs through the
/// next `*/`.
pub open spec fn block_comment_end(b: Seq<u8>, open: int, i: int) -> Result<int, LexError>
    decreases b.len() - i, 1int,
{
    if 0 <= i && i + 1 < b.len() {
        if b[i] == 0x2a && b[i + 1] == 0x2f {
            trivia_end(b, i + 2)
        } else {
            block_comment_end(b, open, i + 1)
        }
    } else {
        Err(LexError::UnterminatedComment { start: open as usize, end: b.len() as usize })
    }
}

/// The value of a run of decimal digits.
pub open spec fn digits_value(d: Seq<u8>) -> int
    decreases d.len(),
{
    if d.len() == 0 {
        0
    } else {
        digits_value(d.drop_last()) * 10 + (d.last() - 0x30)
    }
}

/// The numeric literal that starts with the digit at `p`, and where it ends.
///
/// Its grammar: digits, then optionally `.` and at least one digit, then
/// optionally `e` or `E`, an optional sign and at least one digit; it may not
/// be followed by an identifier character. A literal always starts with a
/// digit: `.5` is no number (its `.` is an unrecognized character), and `1.`
/// is malformed. A `.` with no digit after it,
/// an exponent without digits, or a trailing identifier character is a
/// malformed number, whose span runs over the identifier characters that
/// follow the point of failure. A literal whose value `decimal_of` cannot
/// represent is malformed too.
pub open spec fn number_at(b: Seq<u8>, p: int) -> Result<(Decimal, int), LexError> {
    let ie = digits_end(b, p);
    let has_dot = ie < b.len() && b[ie] == 0x2e;
    let fs = if has_dot { ie + 1 } else { ie };
    let fe = digits_end(b, fs);
    let has_exp = fe < b.len() && (b[fe] == 0x65 || b[fe] == 0x45);
    let signed = has_exp && fe + 1 < b.len() && (b[fe + 1] == 0x2b || b[fe + 1] == 0x2d);
    let neg = signed && b[fe + 1] == 0x2d;
    let es = if !has_exp { fe } else if signed { fe + 2 } else { fe + 1 };
    let ee = digits_end(b, es);
    if has_dot && fe == fs {
        Err(LexError::MalformedNumber {
            start: p as usize,
            end: ident_end(b, fs) as usize,
        })
    } else if has_exp && ee == es {
        Err(LexError::MalformedNumber {
            start: p as usize,
            end: ident_end(b, es) as usize,
        })
    } else if ee < b.len() && ident_part_at(b, ee) {
        Err(LexError::MalformedNumber {
            start: p as usize,
            end: ident_end(b, ee) as usize,
        })
    } else {
        match decimal_of(b, p, ie, fs, fe, es, ee, neg) {
            Some(d) => Ok((d, ee)),
            None => Err(LexError::MalformedNumber { start: p as usize, end: ee as usize }),
        }
    }
}

/// The number of `0` digits that end `d`.
pub open spec fn trailing_zeros(d: Seq<u8>) -> int
    decreases d.len(),
{
    if d.len() > 0 && d.last() == 0x30 {
        trailing_zeros(d.drop_last()) + 1
    } else {
        0
    }
}

/// The digits `d` without the `0` digits that end them.
pub open spec fn without_trailing_zeros(d: Seq<u8>) -> Seq<u8> {
    d.subrange(0, d.len() - trailing_zeros(d))
}

/// The value of a numeric literal with integer digits `b[p..ie]`, fractional
/// digits `b[fs..fe]` and exponent digits `b[es..ee]` (negative when `neg`),
/// in normal form, if it is representable.
///
/// The normal form moves the zeros that end the digits into the exponent, so
/// that a mantissa other than zero does not end in a zero digit: `1.50`,
/// `1.5` and `15e-1` all give mantissa 15 and exponent -1. Zero is always
/// mantissa 0 and exponent 0. The value is representable when that mantissa
/// fits a `u64` and, for a mantissa other than zero, that exponent fits an
/// `i32`.
pub open spec fn decimal_of(
    b: Seq<u8>,
    p: int,
    ie: int,
    fs: int,
    fe: int,
    es: int,
    ee: int,
    neg: bool,
) -> Option<Decimal> {
    let d = b.subrange(p, ie) + b.subrange(fs, fe);
    let m = digits_value(without_trailing_zeros(d));
    let x = digits_value(b.subrange(es, ee));
    let e = (if neg { -x } else { x }) - (fe - fs) + trailing_zeros(d);
    if m == 0 {
        Some(Decimal { mantissa: 0, exponent: 0 })
    } else if m <= u64::MAX && i32::MIN <= e <= i32::MAX {
        Some(Decimal { mantissa: m as u64, exponent: e as i32 })
    } else {
        None
    }
}

/// The kind of an identifier-shaped word: a keyword when it spells one
/// exactly (`let`, `const`), else an identifier named by the characters it encodes.
pub open spec fn word_kind(w: Seq<u8>) -> KindView {
    if w.len() == 3 && w[0] == 0x6c && w[1] == 0x65 && w[2] == 0x74 {
        KindView::Let
    } else if w.len() == 5 && w[0] == 0x63 && w[1] == 0x6f && w[2] == 0x6e && w[3] == 0x73 && w[4]
        == 0x74 {
        KindView::Const
    } else {
        KindView::Identifier(decode_utf8(w))
    }
}

/// The operator table: `===`, `==`, `=`, `+` and `;`.
pub open spec fn operator_kind(w: Seq<u8>) -> Option<KindView> {
    if w.len() == 3 && w[0] == 0x3d && w[1] == 0x3d && w[2] == 0x3d {
        Some(KindView::StrictEquals)
    } else if w.len() == 2 && w[0] == 0x3d && w[1] == 0x3d {
        Some(KindView::EqualsEquals)
    } else if w.len() == 1 && w[0] == 0x3d {
        Some(KindView::Equals)
    } else if w.len() == 1 && w[0] == 0x2b {
        Some(KindView::Plus)
    } else if w.len() == 1 && w[0] == 0x3b {
        Some(KindView::Semicolon)
    } else {
        None
    }
}

/// The longest operator of at most `l` bytes at `p`, with its length.
pub open spec fn longest_operator(b: Seq<u8>, p: int, l: int) -> Option<(KindView, int)>
    decreases l,
{
    if l <= 0 {
        None
    } else if p + l <= b.len() && operator_kind(b.subrange(p, p + l)) is Some {
        Some((operator_kind(b.subrange(p, p + l))->0, l))
    } else {
        longest_operator(b, p, l - 1)
    }
}

/// The lexeme that starts at `p` (a position that is not insignificant input):
/// its kind and its end, or the error it raises.
pub open spec fn lexeme_at(b: Seq<u8>, p: int) -> Result<(KindView, int), LexError> {
    if is_digit(b[p]) {
        match number_at(b, p) {
            Ok((d, e)) => Ok((KindView::Number(d), e)),
            Err(x) => Err(x),
        }
    } else if ident_start_at(b, p) {
        let e = ident_end(b, char_end(b, p));
        Ok((word_kind(b.subrange(p, e)), e))
    } else {
        match longest_operator(b, p, MAX_OPERATOR_LEN as int) {
            Some((k, l)) => Ok((k, p + l)),
            None => Err(
                LexError::UnrecognizedCharacter {
                    start: p as usize,
                    end: char_end(b, p) as usize,
                },
            ),
        }
    }
}

/// One call of the scanner with its cursor at `pos`: what it returns, and
/// where the cursor is afterwards. Insignificant input is skipped first; at
/// the end of input the result is `Eof` with an empty span and the cursor
/// stays; on an error the cursor rests at the start of the offending input.
pub open spec fn step(b: Seq<u8>, pos: int) -> (Result<TokenView, LexError>, int) {
    match trivia_end(b, pos) {
        Err(x) => (Err(x), x.spec_start()),
        Ok(p) => if p >= b.len() {
            (Ok(TokenView { kind: KindView::Eof, start: p, end: p }), p)
        } else {
            match lexeme_at(b, p) {
                Ok((k, e)) => (Ok(TokenView { kind: k, start: p, end: e }), e),
                Err(x) => (Err(x), p),
            }
        },
    }
}

/// The tokens of a whole run of the scanner from `pos`, through `Eof`, or
/// the first error. (The run also stops where a call would not move the
/// cursor forward; `lemma_step_advances` shows that no token but `Eof` does
/// that.)
pub open spec fn tokens_from(b: Seq<u8>, pos: int) -> Result<Seq<TokenView>, LexError>
    decreases b.len() - pos,
{
    let (r, next) = step(b, pos);
    match r {
        Err(x) => Err(x),
        Ok(t) => if t.kind is Eof || !(pos < next <= b.len()) {
            Ok(seq![t])
        } else {
            match tokens_from(b, next) {
                Ok(rest) => Ok(seq![t] + rest),
                Err(x) => Err(x),
            }
        },
    }
}

/// The bytes from `i` on that are neither whitespace nor inside a comment.
pub open spec fn significant(b: Seq<u8>, i: int) -> Seq<u8>
    decreases b.len() - i, 0int,
{
    if !(0 <= i < b.len()) {
        seq![]
    } else if space_at(b, i) {
        significant(b, char_end(b, i))
    } else if b[i] == 0x2f && i + 1 < b.len() && b[i + 1] == 0x2f {
        significant_after_line(b, i + 2)
    } else if b[i] == 0x2f && i + 1 < b.len() && b[i + 1] == 0x2a {
        significant_after_block(b, i + 2)
    } else {
        b.subrange(i, char_end(b, i)) + significant(b, char_end(b, i))
    }
}

pub open spec fn significant_after_line(b: Seq<u8>, i: int) -> Seq<u8>
    decreases b.len() - i, 1int,
{
    if 0 <= i < b.len() && b[i] != 0x0a {
        significant_after_line(b, i + 1)
    } else {
        significant(b, i)
    }
}

pub open spec fn significant_after_block(b: Seq<u8>, i: int) -> Seq<u8>
    decreases b.len() - i, 1int,
{
    if 0 <= i && i + 1 < b.len() {
        if b[i] == 0x2a && b[i + 1] == 0x2f {
            significant(b, i + 2)
        } else {
            significant_after_block(b, i + 1)
        }
    } else {
        seq![]
    }
}

/// The source bytes that the given tokens' spans cover, one after another.
pub open spec fn joined_spans(b: Seq<u8>, ts: Seq<TokenView>) -> Seq<u8>
    decreases ts.len(),
{
    if ts.len() == 0 {
        seq![]
    } else {
        b.subrange(ts[0].start, ts[0].end) + joined_spans(b, ts.drop_first())
    }
}

} // verus!
