use vstd::prelude::*;
use vstd::utf8::*;
use vstd::string::*;
use crate::grammar::{
    block_comment_end, char_at, char_end, decimal_of, digits_end, digits_value, ident_end, trailing_zeros, without_trailing_zeros,
    ident_part_at, ident_start_at, is_alphabetic_of, is_alphanumeric_of, is_ascii_ident_start,
    is_digit, is_whitespace_of, lexeme_at, line_comment_end, longest_operator, number_at,
    operator_kind, space_at, step, tokens_from, trivia_end, word_kind, MAX_OPERATOR_LEN,
};
use crate::laws::lemma_step_advances;
use crate::token::{Decimal, Kind, KindView, LexError, Token, TokenView};

verus! {

/// Relies on `char::is_whitespace`: whether `c` has the White_Space
/// property.
#[verifier::external_body]
fn char_is_whitespace(c: char) -> (r: bool)
    ensures
        r == is_whitespace_of(c),
{
    c.is_whitespace()
}

/// Relies on `char::is_alphabetic`: whether `c` has the Alphabetic property.
#[verifier::external_body]
fn char_is_alphabetic(c: char) -> (r: bool)
    ensures
        r == is_alphabetic_of(c),
{
    c.is_alphabetic()
}

/// Relies on `char::is_alphanumeric`: whether `c` is alphabetic or numeric.
#[verifier::external_body]
fn char_is_alphanumeric(c: char) -> (r: bool)
    ensures
        r == is_alphanumeric_of(c),
{
    c.is_alphanumeric()
}

/// The end of the input is a character boundary.
proof fn lemma_end_boundary(b: Seq<u8>)
    requires
        valid_utf8(b),
    ensures
        is_char_boundary(b, b.len() as int),
    decreases b.len(),
{
    if b.len() > 0 {
        lemma_end_boundary(pop_first_scalar(b));
    }
}

/// From a character boundary, the next character ends within the input, at
/// a boundary.
proof fn lemma_char_step(b: Seq<u8>, i: int)
    requires
        valid_utf8(b),
        is_char_boundary(b, i),
        0 <= i < b.len(),
    ensures
        i + length_of_first_scalar(b.subrange(i, b.len() as int)) <= b.len(),
        char_end(b, i) == i + length_of_first_scalar(b.subrange(i, b.len() as int)),
        is_char_boundary(b, char_end(b, i)),
    decreases b.len(),
{
    let t = pop_first_scalar(b);
    let l = length_of_first_scalar(b);
    assert(valid_first_scalar(b) && valid_utf8(t));
    reveal_with_fuel(is_char_boundary, 2);
    if i == 0 {
        assert(b.subrange(0, b.len() as int) =~= b);
        assert(is_char_boundary(t, 0));
    } else {
        assert(t.subrange(i - l, t.len() as int) =~= b.subrange(i, b.len() as int));
        lemma_char_step(t, i - l);
    }
}

/// A boundary `e` of the input is, counted from the boundary `p`, a boundary
/// of the input that starts at `p`.
proof fn lemma_boundary_shift(b: Seq<u8>, p: int, e: int)
    requires
        valid_utf8(b),
        is_char_boundary(b, p),
        is_char_boundary(b, e),
        p <= e,
    ensures
        valid_utf8(b.subrange(p, b.len() as int)),
        is_char_boundary(b.subrange(p, b.len() as int), e - p),
    decreases b.len(),
{
    if p == 0 {
        assert(b.subrange(0, b.len() as int) =~= b);
    } else {
        let t = pop_first_scalar(b);
        let l = length_of_first_scalar(b);
        assert(valid_first_scalar(b) && valid_utf8(t));
        reveal_with_fuel(is_char_boundary, 2);
        assert(t.subrange(p - l, t.len() as int) =~= b.subrange(p, b.len() as int));
        lemma_boundary_shift(t, p - l, e - l);
    }
}

/// In valid UTF-8 an ASCII byte starts a character, and the next byte does
/// too.
proof fn lemma_ascii_boundary(b: Seq<u8>, i: int)
    requires
        valid_utf8(b),
        0 <= i < b.len(),
        b[i] < 0x80,
    ensures
        is_char_boundary(b, i),
        is_char_boundary(b, i + 1),
        char_end(b, i) == i + 1,
    decreases b.len(),
{
    let t = pop_first_scalar(b);
    let l = length_of_first_scalar(b);
    assert(b.subrange(i, b.len() as int)[0] == b[i]);
    if i == 0 {
        assert(is_char_boundary(t, 0));
    } else {
        assert(l <= i);
        assert(t[i - l] == b[i]);
        lemma_ascii_boundary(t, i - l);
    }
}

/// The character whose encoding starts at the boundary `i`.
fn char_at_exec(source: &str, i: usize) -> (c: char)
    requires
        is_char_boundary(source.spec_bytes(), i as int),
        i < source.spec_bytes().len(),
    ensures
        c == char_at(source.spec_bytes(), i as int),
{
    let ghost b = source.spec_bytes();
    proof {
        encode_utf8_valid_utf8(source@);
    }
    let (_, rest) = source.split_at(i);
    proof {
        encode_utf8_decode_utf8(rest@);
        assert(rest.spec_bytes() =~= b.subrange(i as int, b.len() as int));
        if rest@.len() == 0 {
            assert(encode_utf8(rest@) =~= Seq::<u8>::empty());
        }
    }
    rest.get_char(0)
}

/// Where the character that starts at `i` ends.
fn char_end_exec(b: &[u8], i: usize) -> (r: usize)
    requires
        i < b@.len(),
    ensures
        r == char_end(b@, i as int),
{
    let c = b[i];
    assert(b@.subrange(i as int, b@.len() as int)[0] == c);
    let w: usize = if c <= 0x7f {
        1
    } else if 0xc0 <= c && c <= 0xdf {
        2
    } else if 0xe0 <= c && c <= 0xef {
        3
    } else {
        4
    };
    if w <= b.len() - i {
        i + w
    } else {
        b.len()
    }
}

/// The facts about the source that every position in the scanner relies on.
pub open spec fn source_facts(source: &str, b: Seq<u8>) -> bool {
    b == source.spec_bytes() && valid_utf8(b)
}

/// Whether the character at the boundary `i` is whitespace.
fn space_at_exec(source: &str, b: &[u8], i: usize) -> (r: bool)
    requires
        source_facts(source, b@),
        i < b@.len(),
        is_char_boundary(b@, i as int),
    ensures
        r == space_at(b@, i as int),
{
    let c = b[i];
    if c < 0x80 {
        c == 0x20 || c == 0x09 || c == 0x0a || c == 0x0b || c == 0x0c || c == 0x0d
    } else {
        char_is_whitespace(char_at_exec(source, i))
    }
}

fn is_ascii_ident_start_exec(c: u8) -> (r: bool)
    ensures
        r == is_ascii_ident_start(c),
{
    (0x61 <= c && c <= 0x7a) || (0x41 <= c && c <= 0x5a) || c == 0x5f || c == 0x24
}

/// Whether the character at the boundary `i` can start an identifier.
fn ident_start_at_exec(source: &str, b: &[u8], i: usize) -> (r: bool)
    requires
        source_facts(source, b@),
        i < b@.len(),
        is_char_boundary(b@, i as int),
    ensures
        r == ident_start_at(b@, i as int),
{
    let c = b[i];
    if c < 0x80 {
        is_ascii_ident_start_exec(c)
    } else {
        let ch = char_at_exec(source, i);
        char_is_alphabetic(ch) && !char_is_whitespace(ch)
    }
}

/// Whether the character at the boundary `i` can continue an identifier.
fn ident_part_at_exec(source: &str, b: &[u8], i: usize) -> (r: bool)
    requires
        source_facts(source, b@),
        i < b@.len(),
        is_char_boundary(b@, i as int),
    ensures
        r == ident_part_at(b@, i as int),
{
    let c = b[i];
    if c < 0x80 {
        is_ascii_ident_start_exec(c) || (0x30 <= c && c <= 0x39)
    } else {
        let ch = char_at_exec(source, i);
        char_is_alphanumeric(ch) && !char_is_whitespace(ch)
    }
}

/// Skips the maximal run of ASCII digits from `i`.
fn skip_digits(b: &[u8], i: usize) -> (r: usize)
    requires
        i <= b@.len(),
    ensures
        r == digits_end(b@, i as int),
        i <= r <= b@.len(),
        forall|j: int| i <= j < r ==> is_digit(#[trigger] b@[j]),
        r < b@.len() ==> !is_digit(b@[r as int]),
{
    let mut j = i;
    while j < b.len() && 0x30 <= b[j] && b[j] <= 0x39
        invariant
            i <= j <= b@.len(),
            digits_end(b@, i as int) == digits_end(b@, j as int),
            forall|m: int| i <= m < j ==> is_digit(#[trigger] b@[m]),
        decreases b@.len() - j,
    {
        j = j + 1;
    }
    j
}

/// Skips the maximal run of identifier characters from the boundary `i`.
fn skip_ident(source: &str, b: &[u8], i: usize) -> (r: usize)
    requires
        source_facts(source, b@),
        i <= b@.len(),
        is_char_boundary(b@, i as int),
    ensures
        r == ident_end(b@, i as int),
        i <= r <= b@.len(),
        is_char_boundary(b@, r as int),
{
    let mut j = i;
    while j < b.len() && ident_part_at_exec(source, b, j)
        invariant
            source_facts(source, b@),
            i <= j <= b@.len(),
            is_char_boundary(b@, j as int),
            ident_end(b@, i as int) == ident_end(b@, j as int),
        decreases b@.len() - j,
    {
        proof {
            lemma_char_step(b@, j as int);
        }
        j = char_end_exec(b, j);
    }
    j
}

/// Skips whitespace and comments from the boundary `start`.
fn skip_trivia(source: &str, b: &[u8], start: usize) -> (r: Result<usize, LexError>)
    requires
        source_facts(source, b@),
        start <= b@.len(),
        is_char_boundary(b@, start as int),
    ensures
        match r {
            Ok(p) => trivia_end(b@, start as int) == Ok::<int, LexError>(p as int) && start <= p
                <= b@.len() && is_char_boundary(b@, p as int),
            Err(x) => trivia_end(b@, start as int) == Err::<int, LexError>(x) && x.spec_start()
                < b@.len() && is_char_boundary(b@, x.spec_start()),
        },
{
    let n = b.len();
    let mut i = start;
    loop
        invariant
            source_facts(source, b@),
            start <= i <= n,
            n == b@.len(),
            is_char_boundary(b@, i as int),
            trivia_end(b@, start as int) == trivia_end(b@, i as int),
        decreases n - i,
    {
        if i >= n {
            return Ok(i);
        }
        let c = b[i];
        if space_at_exec(source, b, i) {
            proof {
                lemma_char_step(b@, i as int);
            }
            i = char_end_exec(b, i);
        } else if c == 0x2f && i + 1 < n && b[i + 1] == 0x2f {
            let at = i;
            i = i + 2;
            while i < n && b[i] != 0x0a
                invariant
                    at < i <= n,
                    start <= at,
                    n == b@.len(),
                    trivia_end(b@, start as int) == line_comment_end(b@, i as int),
                decreases n - i,
            {
                i = i + 1;
            }
            proof {
                if i < n {
                    lemma_ascii_boundary(b@, i as int);
                } else {
                    lemma_end_boundary(b@);
                }
            }
        } else if c == 0x2f && i + 1 < n && b[i + 1] == 0x2a {
            let open = i;
            proof {
                lemma_ascii_boundary(b@, open as int);
            }
            i = i + 2;
            while n - i > 1 && !(b[i] == 0x2a && b[i + 1] == 0x2f)
                invariant
                    start <= open,
                    open + 2 <= i <= n,
                    n == b@.len(),
                    trivia_end(b@, start as int) == block_comment_end(b@, open as int, i as int),
                decreases n - i,
            {
                i = i + 1;
            }
            if n - i <= 1 {
                return Err(LexError::UnterminatedComment { start: open, end: n });
            }
            proof {
                lemma_ascii_boundary(b@, i + 1);
            }
            i = i + 2;
        } else {
            return Ok(i);
        }
    }
}

pub open spec fn value_is(acc: Option<u128>, d: Seq<u8>) -> bool {
    match acc {
        Some(v) => v == digits_value(d),
        None => digits_value(d) > u128::MAX,
    }
}

pub(crate) proof fn lemma_digits_value_nonneg(d: Seq<u8>)
    requires
        forall|j: int| 0 <= j < d.len() ==> is_digit(#[trigger] d[j]),
    ensures
        digits_value(d) >= 0,
    decreases d.len(),
{
    if d.len() > 0 {
        lemma_digits_value_nonneg(d.drop_last());
    }
}

/// Extends the value `acc` of the digits `prefix` by the digits `b[from..to]`.
fn accumulate(b: &[u8], from: usize, to: usize, acc: Option<u128>, Ghost(prefix): Ghost<Seq<u8>>) -> (r:
    Option<u128>)
    requires
        from <= to <= b@.len(),
        forall|j: int| from <= j < to ==> is_digit(#[trigger] b@[j]),
        forall|j: int| 0 <= j < prefix.len() ==> is_digit(#[trigger] prefix[j]),
        value_is(acc, prefix),
    ensures
        value_is(r, prefix + b@.subrange(from as int, to as int)),
{
    let mut acc = acc;
    let mut i = from;
    assert(prefix + b@.subrange(from as int, from as int) =~= prefix);
    while i < to
        invariant
            from <= i <= to <= b@.len(),
            forall|j: int| from <= j < to ==> is_digit(#[trigger] b@[j]),
            forall|j: int| 0 <= j < prefix.len() ==> is_digit(#[trigger] prefix[j]),
            value_is(acc, prefix + b@.subrange(from as int, i as int)),
        decreases to - i,
    {
        let ghost before = prefix + b@.subrange(from as int, i as int);
        let ghost after = prefix + b@.subrange(from as int, i + 1);
        proof {
            assert(after.drop_last() =~= before);
            assert(after.last() == b@[i as int]);
            lemma_digits_value_nonneg(before);
        }
        let d = (b[i] - 0x30) as u128;
        acc = match acc {
            Some(v) => match v.checked_mul(10) {
                Some(t) => t.checked_add(d),
                None => None,
            },
            None => None,
        };
        i = i + 1;
    }
    acc
}

/// Above this bound an exponent's digits give an exponent outside `i32`
/// whatever the fractional digits take from it.
const EXPONENT_CAP: u128 = 0x1_0000_0000_0000_0000_0000_0000;

/// Reads the numeric literal that starts with the digit at `p`.
#[verifier::rlimit(40)]
fn read_number(source: &str, b: &[u8], p: usize) -> (r: Result<(Decimal, usize), LexError>)
    requires
        source_facts(source, b@),
        is_char_boundary(b@, p as int),
        p < b@.len(),
        is_digit(b@[p as int]),
    ensures
        match r {
            Ok((d, e)) => number_at(b@, p as int) == Ok::<(Decimal, int), LexError>((d, e as int))
                && e <= b@.len() && is_char_boundary(b@, e as int),
            Err(x) => number_at(b@, p as int) == Err::<(Decimal, int), LexError>(x),
        },
{
    let n = b.len();
    let ie = skip_digits(b, p);
    let has_dot = ie < n && b[ie] == 0x2e;
    let fs = if has_dot {
        ie + 1
    } else {
        ie
    };
    proof {
        lemma_ascii_boundary(b@, fs - 1);
    }
    let fe = skip_digits(b, fs);
    if has_dot && fe == fs {
        return Err(
            LexError::MalformedNumber { start: p, end: skip_ident(source, b, fs) },
        );
    }
    let has_exp = fe < n && (b[fe] == 0x65 || b[fe] == 0x45);
    let signed = has_exp && fe + 1 < n && (b[fe + 1] == 0x2b || b[fe + 1] == 0x2d);
    let neg = signed && b[fe + 1] == 0x2d;
    let es = if !has_exp {
        fe
    } else if signed {
        fe + 2
    } else {
        fe + 1
    };
    proof {
        if es > fe {
            lemma_ascii_boundary(b@, es - 1);
        }
    }
    let ee = skip_digits(b, es);
    proof {
        if ee > es {
            lemma_ascii_boundary(b@, ee - 1);
        }
    }
    if has_exp && ee == es {
        return Err(
            LexError::MalformedNumber { start: p, end: skip_ident(source, b, es) },
        );
    }
    proof {
        if ee > es {
            lemma_ascii_boundary(b@, ee - 1);
        } else if fe > fs {
            lemma_ascii_boundary(b@, fe - 1);
        } else {
            lemma_ascii_boundary(b@, ie - 1);
        }
    }
    if ee < n && ident_part_at_exec(source, b, ee) {
        return Err(
            LexError::MalformedNumber { start: p, end: skip_ident(source, b, ee) },
        );
    }
    match decode(b, p, ie, fs, fe, es, ee, neg) {
        Some(d) => Ok((d, ee)),
        None => Err(LexError::MalformedNumber { start: p, end: ee }),
    }
}

/// `s` ends in exactly `s.len() - k` zero digits.
proof fn lemma_trailing_zeros(s: Seq<u8>, k: int)
    requires
        0 <= k <= s.len(),
        forall|j: int| k <= j < s.len() ==> #[trigger] s[j] == 0x30,
        k == 0 || s[k - 1] != 0x30,
    ensures
        trailing_zeros(s) == s.len() - k,
    decreases s.len() - k,
{
    if s.len() > k {
        assert(s.drop_last().len() == s.len() - 1);
        assert forall|j: int| k <= j < s.drop_last().len() implies #[trigger] s.drop_last()[j]
            == 0x30 by {
            assert(s.drop_last()[j] == s[j]);
        }
        if k > 0 {
            assert(s.drop_last()[k - 1] == s[k - 1]);
        }
        lemma_trailing_zeros(s.drop_last(), k);
    }
}

/// The value of the digits `b[p..ie] + b[fs..fe]` without the zeros that end
/// them, and how many zeros that is.
fn significant_digits(b: &[u8], p: usize, ie: usize, fs: usize, fe: usize) -> (r: (
    Option<u128>,
    usize,
))
    requires
        p <= ie <= fs <= fe <= b@.len(),
        forall|j: int| p <= j < ie ==> is_digit(#[trigger] b@[j]),
        forall|j: int| fs <= j < fe ==> is_digit(#[trigger] b@[j]),
    ensures
        value_is(
            r.0,
            without_trailing_zeros(
                b@.subrange(p as int, ie as int) + b@.subrange(fs as int, fe as int),
            ),
        ),
        r.1 == trailing_zeros(b@.subrange(p as int, ie as int) + b@.subrange(fs as int, fe as int)),
{
    let ghost a = b@.subrange(p as int, ie as int);
    let ghost d = a + b@.subrange(fs as int, fe as int);
    let mut k = fe;
    while k > fs && b[k - 1] == 0x30
        invariant
            fs <= k <= fe <= b@.len(),
            forall|j: int| k <= j < fe ==> #[trigger] b@[j] == 0x30,
        decreases k,
    {
        k = k - 1;
    }
    proof {
        assert(Seq::<u8>::empty() + a =~= a);
    }
    if k > fs {
        proof {
            let c = (ie - p) + (k - fs);
            assert forall|j: int| c <= j < d.len() implies #[trigger] d[j] == 0x30 by {
                assert(d[j] == b@[j - (ie - p) + fs]);
            }
            assert(d[c - 1] == b@[k - 1]);
            lemma_trailing_zeros(d, c);
            assert(without_trailing_zeros(d) =~= a + b@.subrange(fs as int, k as int));
        }
        let m = accumulate(b, p, ie, Some(0), Ghost(Seq::empty()));
        let m = accumulate(b, fs, k, m, Ghost(a));
        (m, fe - k)
    } else {
        let mut j = ie;
        while j > p && b[j - 1] == 0x30
            invariant
                p <= j <= ie,
                ie <= b@.len(),
                forall|i: int| j <= i < ie ==> #[trigger] b@[i] == 0x30,
            decreases j,
        {
            j = j - 1;
        }
        proof {
            let c = j - p;
            assert forall|i: int| c <= i < d.len() implies #[trigger] d[i] == 0x30 by {
                if i < ie - p {
                    assert(d[i] == b@[i + p]);
                } else {
                    assert(d[i] == b@[i - (ie - p) + fs]);
                }
            }
            if c > 0 {
                assert(d[c - 1] == b@[j - 1]);
            }
            lemma_trailing_zeros(d, c);
            assert(without_trailing_zeros(d) =~= Seq::<u8>::empty() + b@.subrange(
                p as int,
                j as int,
            ));
        }
        let m = accumulate(b, p, j, Some(0), Ghost(Seq::empty()));
        (m, (fe - fs) + (ie - j))
    }
}

/// Decodes the value of a numeric literal from its digit runs.
fn decode(b: &[u8], p: usize, ie: usize, fs: usize, fe: usize, es: usize, ee: usize, neg: bool) -> (r:
    Option<Decimal>)
    requires
        p <= ie <= fs <= fe <= es <= ee <= b@.len(),
        forall|j: int| p <= j < ie ==> is_digit(#[trigger] b@[j]),
        forall|j: int| fs <= j < fe ==> is_digit(#[trigger] b@[j]),
        forall|j: int| es <= j < ee ==> is_digit(#[trigger] b@[j]),
    ensures
        r == decimal_of(b@, p as int, ie as int, fs as int, fe as int, es as int, ee as int, neg),
{
    proof {
        assert(Seq::<u8>::empty() + b@.subrange(es as int, ee as int) =~= b@.subrange(
            es as int,
            ee as int,
        ));
    }
    let (m, z) = significant_digits(b, p, ie, fs, fe);
    if let Some(m) = m {
        if m == 0 {
            return Some(Decimal { mantissa: 0, exponent: 0 });
        }
    }
    let x = accumulate(b, es, ee, Some(0), Ghost(Seq::empty()));
    match (m, x) {
        (Some(m), Some(x)) => {
            if m > u64::MAX as u128 || x > EXPONENT_CAP {
                return None;
            }
            let signed_x: i128 = if neg {
                -(x as i128)
            } else {
                x as i128
            };
            let e: i128 = signed_x - ((fe - fs) as i128) + (z as i128);
            if e < i32::MIN as i128 || e > i32::MAX as i128 {
                return None;
            }
            Some(Decimal { mantissa: m as u64, exponent: e as i32 })
        },
        _ => None,
    }
}

/// The identifier whose encoding is `source[p..e]`, as a `String`.
fn identifier_name(source: &str, p: usize, e: usize) -> (r: String)
    requires
        p <= e <= source.spec_bytes().len(),
        is_char_boundary(source.spec_bytes(), p as int),
        is_char_boundary(source.spec_bytes(), e as int),
    ensures
        r@ == decode_utf8(source.spec_bytes().subrange(p as int, e as int)),
{
    let ghost b = source.spec_bytes();
    proof {
        encode_utf8_valid_utf8(source@);
        lemma_boundary_shift(b, p as int, e as int);
    }
    let (_, rest) = source.split_at(p);
    proof {
        assert(rest.spec_bytes() =~= b.subrange(p as int, b.len() as int));
    }
    let (word, _) = rest.split_at(e - p);
    proof {
        encode_utf8_decode_utf8(word@);
        assert(word.spec_bytes() =~= b.subrange(p as int, e as int));
    }
    word.to_owned()
}

/// The kind of the identifier-shaped word `source[p..e]`.
fn word(source: &str, b: &[u8], p: usize, e: usize) -> (r: Kind)
    requires
        b@ == source.spec_bytes(),
        p < e <= b@.len(),
        is_char_boundary(b@, p as int),
        is_char_boundary(b@, e as int),
    ensures
        r@ == word_kind(b@.subrange(p as int, e as int)),
{
    if e - p == 3 && b[p] == 0x6c && b[p + 1] == 0x65 && b[p + 2] == 0x74 {
        Kind::Let
    } else if e - p == 5 && b[p] == 0x63 && b[p + 1] == 0x6f && b[p + 2] == 0x6e && b[p + 3] == 0x73
        && b[p + 4] == 0x74 {
        Kind::Const
    } else {
        Kind::Identifier(identifier_name(source, p, e))
    }
}

pub open spec fn option_kind_view(k: Option<Kind>) -> Option<KindView> {
    match k {
        Some(k) => Some(k@),
        None => None,
    }
}

/// The operator spelt exactly by `b[p..p + l]`, if any.
fn operator(b: &[u8], p: usize, l: usize) -> (r: Option<Kind>)
    requires
        p + l <= b@.len(),
    ensures
        option_kind_view(r) == operator_kind(b@.subrange(p as int, p + l)),
        r is Some ==> l >= 1 && b@[p + l - 1] < 0x80,
{
    if l == 3 && b[p] == 0x3d && b[p + 1] == 0x3d && b[p + 2] == 0x3d {
        Some(Kind::StrictEquals)
    } else if l == 2 && b[p] == 0x3d && b[p + 1] == 0x3d {
        Some(Kind::EqualsEquals)
    } else if l == 1 && b[p] == 0x3d {
        Some(Kind::Equals)
    } else if l == 1 && b[p] == 0x2b {
        Some(Kind::Plus)
    } else if l == 1 && b[p] == 0x3b {
        Some(Kind::Semicolon)
    } else {
        None
    }
}

/// The longest operator at `p`: candidate lengths are tried from the
/// longest spelling down.
fn read_operator(b: &[u8], p: usize) -> (r: Option<(Kind, usize)>)
    requires
        p < b@.len(),
    ensures
        match r {
            Some((k, l)) => longest_operator(b@, p as int, MAX_OPERATOR_LEN as int) == Some(
                (k@, l as int),
            ) && 1 <= l && p + l <= b@.len() && b@[p + l - 1] < 0x80,
            None => longest_operator(b@, p as int, MAX_OPERATOR_LEN as int) is None,
        },
{
    let mut l: usize = MAX_OPERATOR_LEN;
    while l > 0
        invariant
            l <= MAX_OPERATOR_LEN,
            p < b@.len(),
            longest_operator(b@, p as int, MAX_OPERATOR_LEN as int) == longest_operator(
                b@,
                p as int,
                l as int,
            ),
        decreases l,
    {
        if l <= b.len() - p {
            if let Some(k) = operator(b, p, l) {
                return Some((k, l));
            }
        }
        l = l - 1;
    }
    None
}

/// A scanner over a borrowed source text, with a byte cursor into it.
pub struct Lexer<'a> {
    source: &'a str,
    pos: usize,
}

impl<'a> Lexer<'a> {
    /// The UTF-8 bytes of the source.
    pub closed spec fn text(&self) -> Seq<u8> {
        self.source.spec_bytes()
    }

    /// The cursor: the byte offset where the next call starts reading.
    pub closed spec fn cursor(&self) -> int {
        self.pos as int
    }

    /// The cursor lies within the source, at a character boundary.
    pub closed spec fn wf(&self) -> bool {
        &&& self.pos <= self.source.spec_bytes().len()
        &&& is_char_boundary(self.source.spec_bytes(), self.pos as int)
    }

    /// A scanner at the start of `source`.
    pub fn new(source: &'a str) -> (r: Self)
        ensures
            r.wf(),
            r.text() == source.spec_bytes(),
            r.cursor() == 0,
            0 <= r.cursor() <= r.text().len(),
    {
        proof {
            encode_utf8_valid_utf8(source@);
        }
        Self { source, pos: 0 }
    }

    /// Reads the lexeme at the cursor, which stands on a character that is
    /// not insignificant input, and moves the cursor past it.
    fn read_next_kind(&mut self) -> (r: Result<Kind, LexError>)
        requires
            old(self).wf(),
            old(self).pos < old(self).source.spec_bytes().len(),
        ensures
            final(self).source == old(self).source,
            match r {
                Ok(k) => lexeme_at(old(self).text(), old(self).cursor()) == Ok::<
                    (KindView, int),
                    LexError,
                >((k@, final(self).cursor())),
                Err(x) => lexeme_at(old(self).text(), old(self).cursor()) == Err::<
                    (KindView, int),
                    LexError,
                >(x) && final(self).pos == old(self).pos,
            },
            final(self).wf(),
    {
        let source = self.source;
        let b = source.as_bytes();
        proof {
            encode_utf8_valid_utf8(source@);
        }
        let p = self.pos;
        let c = b[p];
        if 0x30 <= c && c <= 0x39 {
            match read_number(source, b, p) {
                Ok((d, e)) => {
                    self.pos = e;
                    Ok(Kind::Number(d))
                },
                Err(x) => Err(x),
            }
        } else if ident_start_at_exec(source, b, p) {
            proof {
                lemma_char_step(b@, p as int);
            }
            let e = skip_ident(source, b, char_end_exec(b, p));
            let k = word(source, b, p, e);
            self.pos = e;
            Ok(k)
        } else {
            match read_operator(b, p) {
                Some((k, l)) => {
                    proof {
                        lemma_ascii_boundary(b@, p + l - 1);
                    }
                    self.pos = p + l;
                    Ok(k)
                },
                None => Err(LexError::UnrecognizedCharacter { start: p, end: char_end_exec(b, p) }),
            }
        }
    }

    /// Produces the next token: skips whitespace and comments, then reads the
    /// longest lexeme at the cursor. At the end of input it returns `Eof`,
    /// with an empty span there, on this call and every later one. On an
    /// error the cursor rests at the start of the offending input.
    pub fn next_token(&mut self) -> (r: Result<Token, LexError>)
        requires
            old(self).wf(),
        ensures
            final(self).wf(),
            0 <= final(self).cursor() <= final(self).text().len(),
            final(self).text() == old(self).text(),
            step(old(self).text(), old(self).cursor()) == (
                token_result_view(r),
                final(self).cursor(),
            ),
    {
        let b = self.source.as_bytes();
        proof {
            encode_utf8_valid_utf8(self.source@);
        }
        match skip_trivia(self.source, b, self.pos) {
            Err(x) => {
                self.pos = x.start();
                Err(x)
            },
            Ok(p) => {
                self.pos = p;
                if p >= b.len() {
                    return Ok(Token { kind: Kind::Eof, start: p, end: p });
                }
                match self.read_next_kind() {
                    Ok(kind) => Ok(Token { kind, start: p, end: self.pos }),
                    Err(x) => Err(x),
                }
            },
        }
    }

    /// Moves the cursor past one character, so that a caller can go on after
    /// an error; at the end of input it stays.
    pub fn skip_char(&mut self)
        requires
            old(self).wf(),
        ensures
            final(self).wf(),
            0 <= final(self).cursor() <= final(self).text().len(),
            final(self).text() == old(self).text(),
            final(self).cursor() == if old(self).cursor() < old(self).text().len() {
                char_end(old(self).text(), old(self).cursor())
            } else {
                old(self).cursor()
            },
    {
        let b = self.source.as_bytes();
        if self.pos < b.len() {
            proof {
                encode_utf8_valid_utf8(self.source@);
                lemma_char_step(b@, self.pos as int);
            }
            self.pos = char_end_exec(b, self.pos);
        }
    }
}

pub open spec fn token_result_view(r: Result<Token, LexError>) -> Result<TokenView, LexError> {
    match r {
        Ok(t) => Ok(t@),
        Err(x) => Err(x),
    }
}

/// `pre` put before the tokens of `r`, when `r` holds tokens.
pub open spec fn prepend(pre: Seq<TokenView>, r: Result<Seq<TokenView>, LexError>) -> Result<
    Seq<TokenView>,
    LexError,
> {
    match r {
        Ok(s) => Ok(pre + s),
        Err(x) => Err(x),
    }
}

pub open spec fn token_views(v: Seq<Token>) -> Seq<TokenView> {
    v.map_values(|t: Token| t@)
}

pub open spec fn tokens_result_view(r: Result<Vec<Token>, LexError>) -> Result<
    Seq<TokenView>,
    LexError,
> {
    match r {
        Ok(v) => Ok(token_views(v@)),
        Err(x) => Err(x),
    }
}

/// Runs a scanner over `source` from its start until `Eof`, which is the last
/// token returned, or until the first error.
pub fn tokenize(source: &str) -> (r: Result<Vec<Token>, LexError>)
    ensures
        tokens_from(source.spec_bytes(), 0) == tokens_result_view(r),
{
    let ghost b = source.spec_bytes();
    let mut lexer = Lexer::new(source);
    let mut v: Vec<Token> = Vec::new();
    assert(prepend(token_views(v@), tokens_from(b, 0)) == tokens_from(b, 0)) by {
        assert(token_views(v@) + Seq::<TokenView>::empty() =~= Seq::<TokenView>::empty());
        if let Ok(s) = tokens_from(b, 0) {
            assert(token_views(v@) + s =~= s);
        }
    }
    loop
        invariant
            lexer.wf(),
            b == source.spec_bytes(),
            lexer.text() == b,
            0 <= lexer.cursor() <= b.len(),
            tokens_from(b, 0) == prepend(token_views(v@), tokens_from(b, lexer.cursor())),
        decreases b.len() - lexer.cursor(),
    {
        let ghost before = lexer.cursor();
        let ghost seen = token_views(v@);
        proof {
            lemma_step_advances(b, before);
        }
        match lexer.next_token() {
            Err(x) => {
                assert(tokens_from(b, before) == Err::<Seq<TokenView>, LexError>(x));
                assert(tokens_from(b, 0) == Err::<Seq<TokenView>, LexError>(x));
                return Err(x);
            },
            Ok(t) => {
                let end = matches!(t.kind, Kind::Eof);
                v.push(t);
                proof {
                    assert(token_views(v@) =~= seen.push(t@));
                    if let Ok(s) = tokens_from(b, lexer.cursor()) {
                        assert(seen + (seq![t@] + s) =~= token_views(v@) + s);
                    }
                    if end {
                        assert(t@.kind is Eof);
                        assert(tokens_from(b, before) == Ok::<Seq<TokenView>, LexError>(seq![t@]));
                        assert(seen + seq![t@] =~= token_views(v@));
                    } else {
                        assert(before < lexer.cursor() <= b.len());
                    }
                }
                if end {
                    assert(tokens_from(b, 0) == Ok::<Seq<TokenView>, LexError>(token_views(v@)));
                    return Ok(v);
                }
            },
        }
    }
}

} // verus!
