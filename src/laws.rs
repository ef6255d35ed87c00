use vstd::prelude::*;
use crate::grammar::{
    block_comment_end, char_end, digits_end, ident_end, ident_part_at, ident_start_at,
    is_ascii_space, is_digit, joined_spans, lexeme_at, line_comment_end, longest_operator,
    number_at, operator_kind, significant, significant_after_block, significant_after_line, space_at,
    step, tokens_from, trailing_zeros, trivia_end, without_trailing_zeros, word_kind,
    decimal_of, digits_value, MAX_OPERATOR_LEN,
};
use crate::lexer::lemma_digits_value_nonneg;
use crate::token::{Decimal, KindView, LexError, TokenView};

verus! {

/// An ASCII byte that can stand inside a token: neither whitespace nor `/`.
pub open spec fn is_plain(c: u8) -> bool {
    c < 0x80 && !is_ascii_space(c) && c != 0x2f
}

proof fn lemma_char_end(b: Seq<u8>, i: int)
    requires
        0 <= i < b.len(),
    ensures
        i < char_end(b, i) <= b.len(),
        b[i] < 0x80 ==> char_end(b, i) == i + 1,
{
    assert(b.subrange(i, b.len() as int)[0] == b[i]);
}

proof fn lemma_digits_end(b: Seq<u8>, i: int)
    requires
        0 <= i <= b.len(),
    ensures
        i <= digits_end(b, i) <= b.len(),
        forall|j: int| i <= j < digits_end(b, i) ==> is_digit(#[trigger] b[j]),
        digits_end(b, i) < b.len() ==> !is_digit(b[digits_end(b, i)]),
    decreases b.len() - i,
{
    if i < b.len() && is_digit(b[i]) {
        lemma_digits_end(b, i + 1);
    }
}

/// A run of identifier characters is significant input, as it stands.
proof fn lemma_ident_run(b: Seq<u8>, i: int)
    requires
        0 <= i <= b.len(),
    ensures
        i <= ident_end(b, i) <= b.len(),
        significant(b, i) == b.subrange(i, ident_end(b, i)) + significant(b, ident_end(b, i)),
    decreases b.len() - i,
{
    if i < b.len() && ident_part_at(b, i) {
        let c = char_end(b, i);
        let e = ident_end(b, i);
        lemma_char_end(b, i);
        lemma_ident_run(b, c);
        assert(b.subrange(i, e) =~= b.subrange(i, c) + b.subrange(c, e));
        assert(b.subrange(i, c) + (b.subrange(c, e) + significant(b, e)) =~= b.subrange(i, e)
            + significant(b, e));
    } else {
        assert(b.subrange(i, i) + significant(b, i) =~= significant(b, i));
    }
}

proof fn lemma_trivia(b: Seq<u8>, i: int)
    requires
        0 <= i <= b.len(),
    ensures
        trivia_end(b, i) matches Ok(p) ==> i <= p <= b.len() && significant(b, i) == significant(
            b,
            p,
        ),
        trivia_end(b, i) matches Err(x) ==> 0 <= x.spec_start() < b.len(),
    decreases b.len() - i, 0int,
{
    if i < b.len() {
        lemma_char_end(b, i);
        if space_at(b, i) {
            lemma_trivia(b, char_end(b, i));
        } else if b[i] == 0x2f && i + 1 < b.len() && b[i + 1] == 0x2f {
            lemma_line_comment(b, i + 2);
        } else if b[i] == 0x2f && i + 1 < b.len() && b[i + 1] == 0x2a {
            lemma_block_comment(b, i, i + 2);
        }
    }
}

proof fn lemma_line_comment(b: Seq<u8>, i: int)
    requires
        0 <= i <= b.len(),
    ensures
        line_comment_end(b, i) matches Ok(p) ==> i <= p <= b.len() && significant_after_line(b, i)
            == significant(b, p),
        line_comment_end(b, i) matches Err(x) ==> 0 <= x.spec_start() < b.len(),
    decreases b.len() - i, 1int,
{
    if i < b.len() && b[i] != 0x0a {
        lemma_line_comment(b, i + 1);
    } else {
        lemma_trivia(b, i);
    }
}

proof fn lemma_block_comment(b: Seq<u8>, open: int, i: int)
    requires
        0 <= open < i <= b.len(),
    ensures
        block_comment_end(b, open, i) matches Ok(p) ==> i <= p <= b.len() && significant_after_block(
            b,
            i,
        ) == significant(b, p),
        block_comment_end(b, open, i) matches Err(x) ==> 0 <= x.spec_start() < b.len(),
    decreases b.len() - i, 1int,
{
    if i + 1 < b.len() {
        if b[i] == 0x2a && b[i + 1] == 0x2f {
            lemma_trivia(b, i + 2);
        } else {
            lemma_block_comment(b, open, i + 1);
        }
    }
}

proof fn lemma_longest_operator(b: Seq<u8>, p: int, l: int)
    requires
        0 <= p,
    ensures
        longest_operator(b, p, l) matches Some((k, n)) ==> 1 <= n <= l && p + n <= b.len()
            && operator_kind(b.subrange(p, p + n)) == Some(k),
    decreases l,
{
    if l > 0 {
        lemma_longest_operator(b, p, l - 1);
    }
}

/// Input that is ASCII, neither whitespace nor `/`, is significant byte for
/// byte.
proof fn lemma_plain_run(b: Seq<u8>, p: int, e: int)
    requires
        0 <= p <= e <= b.len(),
        forall|j: int| p <= j < e ==> is_plain(#[trigger] b[j]),
    ensures
        significant(b, p) == b.subrange(p, e) + significant(b, e),
    decreases e - p,
{
    if p == e {
        assert(b.subrange(p, e) + significant(b, e) =~= significant(b, e));
    } else {
        assert(is_plain(b[p]));
        lemma_char_end(b, p);
        lemma_plain_run(b, p + 1, e);
        assert(b.subrange(p, e) =~= b.subrange(p, p + 1) + b.subrange(p + 1, e));
        assert(b.subrange(p, p + 1) + (b.subrange(p + 1, e) + significant(b, e)) =~= b.subrange(
            p,
            e,
        ) + significant(b, e));
    }
}

/// A lexeme is never empty, ends within the input, and is significant input
/// as it stands.
proof fn lemma_lexeme(b: Seq<u8>, p: int)
    requires
        0 <= p < b.len(),
    ensures
        lexeme_at(b, p) matches Ok((k, e)) ==> p < e <= b.len() && !(k is Eof) && significant(b, p)
            == b.subrange(p, e) + significant(b, e),
{
    lemma_char_end(b, p);
    if is_digit(b[p]) {
        let ie = digits_end(b, p);
        lemma_digits_end(b, p);
        let has_dot = ie < b.len() && b[ie] == 0x2e;
        let fs = if has_dot {
            ie + 1
        } else {
            ie
        };
        lemma_digits_end(b, fs);
        let fe = digits_end(b, fs);
        let has_exp = fe < b.len() && (b[fe] == 0x65 || b[fe] == 0x45);
        let signed = has_exp && fe + 1 < b.len() && (b[fe + 1] == 0x2b || b[fe + 1] == 0x2d);
        let es = if !has_exp {
            fe
        } else if signed {
            fe + 2
        } else {
            fe + 1
        };
        lemma_digits_end(b, es);
        let ee = digits_end(b, es);
        if number_at(b, p) is Ok {
            assert forall|j: int| p <= j < ee implies is_plain(#[trigger] b[j]) by {
                if j < ie {
                    assert(is_digit(b[j]));
                } else if fs <= j < fe {
                    assert(is_digit(b[j]));
                } else if es <= j {
                    assert(is_digit(b[j]));
                }
            }
            lemma_plain_run(b, p, ee);
        }
    } else if ident_start_at(b, p) {
        let c = char_end(b, p);
        let e = ident_end(b, c);
        lemma_ident_run(b, c);
        assert(word_kind(b.subrange(p, e)) != KindView::Eof);
        assert(b.subrange(p, e) =~= b.subrange(p, c) + b.subrange(c, e));
        assert(b.subrange(p, c) + (b.subrange(c, e) + significant(b, e)) =~= b.subrange(p, e)
            + significant(b, e));
    } else {
        lemma_longest_operator(b, p, MAX_OPERATOR_LEN as int);
        if let Some((k, n)) = longest_operator(b, p, MAX_OPERATOR_LEN as int) {
            let w = b.subrange(p, p + n);
            assert forall|j: int| p <= j < p + n implies is_plain(#[trigger] b[j]) by {
                assert(w[j - p] == b[j]);
            }
            lemma_plain_run(b, p, p + n);
        }
    }
}

/// Every call of the scanner from a cursor within the input leaves the
/// cursor within the input, and a call that returns a token other than
/// `Eof` moves the cursor forward past that token's end.
pub proof fn lemma_step_advances(b: Seq<u8>, pos: int)
    requires
        0 <= pos <= b.len(),
    ensures
        0 <= step(b, pos).1 <= b.len(),
        step(b, pos).0 matches Ok(t) ==> pos <= t.start <= t.end == step(b, pos).1,
        step(b, pos).0 matches Ok(t) ==> (t.kind is Eof <==> t.start == b.len()),
        step(b, pos).0 matches Ok(t) && !(t.kind is Eof) ==> pos < step(b, pos).1,
{
    lemma_trivia(b, pos);
    if let Ok(p) = trivia_end(b, pos) {
        if p < b.len() {
            lemma_lexeme(b, p);
        }
    }
}

/// Once the scanner has returned `Eof`, every further call returns the same
/// `Eof` token, with the same span, and leaves the cursor where it is.
pub proof fn lemma_eof_is_final(b: Seq<u8>, pos: int)
    requires
        0 <= pos <= b.len(),
        step(b, pos).0 matches Ok(t) && t.kind is Eof,
    ensures
        step(b, step(b, pos).1) == step(b, pos),
        step(b, pos).1 == b.len(),
{
    lemma_step_advances(b, pos);
    assert(trivia_end(b, b.len() as int) == Ok::<int, LexError>(b.len() as int));
}

/// A run of the scanner that reaches `Eof` emits tokens whose spans,
/// excluding `Eof`'s, put end to end in order, are exactly the input with
/// its whitespace and comments taken out: no gaps and no overlaps.
pub proof fn lemma_tokens_cover_input(b: Seq<u8>, pos: int)
    requires
        0 <= pos <= b.len(),
        tokens_from(b, pos) is Ok,
    ensures
        (tokens_from(b, pos)->Ok_0).len() >= 1,
        (tokens_from(b, pos)->Ok_0).last().kind is Eof,
        joined_spans(b, (tokens_from(b, pos)->Ok_0).drop_last()) == significant(b, pos),
    decreases b.len() - pos,
{
    lemma_step_advances(b, pos);
    lemma_trivia(b, pos);
    let ts = tokens_from(b, pos)->Ok_0;
    let (r, next) = step(b, pos);
    let t = r->Ok_0;
    if t.kind is Eof {
        assert(ts.drop_last() =~= Seq::<TokenView>::empty());
    } else {
        let p = t.start;
        lemma_lexeme(b, p);
        lemma_tokens_cover_input(b, next);
        let rest = tokens_from(b, next)->Ok_0;
        assert(ts == seq![t] + rest);
        assert(ts.drop_last() =~= seq![t] + rest.drop_last());
        assert((seq![t] + rest.drop_last()).drop_first() =~= rest.drop_last());
        assert(ts.last() == rest.last());
    }
}

proof fn lemma_without_trailing_zeros(d: Seq<u8>)
    ensures
        0 <= trailing_zeros(d) <= d.len(),
        without_trailing_zeros(d).len() > 0 ==> without_trailing_zeros(d).last() != 0x30,
    decreases d.len(),
{
    if d.len() > 0 && d.last() == 0x30 {
        lemma_without_trailing_zeros(d.drop_last());
        assert(without_trailing_zeros(d) =~= without_trailing_zeros(d.drop_last()));
    }
}

/// Every number the scanner decodes is in normal form: its mantissa, unless
/// it is zero, does not end in a zero digit, and zero has exponent 0. So two
/// literals of the same value decode to equal numbers.
pub proof fn lemma_numbers_normalized(
    b: Seq<u8>,
    p: int,
    ie: int,
    fs: int,
    fe: int,
    es: int,
    ee: int,
    neg: bool,
)
    requires
        0 <= p <= ie <= fs <= fe <= b.len(),
        forall|j: int| p <= j < ie ==> is_digit(#[trigger] b[j]),
        forall|j: int| fs <= j < fe ==> is_digit(#[trigger] b[j]),
        decimal_of(b, p, ie, fs, fe, es, ee, neg) is Some,
    ensures
        ({
            let n = decimal_of(b, p, ie, fs, fe, es, ee, neg)->0;
            &&& n.mantissa != 0 ==> n.mantissa % 10 != 0
            &&& n.mantissa == 0 ==> n.exponent == 0
        }),
{
    let d = b.subrange(p, ie) + b.subrange(fs, fe);
    let c = without_trailing_zeros(d);
    lemma_without_trailing_zeros(d);
    let n = decimal_of(b, p, ie, fs, fe, es, ee, neg)->0;
    assert forall|j: int| 0 <= j < c.len() implies is_digit(#[trigger] c[j]) by {
        assert(c[j] == d[j]);
        if j < ie - p {
            assert(d[j] == b[p + j]);
        } else {
            assert(d[j] == b[fs + j - (ie - p)]);
        }
    }
    lemma_digits_value_nonneg(c);
    if n.mantissa != 0 {
        let v = digits_value(c.drop_last());
        let l = c.last() - 0x30;
        assert(c.len() > 0);
        let k = c.len() - 1;
        assert(c[k] == d[k]);
        if k < ie - p {
            assert(d[k] == b[p + k]);
        } else {
            assert(d[k] == b[fs + k - (ie - p)]);
        }
        assert(0 <= l < 10);
        assert(n.mantissa as int == digits_value(c));
        assert(digits_value(c) == v * 10 + l);
        assert(l != 0);
        assert((v * 10 + l) % 10 == l) by (nonlinear_arith)
            requires
                0 <= l < 10,
        ;
        assert(n.mantissa % 10 == l);
    }
}

} // verus!
