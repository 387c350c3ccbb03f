//! The textual interchange codec for documents: a length-prefixed encoding
//! that round-trips exactly.  Serialization and deserialization are both
//! verified, and the round trip is proved for every document value.

use crate::ast::{
    ArticleMetaV, ArticleV, BlockV, CommentV, DocMetaV, DocumentV, FeedV, FormattingV, SpanV,
    TextV,
};
use crate::parser::{dec_run, dec_val, is_dec_digit, lemma_dec_run};
use crate::strs::{dec_rep, digit_char, push_chars, push_str_chars};
use vstd::prelude::*;

verus! {

// ===== Primitives: specification =====

/// A number token: decimal digits closed by `';'`.
pub open spec fn ser_num(n: nat) -> Seq<char> {
    dec_rep(n) + seq![';']
}

/// Reads a number token; numbers above `u64::MAX` are refused.
pub open spec fn de_num(s: Seq<char>) -> Option<(nat, Seq<char>)> {
    let k = dec_run(s) as int;
    if k >= 1 && k < s.len() && s[k] == ';' && dec_val(s.subrange(0, k)) <= u64::MAX {
        Some((dec_val(s.subrange(0, k)), s.skip(k + 1)))
    } else {
        None
    }
}

/// A boolean: one character.
pub open spec fn ser_bool(b: bool) -> Seq<char> {
    if b {
        seq!['T']
    } else {
        seq!['F']
    }
}

/// Reads a boolean.
pub open spec fn de_bool(s: Seq<char>) -> Option<(bool, Seq<char>)> {
    if s.len() >= 1 && s[0] == 'T' {
        Some((true, s.drop_first()))
    } else if s.len() >= 1 && s[0] == 'F' {
        Some((false, s.drop_first()))
    } else {
        None
    }
}

/// A string: its character count, then its characters.
pub open spec fn ser_str(s: Seq<char>) -> Seq<char> {
    ser_num(s.len() as nat) + s
}

/// Reads a string.
pub open spec fn de_str(s: Seq<char>) -> Option<(Seq<char>, Seq<char>)> {
    match de_num(s) {
        Some((n, rest)) => if n <= rest.len() {
            Some((rest.take(n as int), rest.skip(n as int)))
        } else {
            None
        },
        None => None,
    }
}

// ===== Primitives: numeral lemmas =====

proof fn lemma_dec_rep_digits(n: nat)
    ensures
        dec_rep(n).len() >= 1,
        forall|j: int| 0 <= j < dec_rep(n).len() ==> is_dec_digit(#[trigger] dec_rep(n)[j]),
        dec_val(dec_rep(n)) == n,
    decreases n,
{
    if n < 10 {
        assert(dec_rep(n) == seq![digit_char(n)]);
        assert(digit_char(n) as u32 == n + 48) by {
            assert(((n + 48) as u8) as char as u32 == n + 48);
        }
        assert(is_dec_digit(digit_char(n)));
        assert(dec_rep(n).drop_last() =~= Seq::<char>::empty());
        assert(dec_val(dec_rep(n)) == dec_val(Seq::<char>::empty()) * 10 + crate::parser::dec_digit_val(
            digit_char(n),
        ));
    } else {
        lemma_dec_rep_digits(n / 10);
        let d = n % 10;
        assert(digit_char(d) as u32 == d + 48) by {
            assert(((d + 48) as u8) as char as u32 == d + 48);
        }
        assert(is_dec_digit(digit_char(d)));
        let whole = dec_rep(n);
        assert(whole == dec_rep(n / 10) + seq![digit_char(d)]);
        assert forall|j: int| 0 <= j < whole.len() implies is_dec_digit(#[trigger] whole[j]) by {
            if j < dec_rep(n / 10).len() {
                assert(whole[j] == dec_rep(n / 10)[j]);
            } else {
                assert(whole[j] == digit_char(d));
            }
        }
        assert(whole.drop_last() =~= dec_rep(n / 10));
        assert(whole.last() == digit_char(d));
        assert(dec_val(whole) == dec_val(dec_rep(n / 10)) * 10 + crate::parser::dec_digit_val(
            digit_char(d),
        ));
        assert(crate::parser::dec_digit_val(digit_char(d)) == d);
        assert(dec_val(whole) == (n / 10) * 10 + d);
        vstd::arithmetic::div_mod::lemma_fundamental_div_mod(n as int, 10);
        assert((n / 10) * 10 + d == n);
    }
}

/// The digit run of a digit sequence followed by a non-digit is exactly
/// that sequence.
proof fn lemma_dec_run_exact(ds: Seq<char>, rest: Seq<char>)
    requires
        forall|j: int| 0 <= j < ds.len() ==> is_dec_digit(#[trigger] ds[j]),
        rest.len() >= 1,
        !is_dec_digit(rest[0]),
    ensures
        dec_run(ds + rest) == ds.len(),
{
    let s = ds + rest;
    lemma_dec_run(s);
    assert(s[ds.len() as int] == rest[0]);
    if dec_run(s) < ds.len() {
        assert(s[dec_run(s) as int] == ds[dec_run(s) as int]);
        assert(is_dec_digit(s[dec_run(s) as int]));
    }
    if dec_run(s) > ds.len() {
        assert(is_dec_digit(s[ds.len() as int]));
    }
}

/// Growing a digit sequence does not shrink its value.
pub(crate) proof fn lemma_dec_val_grows(s: Seq<char>, i: int, j: int)
    requires
        0 <= i <= j <= s.len(),
    ensures
        dec_val(s.subrange(0, i)) <= dec_val(s.subrange(0, j)),
    decreases j - i,
{
    if i < j {
        lemma_dec_val_grows(s, i, j - 1);
        let a = s.subrange(0, j - 1);
        let b = s.subrange(0, j);
        assert(b.drop_last() =~= a);
        assert(dec_val(b) == dec_val(a) * 10 + crate::parser::dec_digit_val(b.last()));
        assert(dec_val(a) * 10 >= dec_val(a)) by (nonlinear_arith)
            requires dec_val(a) >= 0;
    }
}

pub proof fn lemma_rt_num(n: nat, rest: Seq<char>)
    requires
        n <= u64::MAX,
    ensures
        de_num(ser_num(n) + rest) == Some((n, rest)),
{
    lemma_dec_rep_digits(n);
    let ds = dec_rep(n);
    let s = ser_num(n) + rest;
    assert(s =~= ds + (seq![';'] + rest));
    assert((seq![';'] + rest)[0] == ';');
    assert(!is_dec_digit(';'));
    lemma_dec_run_exact(ds, seq![';'] + rest);
    let k = dec_run(s) as int;
    assert(k == ds.len());
    assert(s.subrange(0, k) =~= ds);
    assert(s[k] == ';');
    assert(s.skip(k + 1) =~= rest);
}

pub proof fn lemma_rt_str(t: Seq<char>, rest: Seq<char>)
    requires
        t.len() <= u64::MAX,
    ensures
        de_str(ser_str(t) + rest) == Some((t, rest)),
{
    let s = ser_str(t) + rest;
    assert(s =~= ser_num(t.len() as nat) + (t + rest));
    lemma_rt_num(t.len() as nat, t + rest);
    let inner = t + rest;
    assert(de_num(s) == Some((t.len() as nat, inner)));
    assert(t.len() <= inner.len());
    assert(inner.take(t.len() as int) =~= t);
    assert(inner.skip(t.len() as int) =~= rest);
}

pub proof fn lemma_rt_bool(b: bool, rest: Seq<char>)
    ensures
        de_bool(ser_bool(b) + rest) == Some((b, rest)),
{
    let s = ser_bool(b) + rest;
    assert(s[0] == if b {
        'T'
    } else {
        'F'
    });
    assert(s.drop_first() =~= rest);
}

// ===== Primitives: executable =====

/// Reads a number token at `pos`.
pub(crate) fn read_num(v: &Vec<char>, pos: usize) -> (r: Option<(u64, usize)>)
    requires
        pos <= v@.len(),
    ensures
        match r {
            Some(p) => de_num(v@.skip(pos as int)) == Some((p.0 as nat, v@.skip(p.1 as int)))
                && pos < p.1 <= v@.len(),
            None => de_num(v@.skip(pos as int)) is None,
        },
{
    let ghost rest = v@.skip(pos as int);
    let n = v.len();
    let mut j: usize = pos;
    while j < n && crate::parser::is_dec_digit_exec(v[j])
        invariant
            n == v@.len(),
            pos <= j <= n,
            forall|t: int| pos <= t < j ==> is_dec_digit(v@[t]),
        decreases n - j,
    {
        j = j + 1;
    }
    proof {
        lemma_dec_run(rest);
        assert forall|t: int| 0 <= t < j - pos implies is_dec_digit(rest[t]) by {
            assert(rest[t] == v@[pos + t]);
        }
        if dec_run(rest) < j - pos {
            assert(is_dec_digit(rest[dec_run(rest) as int]));
        }
        if j < n {
            assert(rest[j - pos] == v@[j as int]);
            assert(dec_run(rest) == j - pos);
        } else {
            assert(dec_run(rest) == rest.len());
        }
    }
    if j == pos {
        return None;
    }
    if j >= n || v[j] != ';' {
        return None;
    }
    // compute the value, watching for overflow
    let mut val: u64 = 0;
    let mut over: bool = false;
    let mut t: usize = pos;
    while t < j
        invariant
            n == v@.len(),
            pos <= t <= j < n,
            rest == v@.skip(pos as int),
            forall|u: int| pos <= u < j ==> is_dec_digit(v@[u]),
            !over ==> val as nat == dec_val(rest.subrange(0, t - pos)),
            over ==> dec_val(rest.subrange(0, t - pos)) > u64::MAX,
        decreases j - t,
    {
        let c = v[t];
        let d: u64 = (c as u32 - 48) as u64;
        proof {
            assert(rest.subrange(0, t + 1 - pos).drop_last() =~= rest.subrange(0, t - pos));
            assert(rest.subrange(0, t + 1 - pos).last() == v@[t as int]);
            assert(d < 10);
            let prev = dec_val(rest.subrange(0, t - pos));
            assert(dec_val(rest.subrange(0, t + 1 - pos)) == prev * 10
                + crate::parser::dec_digit_val(v@[t as int]));
            if over {
                assert(prev * 10 + crate::parser::dec_digit_val(v@[t as int]) >= prev) by (
                nonlinear_arith)
                    requires prev >= 0;
            }
        }
        if !over {
            if val > (u64::MAX - d) / 10 {
                over = true;
                proof {
                    let prev = val as nat;
                    assert(prev * 10 + d as nat > u64::MAX) by (nonlinear_arith)
                        requires
                            prev > ((u64::MAX - d) as nat) / 10,
                            d < 10,
                    ;
                }
            } else {
                proof {
                    let prev = val as nat;
                    assert(prev * 10 + d as nat <= u64::MAX) by (nonlinear_arith)
                        requires
                            prev <= ((u64::MAX - d) as nat) / 10,
                            d < 10,
                    ;
                }
                val = val * 10 + d;
            }
        }
        t = t + 1;
    }
    proof {
        assert(rest.subrange(0, j - pos) == rest.subrange(0, dec_run(rest) as int));
    }
    if over {
        return None;
    }
    proof {
        assert(rest.skip(j - pos + 1) =~= v@.skip(j + 1));
    }
    Some((val, j + 1))
}

/// Writes a number token.
pub(crate) fn write_num(out: &mut Vec<char>, n: u64)
    ensures
        final(out)@ == old(out)@ + ser_num(n as nat),
{
    let d = crate::strs::u64_dec_chars(n);
    push_chars(out, &d);
    out.push(';');
    proof {
        assert(out@ =~= old(out)@ + ser_num(n as nat));
    }
}

/// Writes a boolean token.
pub(crate) fn write_bool(out: &mut Vec<char>, b: bool)
    ensures
        final(out)@ == old(out)@ + ser_bool(b),
{
    if b {
        out.push('T');
    } else {
        out.push('F');
    }
    proof {
        assert(out@ =~= old(out)@ + ser_bool(b));
    }
}

/// Reads a boolean token at `pos`.
pub(crate) fn read_bool(v: &Vec<char>, pos: usize) -> (r: Option<(bool, usize)>)
    requires
        pos <= v@.len(),
    ensures
        match r {
            Some(p) => de_bool(v@.skip(pos as int)) == Some((p.0, v@.skip(p.1 as int))) && pos
                < p.1 <= v@.len(),
            None => de_bool(v@.skip(pos as int)) is None,
        },
{
    let ghost rest = v@.skip(pos as int);
    proof {
        if rest.len() >= 1 {
            assert(rest[0] == v@[pos as int]);
            assert(rest.drop_first() =~= v@.skip(pos + 1));
        }
    }
    if pos < v.len() && v[pos] == 'T' {
        Some((true, pos + 1))
    } else if pos < v.len() && v[pos] == 'F' {
        Some((false, pos + 1))
    } else {
        None
    }
}

/// Writes a string: its length, then its characters.
pub(crate) fn write_str(out: &mut Vec<char>, s: &str)
    ensures
        final(out)@ == old(out)@ + ser_str(s@),
        s@.len() <= usize::MAX,
{
    let n = s.unicode_len();
    write_num(out, n as u64);
    push_str_chars(out, s);
    proof {
        assert(out@ =~= old(out)@ + ser_str(s@));
    }
}

/// Reads a string at `pos`.
pub(crate) fn read_str(v: &Vec<char>, pos: usize) -> (r: Option<(String, usize)>)
    requires
        pos <= v@.len(),
    ensures
        match r {
            Some(p) => de_str(v@.skip(pos as int)) == Some((p.0@, v@.skip(p.1 as int))) && pos
                < p.1 <= v@.len(),
            None => de_str(v@.skip(pos as int)) is None,
        },
{
    let ghost rest = v@.skip(pos as int);
    match read_num(v, pos) {
        Some((n, p1)) => {
            let remaining = v.len() - p1;
            if n > remaining as u64 {
                proof {
                    assert(v@.skip(p1 as int).len() == v@.len() - p1);
                }
                return None;
            }
            let count = n as usize;
            proof {
                assert(count <= remaining);
                assert(p1 + count <= v@.len());
            }
            let mut t: usize = p1;
            let mut chars: Vec<char> = Vec::new();
            while t < p1 + count
                invariant
                    v@.len() <= usize::MAX,
                    p1 + count <= v@.len(),
                    p1 <= t <= p1 + count,
                    chars@ == v@.subrange(p1 as int, t as int),
                decreases p1 + count - t,
            {
                chars.push(v[t]);
                proof {
                    assert(v@.subrange(p1 as int, t + 1) =~= v@.subrange(p1 as int, t as int).push(
                        v@[t as int],
                    ));
                }
                t = t + 1;
            }
            proof {
                let mid = v@.skip(p1 as int);
                assert(mid.take(n as int) =~= v@.subrange(p1 as int, (p1 + count) as int));
                assert(mid.skip(n as int) =~= v@.skip((p1 + count) as int));
            }
            Some((crate::strs::chars_to_string(chars), p1 + count))
        },
        None => None,
    }
}

// ===== Structured values: specification =====

/// An optional string: `0`, or `1` followed by the string.
pub open spec fn ser_opt_str(o: Option<Seq<char>>) -> Seq<char> {
    match o {
        None => seq!['0'],
        Some(t) => seq!['1'] + ser_str(t),
    }
}

/// Reads an optional string.
pub open spec fn de_opt_str(s: Seq<char>) -> Option<(Option<Seq<char>>, Seq<char>)> {
    if s.len() >= 1 && s[0] == '0' {
        Some((None, s.drop_first()))
    } else if s.len() >= 1 && s[0] == '1' {
        match de_str(s.drop_first()) {
            Some((t, rest)) => Some((Some(t), rest)),
            None => None,
        }
    } else {
        None
    }
}

/// A formatting value: three flags and an optional link.
pub open spec fn ser_fmt(f: FormattingV) -> Seq<char> {
    ser_bool(f.bold) + ser_bool(f.italic) + ser_bool(f.code) + ser_opt_str(f.link)
}

/// Reads a formatting value.
pub open spec fn de_fmt(s: Seq<char>) -> Option<(FormattingV, Seq<char>)> {
    match de_bool(s) {
        Some((b, s1)) => match de_bool(s1) {
            Some((i, s2)) => match de_bool(s2) {
                Some((c, s3)) => match de_opt_str(s3) {
                    Some((l, s4)) => Some(
                        (FormattingV { bold: b, italic: i, code: c, link: l }, s4),
                    ),
                    None => None,
                },
                None => None,
            },
            None => None,
        },
        None => None,
    }
}

/// A span: its text, then its formatting.
pub open spec fn ser_span(sp: SpanV) -> Seq<char> {
    ser_str(sp.text) + ser_fmt(sp.formatting)
}

/// Reads a span.
pub open spec fn de_span(s: Seq<char>) -> Option<(SpanV, Seq<char>)> {
    match de_str(s) {
        Some((t, s1)) => match de_fmt(s1) {
            Some((f, s2)) => Some((SpanV { text: t, formatting: f }, s2)),
            None => None,
        },
        None => None,
    }
}

/// A sequence of spans, front first.
pub open spec fn ser_span_items(ss: Seq<SpanV>) -> Seq<char>
    decreases ss.len(),
{
    if ss.len() == 0 {
        Seq::empty()
    } else {
        ser_span(ss.first()) + ser_span_items(ss.drop_first())
    }
}

/// Reads `n` spans.
pub open spec fn de_span_items(s: Seq<char>, n: nat) -> Option<(Seq<SpanV>, Seq<char>)>
    decreases n,
{
    if n == 0 {
        Some((Seq::empty(), s))
    } else {
        match de_span(s) {
            Some((sp, s1)) => match de_span_items(s1, (n - 1) as nat) {
                Some((rest_items, s2)) => Some((seq![sp] + rest_items, s2)),
                None => None,
            },
            None => None,
        }
    }
}

/// A text content value: its span count, then its spans.
pub open spec fn ser_text(t: TextV) -> Seq<char> {
    ser_num(t.spans.len() as nat) + ser_span_items(t.spans)
}

/// Reads a text content value.
pub open spec fn de_text(s: Seq<char>) -> Option<(TextV, Seq<char>)> {
    match de_num(s) {
        Some((n, s1)) => match de_span_items(s1, n) {
            Some((spans, s2)) => Some((TextV { spans }, s2)),
            None => None,
        },
        None => None,
    }
}

/// A sequence of text contents, front first.
pub open spec fn ser_text_items(ts: Seq<TextV>) -> Seq<char>
    decreases ts.len(),
{
    if ts.len() == 0 {
        Seq::empty()
    } else {
        ser_text(ts.first()) + ser_text_items(ts.drop_first())
    }
}

/// Reads `n` text contents.
pub open spec fn de_text_items(s: Seq<char>, n: nat) -> Option<(Seq<TextV>, Seq<char>)>
    decreases n,
{
    if n == 0 {
        Some((Seq::empty(), s))
    } else {
        match de_text(s) {
            Some((t, s1)) => match de_text_items(s1, (n - 1) as nat) {
                Some((rest_items, s2)) => Some((seq![t] + rest_items, s2)),
                None => None,
            },
            None => None,
        }
    }
}

/// One block: a tag character, then the variant's payload.
pub open spec fn ser_block(b: BlockV) -> Seq<char> {
    match b {
        BlockV::Paragraph(c) => seq!['p'] + ser_text(c),
        BlockV::Heading { level, content } => seq!['h'] + ser_num(level as nat) + ser_text(
            content,
        ),
        BlockV::List { ordered, items } => seq!['l'] + ser_bool(ordered) + ser_num(
            items.len() as nat,
        ) + ser_text_items(items),
        BlockV::Quote(c) => seq!['q'] + ser_text(c),
        BlockV::Code { language, content } => seq!['c'] + ser_opt_str(language) + ser_str(
            content,
        ),
        BlockV::Link { url, text } => seq!['k'] + ser_str(url) + ser_str(text),
        BlockV::Image { url, alt } => seq!['i'] + ser_str(url) + ser_opt_str(alt),
        BlockV::Raw(s) => seq!['r'] + ser_str(s),
    }
}

/// Reads one block.
pub open spec fn de_block(s: Seq<char>) -> Option<(BlockV, Seq<char>)> {
    if s.len() < 1 {
        None
    } else {
        let tag = s[0];
        let body = s.drop_first();
        if tag == 'p' {
            match de_text(body) {
                Some((c, r)) => Some((BlockV::Paragraph(c), r)),
                None => None,
            }
        } else if tag == 'h' {
            match de_num(body) {
                Some((lv, r1)) => if lv <= u8::MAX {
                    match de_text(r1) {
                        Some((c, r2)) => Some(
                            (BlockV::Heading { level: lv as u8, content: c }, r2),
                        ),
                        None => None,
                    }
                } else {
                    None
                },
                None => None,
            }
        } else if tag == 'l' {
            match de_bool(body) {
                Some((o, r1)) => match de_num(r1) {
                    Some((n, r2)) => match de_text_items(r2, n) {
                        Some((items, r3)) => Some((BlockV::List { ordered: o, items }, r3)),
                        None => None,
                    },
                    None => None,
                },
                None => None,
            }
        } else if tag == 'q' {
            match de_text(body) {
                Some((c, r)) => Some((BlockV::Quote(c), r)),
                None => None,
            }
        } else if tag == 'c' {
            match de_opt_str(body) {
                Some((l, r1)) => match de_str(r1) {
                    Some((c, r2)) => Some((BlockV::Code { language: l, content: c }, r2)),
                    None => None,
                },
                None => None,
            }
        } else if tag == 'k' {
            match de_str(body) {
                Some((u, r1)) => match de_str(r1) {
                    Some((t, r2)) => Some((BlockV::Link { url: u, text: t }, r2)),
                    None => None,
                },
                None => None,
            }
        } else if tag == 'i' {
            match de_str(body) {
                Some((u, r1)) => match de_opt_str(r1) {
                    Some((a, r2)) => Some((BlockV::Image { url: u, alt: a }, r2)),
                    None => None,
                },
                None => None,
            }
        } else if tag == 'r' {
            match de_str(body) {
                Some((t, r)) => Some((BlockV::Raw(t), r)),
                None => None,
            }
        } else {
            None
        }
    }
}

/// A sequence of blocks, front first.
pub open spec fn ser_block_items(bs: Seq<BlockV>) -> Seq<char>
    decreases bs.len(),
{
    if bs.len() == 0 {
        Seq::empty()
    } else {
        ser_block(bs.first()) + ser_block_items(bs.drop_first())
    }
}

/// Reads `n` blocks.
pub open spec fn de_block_items(s: Seq<char>, n: nat) -> Option<(Seq<BlockV>, Seq<char>)>
    decreases n,
{
    if n == 0 {
        Some((Seq::empty(), s))
    } else {
        match de_block(s) {
            Some((b, s1)) => match de_block_items(s1, (n - 1) as nat) {
                Some((rest_items, s2)) => Some((seq![b] + rest_items, s2)),
                None => None,
            },
            None => None,
        }
    }
}

/// A block list: its count, then its blocks.
pub open spec fn ser_blocks(bs: Seq<BlockV>) -> Seq<char> {
    ser_num(bs.len() as nat) + ser_block_items(bs)
}

/// Reads a block list.
pub open spec fn de_blocks(s: Seq<char>) -> Option<(Seq<BlockV>, Seq<char>)> {
    match de_num(s) {
        Some((n, s1)) => de_block_items(s1, n),
        None => None,
    }
}

/// One comment: author, body blocks, votes and timestamp.
pub open spec fn ser_comment(c: CommentV) -> Seq<char> {
    ser_str(c.author) + ser_blocks(c.content) + ser_num(c.upvotes as nat) + ser_num(
        c.downvotes as nat,
    ) + ser_opt_str(c.timestamp)
}

/// Reads one comment.
pub open spec fn de_comment(s: Seq<char>) -> Option<(CommentV, Seq<char>)> {
    match de_str(s) {
        Some((author, s1)) => match de_blocks(s1) {
            Some((content, s2)) => match de_num(s2) {
                Some((up, s3)) => if up <= u32::MAX {
                    match de_num(s3) {
                        Some((down, s4)) => if down <= u32::MAX {
                            match de_opt_str(s4) {
                                Some((ts, s5)) => Some(
                                    (
                                        CommentV {
                                            author,
                                            content,
                                            upvotes: up as u32,
                                            downvotes: down as u32,
                                            timestamp: ts,
                                        },
                                        s5,
                                    ),
                                ),
                                None => None,
                            }
                        } else {
                            None
                        },
                        None => None,
                    }
                } else {
                    None
                },
                None => None,
            },
            None => None,
        },
        None => None,
    }
}

/// A sequence of comments, front first.
pub open spec fn ser_comment_items(cs: Seq<CommentV>) -> Seq<char>
    decreases cs.len(),
{
    if cs.len() == 0 {
        Seq::empty()
    } else {
        ser_comment(cs.first()) + ser_comment_items(cs.drop_first())
    }
}

/// Reads `n` comments.
pub open spec fn de_comment_items(s: Seq<char>, n: nat) -> Option<(Seq<CommentV>, Seq<char>)>
    decreases n,
{
    if n == 0 {
        Some((Seq::empty(), s))
    } else {
        match de_comment(s) {
            Some((c, s1)) => match de_comment_items(s1, (n - 1) as nat) {
                Some((rest_items, s2)) => Some((seq![c] + rest_items, s2)),
                None => None,
            },
            None => None,
        }
    }
}

/// Article metadata: date, author, url, feed name.
pub open spec fn ser_meta(m: ArticleMetaV) -> Seq<char> {
    ser_opt_str(m.published_date) + ser_opt_str(m.author) + ser_opt_str(m.url) + ser_str(
        m.feed_name,
    )
}

/// Reads article metadata.
pub open spec fn de_meta(s: Seq<char>) -> Option<(ArticleMetaV, Seq<char>)> {
    match de_opt_str(s) {
        Some((d, s1)) => match de_opt_str(s1) {
            Some((a, s2)) => match de_opt_str(s2) {
                Some((u, s3)) => match de_str(s3) {
                    Some((f, s4)) => Some(
                        (
                            ArticleMetaV {
                                published_date: d,
                                author: a,
                                url: u,
                                feed_name: f,
                            },
                            s4,
                        ),
                    ),
                    None => None,
                },
                None => None,
            },
            None => None,
        },
        None => None,
    }
}

/// One article: title, metadata, comments and body blocks.
pub open spec fn ser_article(a: ArticleV) -> Seq<char> {
    ser_str(a.title) + ser_meta(a.metadata) + ser_num(a.comments.len() as nat)
        + ser_comment_items(a.comments) + ser_blocks(a.content)
}

/// Reads one article.
pub open spec fn de_article(s: Seq<char>) -> Option<(ArticleV, Seq<char>)> {
    match de_str(s) {
        Some((title, s1)) => match de_meta(s1) {
            Some((metadata, s2)) => match de_num(s2) {
                Some((n, s3)) => match de_comment_items(s3, n) {
                    Some((comments, s4)) => match de_blocks(s4) {
                        Some((content, s5)) => Some(
                            (ArticleV { title, metadata, comments, content }, s5),
                        ),
                        None => None,
                    },
                    None => None,
                },
                None => None,
            },
            None => None,
        },
        None => None,
    }
}

/// A sequence of articles, front first.
pub open spec fn ser_article_items(arts: Seq<ArticleV>) -> Seq<char>
    decreases arts.len(),
{
    if arts.len() == 0 {
        Seq::empty()
    } else {
        ser_article(arts.first()) + ser_article_items(arts.drop_first())
    }
}

/// Reads `n` articles.
pub open spec fn de_article_items(s: Seq<char>, n: nat) -> Option<(Seq<ArticleV>, Seq<char>)>
    decreases n,
{
    if n == 0 {
        Some((Seq::empty(), s))
    } else {
        match de_article(s) {
            Some((a, s1)) => match de_article_items(s1, (n - 1) as nat) {
                Some((rest_items, s2)) => Some((seq![a] + rest_items, s2)),
                None => None,
            },
            None => None,
        }
    }
}

/// One feed: name, description, url, articles.
pub open spec fn ser_feed(f: FeedV) -> Seq<char> {
    ser_str(f.name) + ser_opt_str(f.description) + ser_opt_str(f.url) + ser_num(
        f.articles.len() as nat,
    ) + ser_article_items(f.articles)
}

/// Reads one feed.
pub open spec fn de_feed(s: Seq<char>) -> Option<(FeedV, Seq<char>)> {
    match de_str(s) {
        Some((name, s1)) => match de_opt_str(s1) {
            Some((description, s2)) => match de_opt_str(s2) {
                Some((url, s3)) => match de_num(s3) {
                    Some((n, s4)) => match de_article_items(s4, n) {
                        Some((articles, s5)) => Some(
                            (FeedV { name, description, url, articles }, s5),
                        ),
                        None => None,
                    },
                    None => None,
                },
                None => None,
            },
            None => None,
        },
        None => None,
    }
}

/// A sequence of feeds, front first.
pub open spec fn ser_feed_items(fs: Seq<FeedV>) -> Seq<char>
    decreases fs.len(),
{
    if fs.len() == 0 {
        Seq::empty()
    } else {
        ser_feed(fs.first()) + ser_feed_items(fs.drop_first())
    }
}

/// Reads `n` feeds.
pub open spec fn de_feed_items(s: Seq<char>, n: nat) -> Option<(Seq<FeedV>, Seq<char>)>
    decreases n,
{
    if n == 0 {
        Some((Seq::empty(), s))
    } else {
        match de_feed(s) {
            Some((f, s1)) => match de_feed_items(s1, (n - 1) as nat) {
                Some((rest_items, s2)) => Some((seq![f] + rest_items, s2)),
                None => None,
            },
            None => None,
        }
    }
}

/// Document metadata: title, author, description, generation time.
pub open spec fn ser_docmeta(m: DocMetaV) -> Seq<char> {
    ser_str(m.title) + ser_str(m.author) + ser_opt_str(m.description) + ser_str(m.generated_at)
}

/// Reads document metadata.
pub open spec fn de_docmeta(s: Seq<char>) -> Option<(DocMetaV, Seq<char>)> {
    match de_str(s) {
        Some((t, s1)) => match de_str(s1) {
            Some((a, s2)) => match de_opt_str(s2) {
                Some((d, s3)) => match de_str(s3) {
                    Some((g, s4)) => Some(
                        (
                            DocMetaV {
                                title: t,
                                author: a,
                                description: d,
                                generated_at: g,
                            },
                            s4,
                        ),
                    ),
                    None => None,
                },
                None => None,
            },
            None => None,
        },
        None => None,
    }
}

/// The whole document: metadata, the optional front page, the feeds.
pub open spec fn ser_document(d: DocumentV) -> Seq<char> {
    ser_docmeta(d.metadata) + (match d.front_page {
        None => seq!['0'],
        Some(bs) => seq!['1'] + ser_blocks(bs),
    }) + ser_num(d.feeds.len() as nat) + ser_feed_items(d.feeds)
}

/// Reads a whole document.
pub open spec fn de_document(s: Seq<char>) -> Option<(DocumentV, Seq<char>)> {
    match de_docmeta(s) {
        Some((metadata, s1)) => {
            let fp = if s1.len() >= 1 && s1[0] == '0' {
                Some((None::<Seq<BlockV>>, s1.drop_first()))
            } else if s1.len() >= 1 && s1[0] == '1' {
                match de_blocks(s1.drop_first()) {
                    Some((bs, r)) => Some((Some(bs), r)),
                    None => None,
                }
            } else {
                None
            };
            match fp {
                Some((front_page, s2)) => match de_num(s2) {
                    Some((n, s3)) => match de_feed_items(s3, n) {
                        Some((feeds, s4)) => Some((DocumentV { metadata, front_page, feeds }, s4)),
                        None => None,
                    },
                    None => None,
                },
                None => None,
            }
        },
        None => None,
    }
}

// ===== Well-formed values =====

/// Every string and list a machine value can hold fits the codec's size
/// headers.
pub open spec fn wf_opt_str(o: Option<Seq<char>>) -> bool {
    match o {
        Some(t) => t.len() <= u64::MAX,
        None => true,
    }
}

pub open spec fn wf_span(sp: SpanV) -> bool {
    sp.text.len() <= u64::MAX && wf_opt_str(sp.formatting.link)
}

pub open spec fn wf_text(t: TextV) -> bool {
    t.spans.len() <= u64::MAX && forall|i: int| 0 <= i < t.spans.len() ==> wf_span(
        #[trigger] t.spans[i],
    )
}

pub open spec fn wf_block(b: BlockV) -> bool {
    match b {
        BlockV::Paragraph(c) => wf_text(c),
        BlockV::Heading { level, content } => wf_text(content),
        BlockV::List { ordered, items } => items.len() <= u64::MAX && forall|i: int|
            0 <= i < items.len() ==> wf_text(#[trigger] items[i]),
        BlockV::Quote(c) => wf_text(c),
        BlockV::Code { language, content } => wf_opt_str(language) && content.len() <= u64::MAX,
        BlockV::Link { url, text } => url.len() <= u64::MAX && text.len() <= u64::MAX,
        BlockV::Image { url, alt } => url.len() <= u64::MAX && wf_opt_str(alt),
        BlockV::Raw(s) => s.len() <= u64::MAX,
    }
}

pub open spec fn wf_blocks(bs: Seq<BlockV>) -> bool {
    bs.len() <= u64::MAX && forall|i: int| 0 <= i < bs.len() ==> wf_block(#[trigger] bs[i])
}

pub open spec fn wf_comment(c: CommentV) -> bool {
    c.author.len() <= u64::MAX && wf_blocks(c.content) && wf_opt_str(c.timestamp)
}

pub open spec fn wf_meta(m: ArticleMetaV) -> bool {
    wf_opt_str(m.published_date) && wf_opt_str(m.author) && wf_opt_str(m.url) && m.feed_name.len()
        <= u64::MAX
}

pub open spec fn wf_article(a: ArticleV) -> bool {
    a.title.len() <= u64::MAX && wf_meta(a.metadata) && a.comments.len() <= u64::MAX && (forall|
        i: int,
    | 0 <= i < a.comments.len() ==> wf_comment(#[trigger] a.comments[i])) && wf_blocks(a.content)
}

pub open spec fn wf_feed(f: FeedV) -> bool {
    f.name.len() <= u64::MAX && wf_opt_str(f.description) && wf_opt_str(f.url) && f.articles.len()
        <= u64::MAX && forall|i: int| 0 <= i < f.articles.len() ==> wf_article(
        #[trigger] f.articles[i],
    )
}

pub open spec fn wf_docmeta(m: DocMetaV) -> bool {
    m.title.len() <= u64::MAX && m.author.len() <= u64::MAX && wf_opt_str(m.description)
        && m.generated_at.len() <= u64::MAX
}

pub open spec fn wf_document(d: DocumentV) -> bool {
    wf_docmeta(d.metadata) && (match d.front_page {
        Some(bs) => wf_blocks(bs),
        None => true,
    }) && d.feeds.len() <= u64::MAX && forall|i: int| 0 <= i < d.feeds.len() ==> wf_feed(
        #[trigger] d.feeds[i],
    )
}

// ===== Round-trip lemmas =====

pub proof fn lemma_rt_opt_str(o: Option<Seq<char>>, rest: Seq<char>)
    requires
        wf_opt_str(o),
    ensures
        de_opt_str(ser_opt_str(o) + rest) == Some((o, rest)),
{
    match o {
        None => {
            let s = ser_opt_str(o) + rest;
            assert(s[0] == '0');
            assert(s.drop_first() =~= rest);
        },
        Some(t) => {
            let s = ser_opt_str(o) + rest;
            assert(s[0] == '1');
            assert(s.drop_first() =~= ser_str(t) + rest);
            lemma_rt_str(t, rest);
        },
    }
}

pub proof fn lemma_rt_fmt(f: FormattingV, rest: Seq<char>)
    requires
        wf_opt_str(f.link),
    ensures
        de_fmt(ser_fmt(f) + rest) == Some((f, rest)),
{
    let s = ser_fmt(f) + rest;
    let r1 = ser_bool(f.italic) + (ser_bool(f.code) + (ser_opt_str(f.link) + rest));
    assert(s =~= ser_bool(f.bold) + r1);
    lemma_rt_bool(f.bold, r1);
    let r2 = ser_bool(f.code) + (ser_opt_str(f.link) + rest);
    lemma_rt_bool(f.italic, r2);
    let r3 = ser_opt_str(f.link) + rest;
    lemma_rt_bool(f.code, r3);
    lemma_rt_opt_str(f.link, rest);
}

pub proof fn lemma_rt_span(sp: SpanV, rest: Seq<char>)
    requires
        wf_span(sp),
    ensures
        de_span(ser_span(sp) + rest) == Some((sp, rest)),
{
    let s = ser_span(sp) + rest;
    assert(s =~= ser_str(sp.text) + (ser_fmt(sp.formatting) + rest));
    lemma_rt_str(sp.text, ser_fmt(sp.formatting) + rest);
    lemma_rt_fmt(sp.formatting, rest);
}

#[verifier::rlimit(100)]
#[verifier::spinoff_prover]
pub proof fn lemma_rt_span_items(ss: Seq<SpanV>, rest: Seq<char>)
    requires
        forall|i: int| 0 <= i < ss.len() ==> wf_span(#[trigger] ss[i]),
    ensures
        de_span_items(ser_span_items(ss) + rest, ss.len() as nat) == Some((ss, rest)),
    decreases ss.len(),
{
    if ss.len() == 0 {
        assert(ser_span_items(ss) + rest =~= rest);
        assert(de_span_items(rest, 0) == Some((Seq::<SpanV>::empty(), rest)));
        assert(ss =~= Seq::<SpanV>::empty());
    } else {
        let s = ser_span_items(ss) + rest;
        assert(s =~= ser_span(ss.first()) + (ser_span_items(ss.drop_first()) + rest));
        lemma_rt_span(ss.first(), ser_span_items(ss.drop_first()) + rest);
        assert(forall|i: int| 0 <= i < ss.drop_first().len() ==> wf_span(
            #[trigger] ss.drop_first()[i],
        ));
        lemma_rt_span_items(ss.drop_first(), rest);
        assert(seq![ss.first()] + ss.drop_first() =~= ss);
    }
}

pub proof fn lemma_rt_text(t: TextV, rest: Seq<char>)
    requires
        wf_text(t),
    ensures
        de_text(ser_text(t) + rest) == Some((t, rest)),
{
    let s = ser_text(t) + rest;
    assert(s =~= ser_num(t.spans.len() as nat) + (ser_span_items(t.spans) + rest));
    lemma_rt_num(t.spans.len() as nat, ser_span_items(t.spans) + rest);
    lemma_rt_span_items(t.spans, rest);
}

#[verifier::rlimit(100)]
#[verifier::spinoff_prover]
pub proof fn lemma_rt_text_items(ts: Seq<TextV>, rest: Seq<char>)
    requires
        forall|i: int| 0 <= i < ts.len() ==> wf_text(#[trigger] ts[i]),
    ensures
        de_text_items(ser_text_items(ts) + rest, ts.len() as nat) == Some((ts, rest)),
    decreases ts.len(),
{
    if ts.len() == 0 {
        assert(ser_text_items(ts) + rest =~= rest);
        assert(ts =~= Seq::<TextV>::empty());
    } else {
        let s = ser_text_items(ts) + rest;
        assert(s =~= ser_text(ts.first()) + (ser_text_items(ts.drop_first()) + rest));
        lemma_rt_text(ts.first(), ser_text_items(ts.drop_first()) + rest);
        assert(forall|i: int| 0 <= i < ts.drop_first().len() ==> wf_text(
            #[trigger] ts.drop_first()[i],
        ));
        lemma_rt_text_items(ts.drop_first(), rest);
        assert(seq![ts.first()] + ts.drop_first() =~= ts);
    }
}

#[verifier::rlimit(100)]
#[verifier::spinoff_prover]
pub proof fn lemma_rt_block(b: BlockV, rest: Seq<char>)
    requires
        wf_block(b),
    ensures
        de_block(ser_block(b) + rest) == Some((b, rest)),
{
    let s = ser_block(b) + rest;
    match b {
        BlockV::Paragraph(c) => {
            assert(s[0] == 'p');
            assert(s.drop_first() =~= ser_text(c) + rest);
            lemma_rt_text(c, rest);
        },
        BlockV::Heading { level, content } => {
            assert(s[0] == 'h');
            assert(s.drop_first() =~= ser_num(level as nat) + (ser_text(content) + rest));
            lemma_rt_num(level as nat, ser_text(content) + rest);
            lemma_rt_text(content, rest);
        },
        BlockV::List { ordered, items } => {
            assert(s[0] == 'l');
            assert(s.drop_first() =~= ser_bool(ordered) + (ser_num(items.len() as nat)
                + (ser_text_items(items) + rest)));
            lemma_rt_bool(ordered, ser_num(items.len() as nat) + (ser_text_items(items) + rest));
            lemma_rt_num(items.len() as nat, ser_text_items(items) + rest);
            lemma_rt_text_items(items, rest);
        },
        BlockV::Quote(c) => {
            assert(s[0] == 'q');
            assert(s.drop_first() =~= ser_text(c) + rest);
            lemma_rt_text(c, rest);
        },
        BlockV::Code { language, content } => {
            assert(s[0] == 'c');
            assert(s.drop_first() =~= ser_opt_str(language) + (ser_str(content) + rest));
            lemma_rt_opt_str(language, ser_str(content) + rest);
            lemma_rt_str(content, rest);
        },
        BlockV::Link { url, text } => {
            assert(s[0] == 'k');
            assert(s.drop_first() =~= ser_str(url) + (ser_str(text) + rest));
            lemma_rt_str(url, ser_str(text) + rest);
            lemma_rt_str(text, rest);
        },
        BlockV::Image { url, alt } => {
            assert(s[0] == 'i');
            assert(s.drop_first() =~= ser_str(url) + (ser_opt_str(alt) + rest));
            lemma_rt_str(url, ser_opt_str(alt) + rest);
            lemma_rt_opt_str(alt, rest);
        },
        BlockV::Raw(t) => {
            assert(s[0] == 'r');
            assert(s.drop_first() =~= ser_str(t) + rest);
            lemma_rt_str(t, rest);
        },
    }
}

#[verifier::rlimit(100)]
#[verifier::spinoff_prover]
pub proof fn lemma_rt_block_items(bs: Seq<BlockV>, rest: Seq<char>)
    requires
        forall|i: int| 0 <= i < bs.len() ==> wf_block(#[trigger] bs[i]),
    ensures
        de_block_items(ser_block_items(bs) + rest, bs.len() as nat) == Some((bs, rest)),
    decreases bs.len(),
{
    if bs.len() == 0 {
        assert(ser_block_items(bs) + rest =~= rest);
        assert(bs =~= Seq::<BlockV>::empty());
    } else {
        let s = ser_block_items(bs) + rest;
        assert(s =~= ser_block(bs.first()) + (ser_block_items(bs.drop_first()) + rest));
        lemma_rt_block(bs.first(), ser_block_items(bs.drop_first()) + rest);
        assert(forall|i: int| 0 <= i < bs.drop_first().len() ==> wf_block(
            #[trigger] bs.drop_first()[i],
        ));
        lemma_rt_block_items(bs.drop_first(), rest);
        assert(seq![bs.first()] + bs.drop_first() =~= bs);
    }
}

pub proof fn lemma_rt_blocks(bs: Seq<BlockV>, rest: Seq<char>)
    requires
        wf_blocks(bs),
    ensures
        de_blocks(ser_blocks(bs) + rest) == Some((bs, rest)),
{
    let s = ser_blocks(bs) + rest;
    assert(s =~= ser_num(bs.len() as nat) + (ser_block_items(bs) + rest));
    lemma_rt_num(bs.len() as nat, ser_block_items(bs) + rest);
    lemma_rt_block_items(bs, rest);
}

#[verifier::rlimit(100)]
#[verifier::spinoff_prover]
pub proof fn lemma_rt_comment(c: CommentV, rest: Seq<char>)
    requires
        wf_comment(c),
    ensures
        de_comment(ser_comment(c) + rest) == Some((c, rest)),
{
    let s = ser_comment(c) + rest;
    let r1 = ser_blocks(c.content) + (ser_num(c.upvotes as nat) + (ser_num(c.downvotes as nat)
        + (ser_opt_str(c.timestamp) + rest)));
    assert(s =~= ser_str(c.author) + r1);
    lemma_rt_str(c.author, r1);
    lemma_rt_blocks(c.content, ser_num(c.upvotes as nat) + (ser_num(c.downvotes as nat)
        + (ser_opt_str(c.timestamp) + rest)));
    lemma_rt_num(c.upvotes as nat, ser_num(c.downvotes as nat) + (ser_opt_str(c.timestamp)
        + rest));
    lemma_rt_num(c.downvotes as nat, ser_opt_str(c.timestamp) + rest);
    lemma_rt_opt_str(c.timestamp, rest);
}

#[verifier::rlimit(100)]
#[verifier::spinoff_prover]
pub proof fn lemma_rt_comment_items(cs: Seq<CommentV>, rest: Seq<char>)
    requires
        forall|i: int| 0 <= i < cs.len() ==> wf_comment(#[trigger] cs[i]),
    ensures
        de_comment_items(ser_comment_items(cs) + rest, cs.len() as nat) == Some((cs, rest)),
    decreases cs.len(),
{
    if cs.len() == 0 {
        assert(ser_comment_items(cs) + rest =~= rest);
        assert(cs =~= Seq::<CommentV>::empty());
    } else {
        let s = ser_comment_items(cs) + rest;
        assert(s =~= ser_comment(cs.first()) + (ser_comment_items(cs.drop_first()) + rest));
        lemma_rt_comment(cs.first(), ser_comment_items(cs.drop_first()) + rest);
        assert(forall|i: int| 0 <= i < cs.drop_first().len() ==> wf_comment(
            #[trigger] cs.drop_first()[i],
        ));
        lemma_rt_comment_items(cs.drop_first(), rest);
        assert(seq![cs.first()] + cs.drop_first() =~= cs);
    }
}

#[verifier::rlimit(100)]
#[verifier::spinoff_prover]
pub proof fn lemma_rt_meta(m: ArticleMetaV, rest: Seq<char>)
    requires
        wf_meta(m),
    ensures
        de_meta(ser_meta(m) + rest) == Some((m, rest)),
{
    let s = ser_meta(m) + rest;
    assert(s =~= ser_opt_str(m.published_date) + (ser_opt_str(m.author) + (ser_opt_str(m.url)
        + (ser_str(m.feed_name) + rest))));
    lemma_rt_opt_str(m.published_date, ser_opt_str(m.author) + (ser_opt_str(m.url) + (ser_str(
        m.feed_name,
    ) + rest)));
    lemma_rt_opt_str(m.author, ser_opt_str(m.url) + (ser_str(m.feed_name) + rest));
    lemma_rt_opt_str(m.url, ser_str(m.feed_name) + rest);
    lemma_rt_str(m.feed_name, rest);
}

#[verifier::rlimit(100)]
#[verifier::spinoff_prover]
pub proof fn lemma_rt_article(a: ArticleV, rest: Seq<char>)
    requires
        wf_article(a),
    ensures
        de_article(ser_article(a) + rest) == Some((a, rest)),
{
    let s = ser_article(a) + rest;
    assert(s =~= ser_str(a.title) + (ser_meta(a.metadata) + (ser_num(a.comments.len() as nat)
        + (ser_comment_items(a.comments) + (ser_blocks(a.content) + rest)))));
    lemma_rt_str(a.title, ser_meta(a.metadata) + (ser_num(a.comments.len() as nat)
        + (ser_comment_items(a.comments) + (ser_blocks(a.content) + rest))));
    lemma_rt_meta(a.metadata, ser_num(a.comments.len() as nat) + (ser_comment_items(a.comments)
        + (ser_blocks(a.content) + rest)));
    lemma_rt_num(a.comments.len() as nat, ser_comment_items(a.comments) + (ser_blocks(a.content)
        + rest));
    lemma_rt_comment_items(a.comments, ser_blocks(a.content) + rest);
    lemma_rt_blocks(a.content, rest);
}

#[verifier::rlimit(100)]
#[verifier::spinoff_prover]
pub proof fn lemma_rt_article_items(arts: Seq<ArticleV>, rest: Seq<char>)
    requires
        forall|i: int| 0 <= i < arts.len() ==> wf_article(#[trigger] arts[i]),
    ensures
        de_article_items(ser_article_items(arts) + rest, arts.len() as nat) == Some((arts, rest)),
    decreases arts.len(),
{
    if arts.len() == 0 {
        assert(ser_article_items(arts) + rest =~= rest);
        assert(arts =~= Seq::<ArticleV>::empty());
    } else {
        let first = arts.first();
        let tail = arts.drop_first();
        let tailrest = ser_article_items(tail) + rest;
        assert(ser_article_items(arts) + rest =~= ser_article(first) + tailrest);
        lemma_rt_article(first, tailrest);
        assert(de_article(ser_article_items(arts) + rest) == Some((first, tailrest)));
        assert forall|i: int| 0 <= i < tail.len() implies wf_article(#[trigger] tail[i]) by {
            assert(tail[i] == arts[i + 1]);
        }
        lemma_rt_article_items(tail, rest);
        assert(seq![first] + tail =~= arts);
        assert(de_article_items(ser_article_items(arts) + rest, arts.len() as nat) == Some(
            (arts, rest),
        ));
    }
}

#[verifier::rlimit(100)]
#[verifier::spinoff_prover]
pub proof fn lemma_rt_feed(f: FeedV, rest: Seq<char>)
    requires
        wf_feed(f),
    ensures
        de_feed(ser_feed(f) + rest) == Some((f, rest)),
{
    let s = ser_feed(f) + rest;
    assert(s =~= ser_str(f.name) + (ser_opt_str(f.description) + (ser_opt_str(f.url) + (ser_num(
        f.articles.len() as nat,
    ) + (ser_article_items(f.articles) + rest)))));
    lemma_rt_str(f.name, ser_opt_str(f.description) + (ser_opt_str(f.url) + (ser_num(
        f.articles.len() as nat,
    ) + (ser_article_items(f.articles) + rest))));
    lemma_rt_opt_str(f.description, ser_opt_str(f.url) + (ser_num(f.articles.len() as nat)
        + (ser_article_items(f.articles) + rest)));
    lemma_rt_opt_str(f.url, ser_num(f.articles.len() as nat) + (ser_article_items(f.articles)
        + rest));
    lemma_rt_num(f.articles.len() as nat, ser_article_items(f.articles) + rest);
    lemma_rt_article_items(f.articles, rest);
}

#[verifier::rlimit(100)]
#[verifier::spinoff_prover]
pub proof fn lemma_rt_feed_items(fs: Seq<FeedV>, rest: Seq<char>)
    requires
        forall|i: int| 0 <= i < fs.len() ==> wf_feed(#[trigger] fs[i]),
    ensures
        de_feed_items(ser_feed_items(fs) + rest, fs.len() as nat) == Some((fs, rest)),
    decreases fs.len(),
{
    if fs.len() == 0 {
        assert(ser_feed_items(fs) + rest =~= rest);
        assert(fs =~= Seq::<FeedV>::empty());
    } else {
        let s = ser_feed_items(fs) + rest;
        assert(s =~= ser_feed(fs.first()) + (ser_feed_items(fs.drop_first()) + rest));
        lemma_rt_feed(fs.first(), ser_feed_items(fs.drop_first()) + rest);
        assert(forall|i: int| 0 <= i < fs.drop_first().len() ==> wf_feed(
            #[trigger] fs.drop_first()[i],
        ));
        lemma_rt_feed_items(fs.drop_first(), rest);
        assert(seq![fs.first()] + fs.drop_first() =~= fs);
    }
}

#[verifier::rlimit(100)]
#[verifier::spinoff_prover]
pub proof fn lemma_rt_docmeta(m: DocMetaV, rest: Seq<char>)
    requires
        wf_docmeta(m),
    ensures
        de_docmeta(ser_docmeta(m) + rest) == Some((m, rest)),
{
    let s = ser_docmeta(m) + rest;
    assert(s =~= ser_str(m.title) + (ser_str(m.author) + (ser_opt_str(m.description) + (ser_str(
        m.generated_at,
    ) + rest))));
    lemma_rt_str(m.title, ser_str(m.author) + (ser_opt_str(m.description) + (ser_str(
        m.generated_at,
    ) + rest)));
    lemma_rt_str(m.author, ser_opt_str(m.description) + (ser_str(m.generated_at) + rest));
    lemma_rt_opt_str(m.description, ser_str(m.generated_at) + rest);
    lemma_rt_str(m.generated_at, rest);
}

/// The round trip: reading back a serialized document yields the same
/// value, whatever follows it in the input.
#[verifier::rlimit(100)]
#[verifier::spinoff_prover]
pub proof fn lemma_document_round_trip(d: DocumentV, rest: Seq<char>)
    requires
        wf_document(d),
    ensures
        de_document(ser_document(d) + rest) == Some((d, rest)),
{
    let fp_part = match d.front_page {
        None => seq!['0'],
        Some(bs) => seq!['1'] + ser_blocks(bs),
    };
    let s = ser_document(d) + rest;
    assert(s =~= ser_docmeta(d.metadata) + (fp_part + (ser_num(d.feeds.len() as nat)
        + (ser_feed_items(d.feeds) + rest))));
    lemma_rt_docmeta(d.metadata, fp_part + (ser_num(d.feeds.len() as nat) + (ser_feed_items(
        d.feeds,
    ) + rest)));
    let s1 = fp_part + (ser_num(d.feeds.len() as nat) + (ser_feed_items(d.feeds) + rest));
    match d.front_page {
        None => {
            assert(s1[0] == '0');
            assert(s1.drop_first() =~= ser_num(d.feeds.len() as nat) + (ser_feed_items(d.feeds)
                + rest));
        },
        Some(bs) => {
            assert(s1[0] == '1');
            assert(s1.drop_first() =~= ser_blocks(bs) + (ser_num(d.feeds.len() as nat)
                + (ser_feed_items(d.feeds) + rest)));
            lemma_rt_blocks(bs, ser_num(d.feeds.len() as nat) + (ser_feed_items(d.feeds) + rest));
        },
    }
    lemma_rt_num(d.feeds.len() as nat, ser_feed_items(d.feeds) + rest);
    lemma_rt_feed_items(d.feeds, rest);
}

/// The round trip on exactly the serialized text: nothing is left over.
pub proof fn lemma_document_round_trip_exact(d: DocumentV)
    requires
        wf_document(d),
    ensures
        de_document(ser_document(d)) == Some((d, Seq::<char>::empty())),
{
    lemma_document_round_trip(d, Seq::empty());
    assert(ser_document(d) + Seq::<char>::empty() =~= ser_document(d));
}

// ===== Serialization: executable =====

proof fn lemma_ser_span_items_snoc(ss: Seq<SpanV>, x: SpanV)
    ensures
        ser_span_items(ss.push(x)) == ser_span_items(ss) + ser_span(x),
    decreases ss.len(),
{
    if ss.len() == 0 {
        assert(ss.push(x).first() == x);
        assert(ss.push(x).drop_first() =~= Seq::<SpanV>::empty());
        assert(ser_span_items(Seq::<SpanV>::empty()) =~= Seq::<char>::empty());
        assert(ser_span_items(ss.push(x)) == ser_span(x) + ser_span_items(
            Seq::<SpanV>::empty(),
        ));
        assert(ser_span_items(ss.push(x)) =~= ser_span_items(ss) + ser_span(x));
    } else {
        assert(ss.push(x).first() == ss.first());
        assert(ss.push(x).drop_first() =~= ss.drop_first().push(x));
        lemma_ser_span_items_snoc(ss.drop_first(), x);
        assert(ser_span_items(ss.push(x)) == ser_span(ss.first()) + ser_span_items(
            ss.drop_first().push(x),
        ));
        assert(ser_span_items(ss.push(x)) =~= ser_span_items(ss) + ser_span(x));
    }
}

proof fn lemma_ser_text_items_snoc(ts: Seq<TextV>, x: TextV)
    ensures
        ser_text_items(ts.push(x)) == ser_text_items(ts) + ser_text(x),
    decreases ts.len(),
{
    if ts.len() == 0 {
        assert(ts.push(x).first() == x);
        assert(ts.push(x).drop_first() =~= Seq::<TextV>::empty());
        assert(ser_text_items(Seq::<TextV>::empty()) =~= Seq::<char>::empty());
        assert(ser_text_items(ts.push(x)) == ser_text(x) + ser_text_items(
            Seq::<TextV>::empty(),
        ));
        assert(ser_text_items(ts.push(x)) =~= ser_text_items(ts) + ser_text(x));
    } else {
        assert(ts.push(x).first() == ts.first());
        assert(ts.push(x).drop_first() =~= ts.drop_first().push(x));
        lemma_ser_text_items_snoc(ts.drop_first(), x);
        assert(ser_text_items(ts.push(x)) == ser_text(ts.first()) + ser_text_items(
            ts.drop_first().push(x),
        ));
        assert(ser_text_items(ts.push(x)) =~= ser_text_items(ts) + ser_text(x));
    }
}

proof fn lemma_ser_block_items_snoc(bs: Seq<BlockV>, x: BlockV)
    ensures
        ser_block_items(bs.push(x)) == ser_block_items(bs) + ser_block(x),
    decreases bs.len(),
{
    if bs.len() == 0 {
        assert(bs.push(x).first() == x);
        assert(bs.push(x).drop_first() =~= Seq::<BlockV>::empty());
        assert(ser_block_items(Seq::<BlockV>::empty()) =~= Seq::<char>::empty());
        assert(ser_block_items(bs.push(x)) == ser_block(x) + ser_block_items(
            Seq::<BlockV>::empty(),
        ));
        assert(ser_block_items(bs.push(x)) =~= ser_block_items(bs) + ser_block(x));
    } else {
        assert(bs.push(x).first() == bs.first());
        assert(bs.push(x).drop_first() =~= bs.drop_first().push(x));
        lemma_ser_block_items_snoc(bs.drop_first(), x);
        assert(ser_block_items(bs.push(x)) == ser_block(bs.first()) + ser_block_items(
            bs.drop_first().push(x),
        ));
        assert(ser_block_items(bs.push(x)) =~= ser_block_items(bs) + ser_block(x));
    }
}

proof fn lemma_ser_comment_items_snoc(cs: Seq<CommentV>, x: CommentV)
    ensures
        ser_comment_items(cs.push(x)) == ser_comment_items(cs) + ser_comment(x),
    decreases cs.len(),
{
    if cs.len() == 0 {
        assert(cs.push(x).first() == x);
        assert(cs.push(x).drop_first() =~= Seq::<CommentV>::empty());
        assert(ser_comment_items(Seq::<CommentV>::empty()) =~= Seq::<char>::empty());
        assert(ser_comment_items(cs.push(x)) == ser_comment(x) + ser_comment_items(
            Seq::<CommentV>::empty(),
        ));
        assert(ser_comment_items(cs.push(x)) =~= ser_comment_items(cs) + ser_comment(x));
    } else {
        assert(cs.push(x).first() == cs.first());
        assert(cs.push(x).drop_first() =~= cs.drop_first().push(x));
        lemma_ser_comment_items_snoc(cs.drop_first(), x);
        assert(ser_comment_items(cs.push(x)) == ser_comment(cs.first()) + ser_comment_items(
            cs.drop_first().push(x),
        ));
        assert(ser_comment_items(cs.push(x)) =~= ser_comment_items(cs) + ser_comment(x));
    }
}

proof fn lemma_ser_article_items_snoc(arts: Seq<ArticleV>, x: ArticleV)
    ensures
        ser_article_items(arts.push(x)) == ser_article_items(arts) + ser_article(x),
    decreases arts.len(),
{
    if arts.len() == 0 {
        assert(arts.push(x).first() == x);
        assert(arts.push(x).drop_first() =~= Seq::<ArticleV>::empty());
        assert(ser_article_items(Seq::<ArticleV>::empty()) =~= Seq::<char>::empty());
        assert(ser_article_items(arts.push(x)) == ser_article(x) + ser_article_items(
            Seq::<ArticleV>::empty(),
        ));
        assert(ser_article_items(arts.push(x)) =~= ser_article_items(arts) + ser_article(x));
    } else {
        assert(arts.push(x).first() == arts.first());
        assert(arts.push(x).drop_first() =~= arts.drop_first().push(x));
        lemma_ser_article_items_snoc(arts.drop_first(), x);
        assert(ser_article_items(arts.push(x)) == ser_article(arts.first()) + ser_article_items(
            arts.drop_first().push(x),
        ));
        assert(ser_article_items(arts.push(x)) =~= ser_article_items(arts) + ser_article(x));
    }
}

proof fn lemma_ser_feed_items_snoc(fs: Seq<FeedV>, x: FeedV)
    ensures
        ser_feed_items(fs.push(x)) == ser_feed_items(fs) + ser_feed(x),
    decreases fs.len(),
{
    if fs.len() == 0 {
        assert(fs.push(x).first() == x);
        assert(fs.push(x).drop_first() =~= Seq::<FeedV>::empty());
        assert(ser_feed_items(Seq::<FeedV>::empty()) =~= Seq::<char>::empty());
        assert(ser_feed_items(fs.push(x)) == ser_feed(x) + ser_feed_items(
            Seq::<FeedV>::empty(),
        ));
        assert(ser_feed_items(fs.push(x)) =~= ser_feed_items(fs) + ser_feed(x));
    } else {
        assert(fs.push(x).first() == fs.first());
        assert(fs.push(x).drop_first() =~= fs.drop_first().push(x));
        lemma_ser_feed_items_snoc(fs.drop_first(), x);
        assert(ser_feed_items(fs.push(x)) == ser_feed(fs.first()) + ser_feed_items(
            fs.drop_first().push(x),
        ));
        assert(ser_feed_items(fs.push(x)) =~= ser_feed_items(fs) + ser_feed(x));
    }
}

/// Writes an optional string.
fn write_opt_str(out: &mut Vec<char>, o: &Option<String>)
    ensures
        final(out)@ == old(out)@ + ser_opt_str(crate::ast::opt_str_view(*o)),
        wf_opt_str(crate::ast::opt_str_view(*o)),
{
    match o {
        None => {
            out.push('0');
            proof {
                assert(out@ =~= old(out)@ + ser_opt_str(None));
            }
        },
        Some(t) => {
            out.push('1');
            let ghost mid = out@;
            write_str(out, t.as_str());
            proof {
                assert(t@.len() <= usize::MAX);
                assert(out@ =~= old(out)@ + ser_opt_str(Some(t@)));
            }
        },
    }
}

/// Writes a formatting value.
fn write_fmt(out: &mut Vec<char>, f: &crate::ast::TextFormatting)
    ensures
        final(out)@ == old(out)@ + ser_fmt(f@),
        wf_opt_str(f@.link),
{
    write_bool(out, f.bold);
    write_bool(out, f.italic);
    write_bool(out, f.code);
    write_opt_str(out, &f.link);
    proof {
        assert(out@ =~= old(out)@ + ser_fmt(f@));
    }
}

/// Writes one span.
fn write_span(out: &mut Vec<char>, sp: &crate::ast::TextSpan)
    ensures
        final(out)@ == old(out)@ + ser_span(sp@),
        wf_span(sp@),
{
    write_str(out, sp.text.as_str());
    write_fmt(out, &sp.formatting);
    proof {
        assert(sp.text@.len() <= usize::MAX);
        assert(out@ =~= old(out)@ + ser_span(sp@));
    }
}

/// Writes a text content value.
fn write_text(out: &mut Vec<char>, t: &crate::ast::TextContent)
    ensures
        final(out)@ == old(out)@ + ser_text(t@),
        wf_text(t@),
{
    write_num(out, t.spans.len() as u64);
    let ghost base = out@;
    let mut i: usize = 0;
    proof {
        assert(t@.spans.take(0) =~= Seq::<SpanV>::empty());
        assert(base + ser_span_items(t@.spans.take(0)) =~= base);
    }
    while i < t.spans.len()
        invariant
            i <= t.spans.len(),
            t@.spans.len() == t.spans@.len(),
            forall|j: int| 0 <= j < t.spans@.len() ==> t@.spans[j] == (
            #[trigger] t.spans@[j]).deep_view(),
            out@ == base + ser_span_items(t@.spans.take(i as int)),
            forall|j: int| 0 <= j < i ==> wf_span(#[trigger] t@.spans[j]),
        decreases t.spans.len() - i,
    {
        write_span(out, &t.spans[i]);
        proof {
            lemma_ser_span_items_snoc(t@.spans.take(i as int), t@.spans[i as int]);
            assert(t@.spans.take(i as int).push(t@.spans[i as int]) =~= t@.spans.take(i + 1));
        }
        i = i + 1;
    }
    proof {
        assert(t@.spans.take(t.spans@.len() as int) =~= t@.spans);
        assert(out@ =~= old(out)@ + ser_text(t@));
    }
}

/// Writes one block.
fn write_block(out: &mut Vec<char>, b: &crate::ast::ContentBlock)
    ensures
        final(out)@ == old(out)@ + ser_block(b.deep_view()),
        wf_block(b.deep_view()),
{
    match b {
        crate::ast::ContentBlock::Paragraph(c) => {
            out.push('p');
            let ghost mid = out@;
            write_text(out, c);
            proof {
                assert(out@ =~= old(out)@ + ser_block(b.deep_view()));
            }
        },
        crate::ast::ContentBlock::Heading { level, content } => {
            out.push('h');
            write_num(out, *level as u64);
            write_text(out, content);
            proof {
                assert(out@ =~= old(out)@ + ser_block(b.deep_view()));
            }
        },
        crate::ast::ContentBlock::List { ordered, items } => {
            out.push('l');
            write_bool(out, *ordered);
            write_num(out, items.len() as u64);
            let ghost base = out@;
            let ghost iv = items.deep_view();
            let mut i: usize = 0;
            proof {
                assert(iv.take(0) =~= Seq::<TextV>::empty());
                assert(base + ser_text_items(iv.take(0)) =~= base);
            }
            while i < items.len()
                invariant
                    i <= items.len(),
                    iv == items.deep_view(),
                    iv.len() == items@.len(),
                    forall|j: int| 0 <= j < items@.len() ==> iv[j] == (
                    #[trigger] items@[j]).deep_view(),
                    out@ == base + ser_text_items(iv.take(i as int)),
                    forall|j: int| 0 <= j < i ==> wf_text(#[trigger] iv[j]),
                decreases items.len() - i,
            {
                write_text(out, &items[i]);
                proof {
                    lemma_ser_text_items_snoc(iv.take(i as int), iv[i as int]);
                    assert(iv.take(i as int).push(iv[i as int]) =~= iv.take(i + 1));
                }
                i = i + 1;
            }
            proof {
                assert(iv.take(items@.len() as int) =~= iv);
                assert(out@ =~= old(out)@ + ser_block(b.deep_view()));
            }
        },
        crate::ast::ContentBlock::Quote(c) => {
            out.push('q');
            write_text(out, c);
            proof {
                assert(out@ =~= old(out)@ + ser_block(b.deep_view()));
            }
        },
        crate::ast::ContentBlock::Code { language, content } => {
            out.push('c');
            write_opt_str(out, language);
            write_str(out, content.as_str());
            proof {
                assert(content@.len() <= usize::MAX);
                assert(out@ =~= old(out)@ + ser_block(b.deep_view()));
            }
        },
        crate::ast::ContentBlock::Link { url, text } => {
            out.push('k');
            write_str(out, url.as_str());
            write_str(out, text.as_str());
            proof {
                assert(url@.len() <= usize::MAX);
                assert(text@.len() <= usize::MAX);
                assert(out@ =~= old(out)@ + ser_block(b.deep_view()));
            }
        },
        crate::ast::ContentBlock::Image { url, alt } => {
            out.push('i');
            write_str(out, url.as_str());
            write_opt_str(out, alt);
            proof {
                assert(url@.len() <= usize::MAX);
                assert(out@ =~= old(out)@ + ser_block(b.deep_view()));
            }
        },
        crate::ast::ContentBlock::Raw(s) => {
            out.push('r');
            write_str(out, s.as_str());
            proof {
                assert(s@.len() <= usize::MAX);
                assert(out@ =~= old(out)@ + ser_block(b.deep_view()));
            }
        },
    }
}

/// Writes a block list with its count.
fn write_blocks(out: &mut Vec<char>, bs: &Vec<crate::ast::ContentBlock>)
    ensures
        final(out)@ == old(out)@ + ser_blocks(bs.deep_view()),
        wf_blocks(bs.deep_view()),
{
    write_num(out, bs.len() as u64);
    let ghost base = out@;
    let ghost bv = bs.deep_view();
    let mut i: usize = 0;
    proof {
        assert(bv.take(0) =~= Seq::<BlockV>::empty());
        assert(base + ser_block_items(bv.take(0)) =~= base);
    }
    while i < bs.len()
        invariant
            i <= bs.len(),
            bv == bs.deep_view(),
            bv.len() == bs@.len(),
            forall|j: int| 0 <= j < bs@.len() ==> bv[j] == (#[trigger] bs@[j]).deep_view(),
            out@ == base + ser_block_items(bv.take(i as int)),
            forall|j: int| 0 <= j < i ==> wf_block(#[trigger] bv[j]),
        decreases bs.len() - i,
    {
        write_block(out, &bs[i]);
        proof {
            lemma_ser_block_items_snoc(bv.take(i as int), bv[i as int]);
            assert(bv.take(i as int).push(bv[i as int]) =~= bv.take(i + 1));
        }
        i = i + 1;
    }
    proof {
        assert(bv.take(bs@.len() as int) =~= bv);
        assert(out@ =~= old(out)@ + ser_blocks(bv));
    }
}

/// Writes one comment.
fn write_comment(out: &mut Vec<char>, c: &crate::ast::Comment)
    ensures
        final(out)@ == old(out)@ + ser_comment(c@),
        wf_comment(c@),
{
    write_str(out, c.author.as_str());
    write_blocks(out, &c.content);
    write_num(out, c.upvotes as u64);
    write_num(out, c.downvotes as u64);
    write_opt_str(out, &c.timestamp);
    proof {
        assert(c.author@.len() <= usize::MAX);
        assert(out@ =~= old(out)@ + ser_comment(c@));
    }
}

/// Writes article metadata.
fn write_meta(out: &mut Vec<char>, m: &crate::ast::ArticleMetadata)
    ensures
        final(out)@ == old(out)@ + ser_meta(m@),
        wf_meta(m@),
{
    write_opt_str(out, &m.published_date);
    write_opt_str(out, &m.author);
    write_opt_str(out, &m.url);
    write_str(out, m.feed_name.as_str());
    proof {
        assert(m.feed_name@.len() <= usize::MAX);
        assert(out@ =~= old(out)@ + ser_meta(m@));
    }
}

/// Writes one article.
fn write_article(out: &mut Vec<char>, a: &crate::ast::Article)
    ensures
        final(out)@ == old(out)@ + ser_article(a@),
        wf_article(a@),
{
    write_str(out, a.title.as_str());
    write_meta(out, &a.metadata);
    write_num(out, a.comments.len() as u64);
    let ghost base = out@;
    let ghost cv = a.comments.deep_view();
    let mut i: usize = 0;
    proof {
        assert(cv.take(0) =~= Seq::<CommentV>::empty());
        assert(base + ser_comment_items(cv.take(0)) =~= base);
    }
    while i < a.comments.len()
        invariant
            i <= a.comments.len(),
            cv == a.comments.deep_view(),
            cv.len() == a.comments@.len(),
            forall|j: int| 0 <= j < a.comments@.len() ==> cv[j] == (
            #[trigger] a.comments@[j]).deep_view(),
            out@ == base + ser_comment_items(cv.take(i as int)),
            forall|j: int| 0 <= j < i ==> wf_comment(#[trigger] cv[j]),
        decreases a.comments.len() - i,
    {
        write_comment(out, &a.comments[i]);
        proof {
            lemma_ser_comment_items_snoc(cv.take(i as int), cv[i as int]);
            assert(cv.take(i as int).push(cv[i as int]) =~= cv.take(i + 1));
        }
        i = i + 1;
    }
    proof {
        assert(cv.take(a.comments@.len() as int) =~= cv);
    }
    write_blocks(out, &a.content);
    proof {
        assert(a.title@.len() <= usize::MAX);
        assert(out@ =~= old(out)@ + ser_article(a@));
    }
}

/// Writes one feed.
fn write_feed(out: &mut Vec<char>, f: &crate::ast::Feed)
    ensures
        final(out)@ == old(out)@ + ser_feed(f@),
        wf_feed(f@),
{
    write_str(out, f.name.as_str());
    write_opt_str(out, &f.description);
    write_opt_str(out, &f.url);
    write_num(out, f.articles.len() as u64);
    let ghost base = out@;
    let ghost av = f.articles.deep_view();
    let mut i: usize = 0;
    proof {
        assert(av.take(0) =~= Seq::<ArticleV>::empty());
        assert(base + ser_article_items(av.take(0)) =~= base);
    }
    while i < f.articles.len()
        invariant
            i <= f.articles.len(),
            av == f.articles.deep_view(),
            av.len() == f.articles@.len(),
            forall|j: int| 0 <= j < f.articles@.len() ==> av[j] == (
            #[trigger] f.articles@[j]).deep_view(),
            out@ == base + ser_article_items(av.take(i as int)),
            forall|j: int| 0 <= j < i ==> wf_article(#[trigger] av[j]),
        decreases f.articles.len() - i,
    {
        write_article(out, &f.articles[i]);
        proof {
            lemma_ser_article_items_snoc(av.take(i as int), av[i as int]);
            assert(av.take(i as int).push(av[i as int]) =~= av.take(i + 1));
        }
        i = i + 1;
    }
    proof {
        assert(av.take(f.articles@.len() as int) =~= av);
        assert(f.name@.len() <= usize::MAX);
        assert(out@ =~= old(out)@ + ser_feed(f@));
    }
}

/// Writes document metadata.
fn write_docmeta(out: &mut Vec<char>, m: &crate::ast::DocumentMetadata)
    ensures
        final(out)@ == old(out)@ + ser_docmeta(m@),
        wf_docmeta(m@),
{
    write_str(out, m.title.as_str());
    write_str(out, m.author.as_str());
    write_opt_str(out, &m.description);
    write_str(out, m.generated_at.as_str());
    proof {
        assert(m.title@.len() <= usize::MAX);
        assert(m.author@.len() <= usize::MAX);
        assert(m.generated_at@.len() <= usize::MAX);
        assert(out@ =~= old(out)@ + ser_docmeta(m@));
    }
}

/// Serializes a whole document to its interchange text.
pub fn serialize_document(document: &crate::ast::Document) -> (r: String)
    ensures
        r@ == ser_document(document@),
        wf_document(document@),
{
    let mut out: Vec<char> = Vec::new();
    write_docmeta(&mut out, &document.metadata);
    match &document.front_page {
        None => {
            out.push('0');
        },
        Some(bs) => {
            out.push('1');
            write_blocks(&mut out, bs);
        },
    }
    write_num(&mut out, document.feeds.len() as u64);
    let ghost base = out@;
    let ghost fv = document.feeds.deep_view();
    let mut i: usize = 0;
    proof {
        assert(fv.take(0) =~= Seq::<FeedV>::empty());
        assert(base + ser_feed_items(fv.take(0)) =~= base);
    }
    while i < document.feeds.len()
        invariant
            i <= document.feeds.len(),
            fv == document.feeds.deep_view(),
            fv.len() == document.feeds@.len(),
            forall|j: int| 0 <= j < document.feeds@.len() ==> fv[j] == (
            #[trigger] document.feeds@[j]).deep_view(),
            out@ == base + ser_feed_items(fv.take(i as int)),
            forall|j: int| 0 <= j < i ==> wf_feed(#[trigger] fv[j]),
        decreases document.feeds.len() - i,
    {
        write_feed(&mut out, &document.feeds[i]);
        proof {
            lemma_ser_feed_items_snoc(fv.take(i as int), fv[i as int]);
            assert(fv.take(i as int).push(fv[i as int]) =~= fv.take(i + 1));
        }
        i = i + 1;
    }
    proof {
        assert(fv.take(document.feeds@.len() as int) =~= fv);
        assert(out@ =~= ser_document(document@));
    }
    crate::strs::chars_to_string(out)
}

// ===== Deserialization: executable =====

/// Reads an optional string at `pos`.
fn read_opt_str(v: &Vec<char>, pos: usize) -> (r: Option<(Option<String>, usize)>)
    requires
        pos <= v@.len(),
    ensures
        match r {
            Some(p) => de_opt_str(v@.skip(pos as int)) == Some(
                (crate::ast::opt_str_view(p.0), v@.skip(p.1 as int)),
            ) && pos <= p.1 <= v@.len(),
            None => de_opt_str(v@.skip(pos as int)) is None,
        },
{
    let ghost rest = v@.skip(pos as int);
    proof {
        if rest.len() >= 1 {
            assert(rest[0] == v@[pos as int]);
            assert(rest.drop_first() =~= v@.skip(pos + 1));
        }
    }
    if pos < v.len() && v[pos] == '0' {
        Some((None, pos + 1))
    } else if pos < v.len() && v[pos] == '1' {
        match read_str(v, pos + 1) {
            Some((t, p1)) => Some((Some(t), p1)),
            None => None,
        }
    } else {
        None
    }
}

/// Reads a formatting value at `pos`.
fn read_fmt(v: &Vec<char>, pos: usize) -> (r: Option<(crate::ast::TextFormatting, usize)>)
    requires
        pos <= v@.len(),
    ensures
        match r {
            Some(p) => de_fmt(v@.skip(pos as int)) == Some((p.0@, v@.skip(p.1 as int))) && pos
                <= p.1 <= v@.len(),
            None => de_fmt(v@.skip(pos as int)) is None,
        },
{
    match read_bool(v, pos) {
        Some((b, p1)) => match read_bool(v, p1) {
            Some((i, p2)) => match read_bool(v, p2) {
                Some((c, p3)) => match read_opt_str(v, p3) {
                    Some((l, p4)) => Some(
                        (crate::ast::TextFormatting { bold: b, italic: i, code: c, link: l }, p4),
                    ),
                    None => None,
                },
                None => None,
            },
            None => None,
        },
        None => None,
    }
}

/// Reads one span at `pos`.
fn read_span(v: &Vec<char>, pos: usize) -> (r: Option<(crate::ast::TextSpan, usize)>)
    requires
        pos <= v@.len(),
    ensures
        match r {
            Some(p) => de_span(v@.skip(pos as int)) == Some((p.0@, v@.skip(p.1 as int))) && pos
                <= p.1 <= v@.len(),
            None => de_span(v@.skip(pos as int)) is None,
        },
{
    match read_str(v, pos) {
        Some((t, p1)) => match read_fmt(v, p1) {
            Some((f, p2)) => Some((crate::ast::TextSpan { text: t, formatting: f }, p2)),
            None => None,
        },
        None => None,
    }
}

/// Reads `n` spans at `pos`.
fn read_span_items(v: &Vec<char>, pos: usize, n: u64) -> (r: Option<
    (Vec<crate::ast::TextSpan>, usize),
>)
    requires
        pos <= v@.len(),
    ensures
        match r {
            Some(p) => de_span_items(v@.skip(pos as int), n as nat) == Some(
                (p.0.deep_view(), v@.skip(p.1 as int)),
            ) && pos <= p.1 <= v@.len(),
            None => de_span_items(v@.skip(pos as int), n as nat) is None,
        },
    decreases n,
{
    if n == 0 {
        let items: Vec<crate::ast::TextSpan> = Vec::new();
        proof {
            assert(items.deep_view() =~= Seq::<SpanV>::empty());
        }
        Some((items, pos))
    } else {
        match read_span(v, pos) {
            Some((sp, p1)) => match read_span_items(v, p1, n - 1) {
                Some((tail, p2)) => {
                    let ghost tail_view = tail.deep_view();
                    let mut items = tail;
                    items.insert(0, sp);
                    proof {
                        assert(items.deep_view() =~= seq![sp.deep_view()] + tail_view);
                    }
                    Some((items, p2))
                },
                None => None,
            },
            None => None,
        }
    }
}

/// Reads a text content value at `pos`.
fn read_text(v: &Vec<char>, pos: usize) -> (r: Option<(crate::ast::TextContent, usize)>)
    requires
        pos <= v@.len(),
    ensures
        match r {
            Some(p) => de_text(v@.skip(pos as int)) == Some((p.0@, v@.skip(p.1 as int))) && pos
                <= p.1 <= v@.len(),
            None => de_text(v@.skip(pos as int)) is None,
        },
{
    match read_num(v, pos) {
        Some((n, p1)) => match read_span_items(v, p1, n) {
            Some((spans, p2)) => Some((crate::ast::TextContent { spans }, p2)),
            None => None,
        },
        None => None,
    }
}

/// Reads `n` text contents at `pos`.
fn read_text_items(v: &Vec<char>, pos: usize, n: u64) -> (r: Option<
    (Vec<crate::ast::TextContent>, usize),
>)
    requires
        pos <= v@.len(),
    ensures
        match r {
            Some(p) => de_text_items(v@.skip(pos as int), n as nat) == Some(
                (p.0.deep_view(), v@.skip(p.1 as int)),
            ) && pos <= p.1 <= v@.len(),
            None => de_text_items(v@.skip(pos as int), n as nat) is None,
        },
    decreases n,
{
    if n == 0 {
        let items: Vec<crate::ast::TextContent> = Vec::new();
        proof {
            assert(items.deep_view() =~= Seq::<TextV>::empty());
        }
        Some((items, pos))
    } else {
        match read_text(v, pos) {
            Some((t, p1)) => match read_text_items(v, p1, n - 1) {
                Some((tail, p2)) => {
                    let ghost tail_view = tail.deep_view();
                    let mut items = tail;
                    items.insert(0, t);
                    proof {
                        assert(items.deep_view() =~= seq![items@[0].deep_view()] + tail_view);
                    }
                    Some((items, p2))
                },
                None => None,
            },
            None => None,
        }
    }
}

/// Reads one block at `pos`.
fn read_block(v: &Vec<char>, pos: usize) -> (r: Option<(crate::ast::ContentBlock, usize)>)
    requires
        pos <= v@.len(),
    ensures
        match r {
            Some(p) => de_block(v@.skip(pos as int)) == Some(
                (p.0.deep_view(), v@.skip(p.1 as int)),
            ) && pos <= p.1 <= v@.len(),
            None => de_block(v@.skip(pos as int)) is None,
        },
{
    let ghost rest = v@.skip(pos as int);
    if pos >= v.len() {
        return None;
    }
    proof {
        assert(rest[0] == v@[pos as int]);
        assert(rest.drop_first() =~= v@.skip(pos + 1));
    }
    let tag = v[pos];
    let body = pos + 1;
    if tag == 'p' {
        match read_text(v, body) {
            Some((c, p1)) => Some((crate::ast::ContentBlock::Paragraph(c), p1)),
            None => None,
        }
    } else if tag == 'h' {
        match read_num(v, body) {
            Some((lv, p1)) => if lv <= u8::MAX as u64 {
                match read_text(v, p1) {
                    Some((c, p2)) => Some(
                        (crate::ast::ContentBlock::Heading { level: lv as u8, content: c }, p2),
                    ),
                    None => None,
                }
            } else {
                None
            },
            None => None,
        }
    } else if tag == 'l' {
        match read_bool(v, body) {
            Some((o, p1)) => match read_num(v, p1) {
                Some((n, p2)) => match read_text_items(v, p2, n) {
                    Some((items, p3)) => Some(
                        (crate::ast::ContentBlock::List { ordered: o, items }, p3),
                    ),
                    None => None,
                },
                None => None,
            },
            None => None,
        }
    } else if tag == 'q' {
        match read_text(v, body) {
            Some((c, p1)) => Some((crate::ast::ContentBlock::Quote(c), p1)),
            None => None,
        }
    } else if tag == 'c' {
        match read_opt_str(v, body) {
            Some((l, p1)) => match read_str(v, p1) {
                Some((c, p2)) => Some(
                    (crate::ast::ContentBlock::Code { language: l, content: c }, p2),
                ),
                None => None,
            },
            None => None,
        }
    } else if tag == 'k' {
        match read_str(v, body) {
            Some((u, p1)) => match read_str(v, p1) {
                Some((t, p2)) => Some((crate::ast::ContentBlock::Link { url: u, text: t }, p2)),
                None => None,
            },
            None => None,
        }
    } else if tag == 'i' {
        match read_str(v, body) {
            Some((u, p1)) => match read_opt_str(v, p1) {
                Some((a, p2)) => Some((crate::ast::ContentBlock::Image { url: u, alt: a }, p2)),
                None => None,
            },
            None => None,
        }
    } else if tag == 'r' {
        match read_str(v, body) {
            Some((t, p1)) => Some((crate::ast::ContentBlock::Raw(t), p1)),
            None => None,
        }
    } else {
        None
    }
}

/// Reads `n` blocks at `pos`.
fn read_block_items(v: &Vec<char>, pos: usize, n: u64) -> (r: Option<
    (Vec<crate::ast::ContentBlock>, usize),
>)
    requires
        pos <= v@.len(),
    ensures
        match r {
            Some(p) => de_block_items(v@.skip(pos as int), n as nat) == Some(
                (p.0.deep_view(), v@.skip(p.1 as int)),
            ) && pos <= p.1 <= v@.len(),
            None => de_block_items(v@.skip(pos as int), n as nat) is None,
        },
    decreases n,
{
    if n == 0 {
        let items: Vec<crate::ast::ContentBlock> = Vec::new();
        proof {
            assert(items.deep_view() =~= Seq::<BlockV>::empty());
        }
        Some((items, pos))
    } else {
        match read_block(v, pos) {
            Some((b, p1)) => match read_block_items(v, p1, n - 1) {
                Some((tail, p2)) => {
                    let ghost tail_view = tail.deep_view();
                    let mut items = tail;
                    items.insert(0, b);
                    proof {
                        assert(items.deep_view() =~= seq![items@[0].deep_view()] + tail_view);
                    }
                    Some((items, p2))
                },
                None => None,
            },
            None => None,
        }
    }
}

/// Reads a counted block list at `pos`.
fn read_blocks(v: &Vec<char>, pos: usize) -> (r: Option<(Vec<crate::ast::ContentBlock>, usize)>)
    requires
        pos <= v@.len(),
    ensures
        match r {
            Some(p) => de_blocks(v@.skip(pos as int)) == Some(
                (p.0.deep_view(), v@.skip(p.1 as int)),
            ) && pos <= p.1 <= v@.len(),
            None => de_blocks(v@.skip(pos as int)) is None,
        },
{
    match read_num(v, pos) {
        Some((n, p1)) => read_block_items(v, p1, n),
        None => None,
    }
}

/// Reads one comment at `pos`.
fn read_comment(v: &Vec<char>, pos: usize) -> (r: Option<(crate::ast::Comment, usize)>)
    requires
        pos <= v@.len(),
    ensures
        match r {
            Some(p) => de_comment(v@.skip(pos as int)) == Some((p.0@, v@.skip(p.1 as int))) && pos
                <= p.1 <= v@.len(),
            None => de_comment(v@.skip(pos as int)) is None,
        },
{
    match read_str(v, pos) {
        Some((author, p1)) => match read_blocks(v, p1) {
            Some((content, p2)) => match read_num(v, p2) {
                Some((up, p3)) => if up <= u32::MAX as u64 {
                    match read_num(v, p3) {
                        Some((down, p4)) => if down <= u32::MAX as u64 {
                            match read_opt_str(v, p4) {
                                Some((ts, p5)) => Some(
                                    (
                                        crate::ast::Comment {
                                            author,
                                            content,
                                            upvotes: up as u32,
                                            downvotes: down as u32,
                                            timestamp: ts,
                                        },
                                        p5,
                                    ),
                                ),
                                None => None,
                            }
                        } else {
                            None
                        },
                        None => None,
                    }
                } else {
                    None
                },
                None => None,
            },
            None => None,
        },
        None => None,
    }
}

/// Reads `n` comments at `pos`.
fn read_comment_items(v: &Vec<char>, pos: usize, n: u64) -> (r: Option<
    (Vec<crate::ast::Comment>, usize),
>)
    requires
        pos <= v@.len(),
    ensures
        match r {
            Some(p) => de_comment_items(v@.skip(pos as int), n as nat) == Some(
                (p.0.deep_view(), v@.skip(p.1 as int)),
            ) && pos <= p.1 <= v@.len(),
            None => de_comment_items(v@.skip(pos as int), n as nat) is None,
        },
    decreases n,
{
    if n == 0 {
        let items: Vec<crate::ast::Comment> = Vec::new();
        proof {
            assert(items.deep_view() =~= Seq::<CommentV>::empty());
        }
        Some((items, pos))
    } else {
        match read_comment(v, pos) {
            Some((c, p1)) => match read_comment_items(v, p1, n - 1) {
                Some((tail, p2)) => {
                    let ghost tail_view = tail.deep_view();
                    let mut items = tail;
                    items.insert(0, c);
                    proof {
                        assert(items.deep_view() =~= seq![items@[0].deep_view()] + tail_view);
                    }
                    Some((items, p2))
                },
                None => None,
            },
            None => None,
        }
    }
}

/// Reads article metadata at `pos`.
fn read_meta(v: &Vec<char>, pos: usize) -> (r: Option<(crate::ast::ArticleMetadata, usize)>)
    requires
        pos <= v@.len(),
    ensures
        match r {
            Some(p) => de_meta(v@.skip(pos as int)) == Some((p.0@, v@.skip(p.1 as int))) && pos
                <= p.1 <= v@.len(),
            None => de_meta(v@.skip(pos as int)) is None,
        },
{
    match read_opt_str(v, pos) {
        Some((d, p1)) => match read_opt_str(v, p1) {
            Some((a, p2)) => match read_opt_str(v, p2) {
                Some((u, p3)) => match read_str(v, p3) {
                    Some((f, p4)) => Some(
                        (
                            crate::ast::ArticleMetadata {
                                published_date: d,
                                author: a,
                                url: u,
                                feed_name: f,
                            },
                            p4,
                        ),
                    ),
                    None => None,
                },
                None => None,
            },
            None => None,
        },
        None => None,
    }
}

/// Reads one article at `pos`.
fn read_article(v: &Vec<char>, pos: usize) -> (r: Option<(crate::ast::Article, usize)>)
    requires
        pos <= v@.len(),
    ensures
        match r {
            Some(p) => de_article(v@.skip(pos as int)) == Some((p.0@, v@.skip(p.1 as int))) && pos
                <= p.1 <= v@.len(),
            None => de_article(v@.skip(pos as int)) is None,
        },
{
    match read_str(v, pos) {
        Some((title, p1)) => match read_meta(v, p1) {
            Some((metadata, p2)) => match read_num(v, p2) {
                Some((n, p3)) => match read_comment_items(v, p3, n) {
                    Some((comments, p4)) => match read_blocks(v, p4) {
                        Some((content, p5)) => Some(
                            (crate::ast::Article { title, metadata, comments, content }, p5),
                        ),
                        None => None,
                    },
                    None => None,
                },
                None => None,
            },
            None => None,
        },
        None => None,
    }
}

/// Reads `n` articles at `pos`.
fn read_article_items(v: &Vec<char>, pos: usize, n: u64) -> (r: Option<
    (Vec<crate::ast::Article>, usize),
>)
    requires
        pos <= v@.len(),
    ensures
        match r {
            Some(p) => de_article_items(v@.skip(pos as int), n as nat) == Some(
                (p.0.deep_view(), v@.skip(p.1 as int)),
            ) && pos <= p.1 <= v@.len(),
            None => de_article_items(v@.skip(pos as int), n as nat) is None,
        },
    decreases n,
{
    if n == 0 {
        let items: Vec<crate::ast::Article> = Vec::new();
        proof {
            assert(items.deep_view() =~= Seq::<ArticleV>::empty());
        }
        Some((items, pos))
    } else {
        match read_article(v, pos) {
            Some((a, p1)) => match read_article_items(v, p1, n - 1) {
                Some((tail, p2)) => {
                    let ghost tail_view = tail.deep_view();
                    let mut items = tail;
                    items.insert(0, a);
                    proof {
                        assert(items.deep_view() =~= seq![items@[0].deep_view()] + tail_view);
                    }
                    Some((items, p2))
                },
                None => None,
            },
            None => None,
        }
    }
}

/// Reads one feed at `pos`.
fn read_feed(v: &Vec<char>, pos: usize) -> (r: Option<(crate::ast::Feed, usize)>)
    requires
        pos <= v@.len(),
    ensures
        match r {
            Some(p) => de_feed(v@.skip(pos as int)) == Some((p.0@, v@.skip(p.1 as int))) && pos
                <= p.1 <= v@.len(),
            None => de_feed(v@.skip(pos as int)) is None,
        },
{
    match read_str(v, pos) {
        Some((name, p1)) => match read_opt_str(v, p1) {
            Some((description, p2)) => match read_opt_str(v, p2) {
                Some((url, p3)) => match read_num(v, p3) {
                    Some((n, p4)) => match read_article_items(v, p4, n) {
                        Some((articles, p5)) => Some(
                            (crate::ast::Feed { name, description, url, articles }, p5),
                        ),
                        None => None,
                    },
                    None => None,
                },
                None => None,
            },
            None => None,
        },
        None => None,
    }
}

/// Reads `n` feeds at `pos`.
fn read_feed_items(v: &Vec<char>, pos: usize, n: u64) -> (r: Option<
    (Vec<crate::ast::Feed>, usize),
>)
    requires
        pos <= v@.len(),
    ensures
        match r {
            Some(p) => de_feed_items(v@.skip(pos as int), n as nat) == Some(
                (p.0.deep_view(), v@.skip(p.1 as int)),
            ) && pos <= p.1 <= v@.len(),
            None => de_feed_items(v@.skip(pos as int), n as nat) is None,
        },
    decreases n,
{
    if n == 0 {
        let items: Vec<crate::ast::Feed> = Vec::new();
        proof {
            assert(items.deep_view() =~= Seq::<FeedV>::empty());
        }
        Some((items, pos))
    } else {
        match read_feed(v, pos) {
            Some((f, p1)) => match read_feed_items(v, p1, n - 1) {
                Some((tail, p2)) => {
                    let ghost tail_view = tail.deep_view();
                    let mut items = tail;
                    items.insert(0, f);
                    proof {
                        assert(items.deep_view() =~= seq![items@[0].deep_view()] + tail_view);
                    }
                    Some((items, p2))
                },
                None => None,
            },
            None => None,
        }
    }
}

/// Reads document metadata at `pos`.
fn read_docmeta(v: &Vec<char>, pos: usize) -> (r: Option<(crate::ast::DocumentMetadata, usize)>)
    requires
        pos <= v@.len(),
    ensures
        match r {
            Some(p) => de_docmeta(v@.skip(pos as int)) == Some((p.0@, v@.skip(p.1 as int))) && pos
                <= p.1 <= v@.len(),
            None => de_docmeta(v@.skip(pos as int)) is None,
        },
{
    match read_str(v, pos) {
        Some((t, p1)) => match read_str(v, p1) {
            Some((a, p2)) => match read_opt_str(v, p2) {
                Some((d, p3)) => match read_str(v, p3) {
                    Some((g, p4)) => Some(
                        (
                            crate::ast::DocumentMetadata {
                                title: t,
                                author: a,
                                description: d,
                                generated_at: g,
                            },
                            p4,
                        ),
                    ),
                    None => None,
                },
                None => None,
            },
            None => None,
        },
        None => None,
    }
}

/// Reads a whole document at `pos`.
fn read_document(v: &Vec<char>, pos: usize) -> (r: Option<(crate::ast::Document, usize)>)
    requires
        pos <= v@.len(),
    ensures
        match r {
            Some(p) => de_document(v@.skip(pos as int)) == Some((p.0@, v@.skip(p.1 as int)))
                && pos <= p.1 <= v@.len(),
            None => de_document(v@.skip(pos as int)) is None,
        },
{
    match read_docmeta(v, pos) {
        Some((metadata, p1)) => {
            let ghost s1 = v@.skip(p1 as int);
            proof {
                if s1.len() >= 1 {
                    assert(s1[0] == v@[p1 as int]);
                    assert(s1.drop_first() =~= v@.skip(p1 + 1));
                }
            }
            if p1 < v.len() && v[p1] == '0' {
                match read_num(v, p1 + 1) {
                    Some((n, p2)) => match read_feed_items(v, p2, n) {
                        Some((feeds, p3)) => Some(
                            (
                                crate::ast::Document { metadata, front_page: None, feeds },
                                p3,
                            ),
                        ),
                        None => None,
                    },
                    None => None,
                }
            } else if p1 < v.len() && v[p1] == '1' {
                match read_blocks(v, p1 + 1) {
                    Some((bs, p2)) => match read_num(v, p2) {
                        Some((n, p3)) => match read_feed_items(v, p3, n) {
                            Some((feeds, p4)) => Some(
                                (
                                    crate::ast::Document {
                                        metadata,
                                        front_page: Some(bs),
                                        feeds,
                                    },
                                    p4,
                                ),
                            ),
                            None => None,
                        },
                        None => None,
                    },
                    None => None,
                }
            } else {
                None
            }
        },
        None => None,
    }
}

// ===== The public interface =====

/// The hard error of the interchange boundary: stored document text that
/// does not decode.
#[derive(Debug, Clone, Copy, PartialEq, Eq, Structural)]
pub enum SerializationError {
    /// The text is not a well-formed document encoding.
    Malformed,
    /// A document was read but text follows it.
    TrailingData,
}

impl SerializationError {
    /// A short description, for callers that report the failure.
    pub fn message(&self) -> (r: &'static str)
        ensures
            *self == SerializationError::Malformed ==> r@ == "malformed document encoding"@,
            *self == SerializationError::TrailingData ==> r@
                == "unexpected data after document encoding"@,
    {
        match self {
            SerializationError::Malformed => "malformed document encoding",
            SerializationError::TrailingData => "unexpected data after document encoding",
        }
    }
}

/// Parses interchange text back into a document.  Succeeds exactly when
/// the text is one well-formed document encoding with nothing after it.
pub fn deserialize_document(s: &str) -> (r: Result<
    crate::ast::Document,
    SerializationError,
>)
    ensures
        match r {
            Ok(d) => de_document(s@) == Some((d@, Seq::<char>::empty())),
            Err(e) => match de_document(s@) {
                None => e == SerializationError::Malformed,
                Some(p) => p.1.len() > 0 && e == SerializationError::TrailingData,
            },
        },
{
    let v = crate::strs::str_to_chars(s);
    proof {
        assert(v@.skip(0) =~= s@);
    }
    match read_document(&v, 0) {
        Some((d, p)) => {
            if p == v.len() {
                proof {
                    assert(v@.skip(p as int) =~= Seq::<char>::empty());
                }
                Ok(d)
            } else {
                proof {
                    assert(v@.skip(p as int).len() > 0);
                }
                Err(SerializationError::TrailingData)
            }
        },
        None => Err(SerializationError::Malformed),
    }
}

} // verus!
