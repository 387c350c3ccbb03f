//! The HTML-to-model parser: classifies a lenient fragment parse into the
//! closed block and span model, with the documented fallback policy, and the
//! tag-stripping routine used by the whole-input fallback.

use crate::strs::{
    char_is_ws, chars_to_string, is_unicode_ws, push_chars, push_str_chars, seq_blank,
    str_is_blank, str_to_chars, trim_seq,
};
use vstd::prelude::*;

verus! {

// ===== Tag stripping: specification =====

/// Length of the prefix that holds no `'>'`.
pub open spec fn not_gt_run(s: Seq<char>) -> nat
    decreases s.len(),
{
    if s.len() == 0 {
        0
    } else if s[0] == '>' {
        0
    } else {
        (1 + not_gt_run(s.drop_first())) as nat
    }
}

proof fn lemma_not_gt_run(s: Seq<char>)
    ensures
        not_gt_run(s) <= s.len(),
        forall|j: int| 0 <= j < not_gt_run(s) ==> s[j] != '>',
        not_gt_run(s) < s.len() ==> s[not_gt_run(s) as int] == '>',
    decreases s.len(),
{
    if s.len() > 0 && s[0] != '>' {
        lemma_not_gt_run(s.drop_first());
        assert forall|j: int| 0 <= j < not_gt_run(s) implies s[j] != '>' by {
            if j > 0 {
                assert(s.drop_first()[j - 1] == s[j]);
            }
        }
        if not_gt_run(s) < s.len() {
            assert(s.drop_first()[not_gt_run(s) - 1] == s[not_gt_run(s) as int]);
        }
    }
}

/// The input with every maximal `<...>` group replaced by one space; a `<`
/// that no `>` ever follows stays as it is.
pub open spec fn strip_tags_spec(s: Seq<char>) -> Seq<char>
    decreases s.len(),
{
    if s.len() == 0 {
        Seq::empty()
    } else if s[0] == '<' {
        let k = not_gt_run(s.skip(1)) as int;
        if 1 + k < s.len() {
            seq![' '] + strip_tags_spec(s.skip(2 + k))
        } else {
            seq![s[0]] + strip_tags_spec(s.drop_first())
        }
    } else {
        seq![s[0]] + strip_tags_spec(s.drop_first())
    }
}

// ===== Entity decoding: specification =====

pub open spec fn is_dec_digit(c: char) -> bool {
    '0' <= c <= '9'
}

pub open spec fn is_hex_digit(c: char) -> bool {
    is_dec_digit(c) || 'a' <= c <= 'f' || 'A' <= c <= 'F'
}

pub open spec fn is_ascii_alpha(c: char) -> bool {
    'a' <= c <= 'z' || 'A' <= c <= 'Z'
}

pub open spec fn is_ascii_alnum(c: char) -> bool {
    is_ascii_alpha(c) || is_dec_digit(c)
}

/// Length of the prefix of decimal digits.
pub open spec fn dec_run(s: Seq<char>) -> nat
    decreases s.len(),
{
    if s.len() == 0 {
        0
    } else if is_dec_digit(s[0]) {
        (1 + dec_run(s.drop_first())) as nat
    } else {
        0
    }
}

/// Length of the prefix of hexadecimal digits.
pub open spec fn hex_run(s: Seq<char>) -> nat
    decreases s.len(),
{
    if s.len() == 0 {
        0
    } else if is_hex_digit(s[0]) {
        (1 + hex_run(s.drop_first())) as nat
    } else {
        0
    }
}

/// Length of the prefix of ASCII letters and digits.
pub open spec fn alnum_run(s: Seq<char>) -> nat
    decreases s.len(),
{
    if s.len() == 0 {
        0
    } else if is_ascii_alnum(s[0]) {
        (1 + alnum_run(s.drop_first())) as nat
    } else {
        0
    }
}

pub(crate) proof fn lemma_dec_run(s: Seq<char>)
    ensures
        dec_run(s) <= s.len(),
        forall|j: int| 0 <= j < dec_run(s) ==> is_dec_digit(s[j]),
        dec_run(s) < s.len() ==> !is_dec_digit(s[dec_run(s) as int]),
    decreases s.len(),
{
    if s.len() > 0 && is_dec_digit(s[0]) {
        lemma_dec_run(s.drop_first());
        assert forall|j: int| 0 <= j < dec_run(s) implies is_dec_digit(s[j]) by {
            if j > 0 {
                assert(s.drop_first()[j - 1] == s[j]);
            }
        }
        if dec_run(s) < s.len() {
            assert(s.drop_first()[dec_run(s) - 1] == s[dec_run(s) as int]);
        }
    }
}

proof fn lemma_hex_run(s: Seq<char>)
    ensures
        hex_run(s) <= s.len(),
        forall|j: int| 0 <= j < hex_run(s) ==> is_hex_digit(s[j]),
        hex_run(s) < s.len() ==> !is_hex_digit(s[hex_run(s) as int]),
    decreases s.len(),
{
    if s.len() > 0 && is_hex_digit(s[0]) {
        lemma_hex_run(s.drop_first());
        assert forall|j: int| 0 <= j < hex_run(s) implies is_hex_digit(s[j]) by {
            if j > 0 {
                assert(s.drop_first()[j - 1] == s[j]);
            }
        }
        if hex_run(s) < s.len() {
            assert(s.drop_first()[hex_run(s) - 1] == s[hex_run(s) as int]);
        }
    }
}

proof fn lemma_alnum_run(s: Seq<char>)
    ensures
        alnum_run(s) <= s.len(),
        forall|j: int| 0 <= j < alnum_run(s) ==> is_ascii_alnum(s[j]),
        alnum_run(s) < s.len() ==> !is_ascii_alnum(s[alnum_run(s) as int]),
    decreases s.len(),
{
    if s.len() > 0 && is_ascii_alnum(s[0]) {
        lemma_alnum_run(s.drop_first());
        assert forall|j: int| 0 <= j < alnum_run(s) implies is_ascii_alnum(s[j]) by {
            if j > 0 {
                assert(s.drop_first()[j - 1] == s[j]);
            }
        }
        if alnum_run(s) < s.len() {
            assert(s.drop_first()[alnum_run(s) - 1] == s[alnum_run(s) as int]);
        }
    }
}

/// The value of one decimal digit character.
pub open spec fn dec_digit_val(c: char) -> nat {
    (c as u32 - 48) as nat
}

/// The value of a run of decimal digit characters.
pub open spec fn dec_val(ds: Seq<char>) -> nat
    decreases ds.len(),
{
    if ds.len() == 0 {
        0
    } else {
        dec_val(ds.drop_last()) * 10 + dec_digit_val(ds.last())
    }
}

/// The value of one hexadecimal digit character.
pub open spec fn hex_digit_val(c: char) -> nat {
    if is_dec_digit(c) {
        (c as u32 - 48) as nat
    } else if 'a' <= c <= 'f' {
        (c as u32 - 87) as nat
    } else {
        (c as u32 - 55) as nat
    }
}

/// The value of a run of hexadecimal digit characters.
pub open spec fn hex_val(ds: Seq<char>) -> nat
    decreases ds.len(),
{
    if ds.len() == 0 {
        0
    } else {
        hex_val(ds.drop_last()) * 16 + hex_digit_val(ds.last())
    }
}

/// Whether a numeric value is a Unicode scalar value.
pub open spec fn valid_scalar(v: nat) -> bool {
    v < 0xD800 || (0xE000 <= v <= 0x10FFFF)
}

/// The character with a given scalar value, as char::from_u32 yields it.
pub uninterp spec fn scalar_char(v: u32) -> char;

/// Relies on char::from_u32: `Some` exactly for Unicode scalar values, and
/// the returned character has the given scalar value.
#[verifier::external_body]
fn char_from_u32(v: u32) -> (r: Option<char>)
    ensures
        r is Some <==> valid_scalar(v as nat),
        r is Some ==> r->0 == scalar_char(v) && r->0 as u32 == v,
{
    char::from_u32(v)
}

/// What a numeric character reference decodes to: the character itself for
/// a scalar value, a space otherwise.
pub open spec fn numeric_rep(v: nat) -> Seq<char> {
    if valid_scalar(v) {
        seq![scalar_char(v as u32)]
    } else {
        seq![' ']
    }
}

/// What a named entity reference decodes to: the five XML entities decode
/// to their characters, any other recognized name becomes a space.
pub open spec fn named_rep(name: Seq<char>) -> Seq<char> {
    if name =~= seq!['a', 'm', 'p'] {
        seq!['&']
    } else if name =~= seq!['l', 't'] {
        seq!['<']
    } else if name =~= seq!['g', 't'] {
        seq!['>']
    } else if name =~= seq!['q', 'u', 'o', 't'] {
        seq!['"']
    } else if name =~= seq!['a', 'p', 'o', 's'] {
        seq!['\'']
    } else {
        seq![' ']
    }
}

/// The replacement and consumed length of an entity reference starting at
/// the head of the sequence (which is `'&'`), if the head matches one.
pub open spec fn entity_rep(s: Seq<char>) -> Option<(Seq<char>, int)> {
    if s.len() >= 2 && s[1] == '#' {
        if s.len() >= 3 && s[2] == 'x' {
            let k = hex_run(s.skip(3)) as int;
            if k >= 1 && 3 + k < s.len() && s[3 + k] == ';' {
                Some((numeric_rep(hex_val(s.subrange(3, 3 + k))), 3 + k + 1))
            } else {
                None
            }
        } else {
            let k = dec_run(s.skip(2)) as int;
            if k >= 1 && 2 + k < s.len() && s[2 + k] == ';' {
                Some((numeric_rep(dec_val(s.subrange(2, 2 + k))), 2 + k + 1))
            } else {
                None
            }
        }
    } else if s.len() >= 2 && is_ascii_alpha(s[1]) {
        let k = 1 + alnum_run(s.skip(2)) as int;
        if 1 + k < s.len() && s[1 + k] == ';' {
            Some((named_rep(s.subrange(1, 1 + k)), 1 + k + 1))
        } else {
            None
        }
    } else {
        None
    }
}

/// The input with every entity reference decoded (the five XML names and
/// numeric character references) or, for other recognized names, replaced
/// by a space.  Anything that is not a well-formed reference stays.
pub open spec fn decode_entities_spec(s: Seq<char>) -> Seq<char>
    decreases s.len(),
{
    if s.len() == 0 {
        Seq::empty()
    } else if s[0] == '&' {
        match entity_rep(s) {
            Some((rep, k)) => if 2 <= k <= s.len() {
                rep + decode_entities_spec(s.skip(k))
            } else {
                seq![s[0]] + decode_entities_spec(s.drop_first())
            },
            None => seq![s[0]] + decode_entities_spec(s.drop_first()),
        }
    } else {
        seq![s[0]] + decode_entities_spec(s.drop_first())
    }
}

// ===== Whitespace collapsing: specification =====

/// Length of the prefix of non-whitespace characters.
pub open spec fn non_ws_run(s: Seq<char>) -> nat
    decreases s.len(),
{
    if s.len() == 0 {
        0
    } else if !is_unicode_ws(s[0]) {
        (1 + non_ws_run(s.drop_first())) as nat
    } else {
        0
    }
}

pub(crate) proof fn lemma_non_ws_run(s: Seq<char>)
    ensures
        non_ws_run(s) <= s.len(),
        forall|j: int| 0 <= j < non_ws_run(s) ==> !is_unicode_ws(s[j]),
        non_ws_run(s) < s.len() ==> is_unicode_ws(s[non_ws_run(s) as int]),
    decreases s.len(),
{
    if s.len() > 0 && !is_unicode_ws(s[0]) {
        lemma_non_ws_run(s.drop_first());
        assert forall|j: int| 0 <= j < non_ws_run(s) implies !is_unicode_ws(s[j]) by {
            if j > 0 {
                assert(s.drop_first()[j - 1] == s[j]);
            }
        }
        if non_ws_run(s) < s.len() {
            assert(s.drop_first()[non_ws_run(s) - 1] == s[non_ws_run(s) as int]);
        }
    }
}

/// The maximal non-whitespace runs of the input, in order.
pub open spec fn ws_tokens(s: Seq<char>) -> Seq<Seq<char>>
    decreases s.len(),
    via ws_tokens_dec
{
    if s.len() == 0 {
        Seq::empty()
    } else if is_unicode_ws(s[0]) {
        ws_tokens(s.drop_first())
    } else {
        let k = 1 + non_ws_run(s.skip(1)) as int;
        seq![s.subrange(0, k)] + ws_tokens(s.skip(k))
    }
}

#[via_fn]
proof fn ws_tokens_dec(s: Seq<char>) {
    if s.len() > 0 && !is_unicode_ws(s[0]) {
        lemma_non_ws_run(s.skip(1));
    }
}

/// Tokens joined by single spaces.
pub open spec fn join_space(ts: Seq<Seq<char>>) -> Seq<char>
    decreases ts.len(),
{
    if ts.len() == 0 {
        Seq::empty()
    } else if ts.len() == 1 {
        ts[0]
    } else {
        join_space(ts.drop_last()) + seq![' '] + ts.last()
    }
}

/// What tag stripping yields: tags replaced by spaces, entities decoded,
/// whitespace runs collapsed to single spaces, and the ends trimmed.
pub open spec fn strip_spec(s: Seq<char>) -> Seq<char> {
    join_space(ws_tokens(decode_entities_spec(strip_tags_spec(s))))
}

// ===== Tag stripping: executable =====

/// Replaces each maximal `<...>` group by one space.
fn strip_tags_chars(v: &Vec<char>) -> (r: Vec<char>)
    ensures
        r@ == strip_tags_spec(v@),
{
    let n = v.len();
    let mut out: Vec<char> = Vec::new();
    let mut pos: usize = 0;
    proof {
        assert(v@.skip(0) =~= v@);
    }
    while pos < n
        invariant
            n == v@.len(),
            pos <= n,
            strip_tags_spec(v@) == out@ + strip_tags_spec(v@.skip(pos as int)),
        decreases n - pos,
    {
        let ghost rest = v@.skip(pos as int);
        proof {
            assert(rest[0] == v@[pos as int]);
            assert(rest.drop_first() =~= v@.skip(pos + 1));
        }
        let c = v[pos];
        if c == '<' {
            // scan for the first '>' after pos
            let mut j: usize = pos + 1;
            while j < n && v[j] != '>'
                invariant
                    n == v@.len(),
                    pos + 1 <= j <= n,
                    forall|t: int| pos + 1 <= t < j ==> v@[t] != '>',
                decreases n - j,
            {
                j = j + 1;
            }
            proof {
                let tail = rest.skip(1);
                assert(tail =~= v@.skip(pos + 1));
                lemma_not_gt_run(tail);
                // the scan found exactly the run of non-'>' characters
                assert forall|t: int| 0 <= t < j - pos - 1 implies tail[t] != '>' by {
                    assert(tail[t] == v@[pos + 1 + t]);
                }
                if j < n {
                    assert(tail[j - pos - 1] == v@[j as int]);
                    if not_gt_run(tail) < j - pos - 1 {
                        assert(tail[not_gt_run(tail) as int] == '>');
                        assert(v@[pos + 1 + not_gt_run(tail)] != '>');
                    }
                    assert(not_gt_run(tail) == j - pos - 1);
                } else {
                    if not_gt_run(tail) < tail.len() {
                        assert(tail[not_gt_run(tail) as int] == '>');
                        assert(v@[pos + 1 + not_gt_run(tail)] != '>');
                    }
                    assert(not_gt_run(tail) == tail.len());
                }
            }
            if j < n {
                // a tag from pos to j inclusive: replace with one space
                out.push(' ');
                proof {
                    let k = not_gt_run(rest.skip(1)) as int;
                    assert(1 + k < rest.len());
                    assert(rest.skip(2 + k) =~= v@.skip(j + 1));
                    assert(strip_tags_spec(rest) == seq![' '] + strip_tags_spec(
                        v@.skip(j + 1),
                    ));
                    assert(out@ + strip_tags_spec(v@.skip(j + 1)) =~= (out@.drop_last()
                        + strip_tags_spec(rest)));
                }
                pos = j + 1;
            } else {
                // no closing '>': the '<' stays
                out.push('<');
                proof {
                    let k = not_gt_run(rest.skip(1)) as int;
                    assert(!(1 + k < rest.len()));
                    assert(strip_tags_spec(rest) == seq![rest[0]] + strip_tags_spec(
                        rest.drop_first(),
                    ));
                    assert(out@ + strip_tags_spec(v@.skip(pos + 1)) =~= out@.drop_last()
                        + strip_tags_spec(rest));
                }
                pos = pos + 1;
            }
        } else {
            out.push(c);
            proof {
                assert(strip_tags_spec(rest) == seq![rest[0]] + strip_tags_spec(
                    rest.drop_first(),
                ));
                assert(out@ + strip_tags_spec(v@.skip(pos + 1)) =~= out@.drop_last()
                    + strip_tags_spec(rest));
            }
            pos = pos + 1;
        }
    }
    proof {
        assert(v@.skip(n as int) =~= Seq::<char>::empty());
        assert(out@ + strip_tags_spec(Seq::<char>::empty()) =~= out@);
    }
    out
}

// ===== Entity decoding: executable =====

fn is_hex_digit_exec(c: char) -> (r: bool)
    ensures
        r == is_hex_digit(c),
{
    ('0' <= c && c <= '9') || ('a' <= c && c <= 'f') || ('A' <= c && c <= 'F')
}

pub(crate) fn is_dec_digit_exec(c: char) -> (r: bool)
    ensures
        r == is_dec_digit(c),
{
    '0' <= c && c <= '9'
}

fn is_ascii_alnum_exec(c: char) -> (r: bool)
    ensures
        r == is_ascii_alnum(c),
{
    ('a' <= c && c <= 'z') || ('A' <= c && c <= 'Z') || ('0' <= c && c <= '9')
}

fn hex_digit_val_exec(c: char) -> (r: u32)
    requires
        is_hex_digit(c),
    ensures
        r == hex_digit_val(c),
{
    if '0' <= c && c <= '9' {
        c as u32 - 48
    } else if 'a' <= c && c <= 'f' {
        c as u32 - 87
    } else {
        c as u32 - 55
    }
}

/// A saturation cap just above the largest scalar value.
const SCALAR_CAP: u32 = 0x110000;

/// The replacement characters of a numeric reference value.
fn numeric_rep_exec(capped: u32, ghost_val: Ghost<nat>) -> (r: Vec<char>)
    requires
        ghost_val@ <= 0x10FFFF ==> capped == ghost_val@,
        ghost_val@ > 0x10FFFF ==> capped > 0x10FFFF,
    ensures
        r@ == numeric_rep(ghost_val@),
{
    if capped > 0x10FFFF {
        let mut r: Vec<char> = Vec::new();
        r.push(' ');
        proof {
            assert(r@ =~= seq![' ']);
        }
        r
    } else {
        match char_from_u32(capped) {
            Some(c) => {
                let mut r: Vec<char> = Vec::new();
                r.push(c);
                proof {
                    assert(r@ =~= seq![scalar_char(capped)]);
                }
                r
            },
            None => {
                let mut r: Vec<char> = Vec::new();
                r.push(' ');
                proof {
                    assert(r@ =~= seq![' ']);
                }
                r
            },
        }
    }
}

/// Tries to read one entity reference starting at `pos` (which holds `'&'`).
/// Returns the replacement characters and the consumed length.
fn entity_at(v: &Vec<char>, pos: usize) -> (r: Option<(Vec<char>, usize)>)
    requires
        pos < v@.len(),
        v@[pos as int] == '&',
    ensures
        match r {
            Some(p) => entity_rep(v@.skip(pos as int)) == Some((p.0@, p.1 as int)) && 2 <= p.1
                && pos + p.1 <= v@.len(),
            None => entity_rep(v@.skip(pos as int)) is None,
        },
{
    let n = v.len();
    let ghost rest = v@.skip(pos as int);
    proof {
        assert(forall|t: int| 0 <= t < rest.len() ==> rest[t] == v@[pos + t]);
    }
    if pos + 1 < n && v[pos + 1] == '#' {
        if pos + 2 < n && v[pos + 2] == 'x' {
            // hexadecimal reference
            let mut j: usize = pos + 3;
            while j < n && is_hex_digit_exec(v[j])
                invariant
                    n == v@.len(),
                    pos + 3 <= j <= n,
                    forall|t: int| pos + 3 <= t < j ==> is_hex_digit(v@[t]),
                decreases n - j,
            {
                j = j + 1;
            }
            proof {
                let tail = rest.skip(3);
                assert(tail =~= v@.skip(pos + 3));
                lemma_hex_run(tail);
                assert forall|t: int| 0 <= t < j - pos - 3 implies is_hex_digit(tail[t]) by {
                    assert(tail[t] == v@[pos + 3 + t]);
                }
                if hex_run(tail) < j - pos - 3 {
                    assert(is_hex_digit(tail[hex_run(tail) as int]));
                }
                if j < n {
                    assert(tail[j - pos - 3] == v@[j as int]);
                    assert(hex_run(tail) == j - pos - 3);
                } else {
                    assert(hex_run(tail) == tail.len());
                }
            }
            if j > pos + 3 && j < n && v[j] == ';' {
                // value of the digits, saturating above the scalar range
                let mut val: u32 = 0;
                let mut t: usize = pos + 3;
                while t < j
                    invariant
                        n == v@.len(),
                        pos + 3 <= t <= j <= n,
                        rest == v@.skip(pos as int),
                        forall|u: int| pos + 3 <= u < j ==> is_hex_digit(v@[u]),
                        hex_val(rest.subrange(3, t - pos)) <= 0x10FFFF ==> val == hex_val(
                            rest.subrange(3, t - pos),
                        ),
                        hex_val(rest.subrange(3, t - pos)) > 0x10FFFF ==> (val > 0x10FFFF && val
                            <= SCALAR_CAP),
                    decreases j - t,
                {
                    let d = hex_digit_val_exec(v[t]);
                    proof {
                        assert(rest.subrange(3, t + 1 - pos).drop_last() =~= rest.subrange(
                            3,
                            t - pos,
                        ));
                        assert(rest.subrange(3, t + 1 - pos).last() == v@[t as int]);
                        assert(d < 16);
                    }
                    if val <= 0x10FFFF {
                        val = val * 16 + d;
                        if val > 0x10FFFF {
                            val = SCALAR_CAP;
                        }
                    }
                    t = t + 1;
                }
                let rep = numeric_rep_exec(
                    val,
                    Ghost(hex_val(rest.subrange(3, j - pos))),
                );
                proof {
                    let k = hex_run(rest.skip(3)) as int;
                    assert(k == j - pos - 3);
                    assert(rest[3 + k] == v@[j as int]);
                    assert(entity_rep(rest) == Some(
                        (numeric_rep(hex_val(rest.subrange(3, 3 + k))), 3 + k + 1),
                    ));
                    assert(rest.subrange(3, 3 + k) == rest.subrange(3, j - pos));
                }
                Some((rep, j + 1 - pos))
            } else {
                proof {
                    let k = hex_run(rest.skip(3)) as int;
                    if j > pos + 3 {
                        assert(k == j - pos - 3);
                    } else {
                        assert(k == 0) by {
                            lemma_hex_run(rest.skip(3));
                            if k > 0 {
                                assert(is_hex_digit(rest.skip(3)[0]));
                                assert(rest.skip(3)[0] == v@[pos + 3]);
                            }
                        }
                    }
                    assert(entity_rep(rest) is None);
                }
                None
            }
        } else {
            // decimal reference
            let mut j: usize = pos + 2;
            while j < n && is_dec_digit_exec(v[j])
                invariant
                    n == v@.len(),
                    pos + 2 <= j <= n,
                    forall|t: int| pos + 2 <= t < j ==> is_dec_digit(v@[t]),
                decreases n - j,
            {
                j = j + 1;
            }
            proof {
                let tail = rest.skip(2);
                assert(tail =~= v@.skip(pos + 2));
                lemma_dec_run(tail);
                assert forall|t: int| 0 <= t < j - pos - 2 implies is_dec_digit(tail[t]) by {
                    assert(tail[t] == v@[pos + 2 + t]);
                }
                if dec_run(tail) < j - pos - 2 {
                    assert(is_dec_digit(tail[dec_run(tail) as int]));
                }
                if j < n {
                    assert(tail[j - pos - 2] == v@[j as int]);
                    assert(dec_run(tail) == j - pos - 2);
                } else {
                    assert(dec_run(tail) == tail.len());
                }
            }
            if j > pos + 2 && j < n && v[j] == ';' {
                let mut val: u32 = 0;
                let mut t: usize = pos + 2;
                while t < j
                    invariant
                        n == v@.len(),
                        pos + 2 <= t <= j <= n,
                        rest == v@.skip(pos as int),
                        forall|u: int| pos + 2 <= u < j ==> is_dec_digit(v@[u]),
                        dec_val(rest.subrange(2, t - pos)) <= 0x10FFFF ==> val == dec_val(
                            rest.subrange(2, t - pos),
                        ),
                        dec_val(rest.subrange(2, t - pos)) > 0x10FFFF ==> (val > 0x10FFFF && val
                            <= SCALAR_CAP),
                    decreases j - t,
                {
                    let c = v[t];
                    proof {
                        assert(rest.subrange(2, t + 1 - pos).drop_last() =~= rest.subrange(
                            2,
                            t - pos,
                        ));
                        assert(rest.subrange(2, t + 1 - pos).last() == v@[t as int]);
                    }
                    let d: u32 = c as u32 - 48;
                    proof {
                        assert(d < 10);
                    }
                    if val <= 0x10FFFF {
                        val = val * 10 + d;
                        if val > 0x10FFFF {
                            val = SCALAR_CAP;
                        }
                    }
                    t = t + 1;
                }
                let rep = numeric_rep_exec(
                    val,
                    Ghost(dec_val(rest.subrange(2, j - pos))),
                );
                proof {
                    let k = dec_run(rest.skip(2)) as int;
                    assert(k == j - pos - 2);
                    assert(rest[2 + k] == v@[j as int]);
                    assert(entity_rep(rest) == Some(
                        (numeric_rep(dec_val(rest.subrange(2, 2 + k))), 2 + k + 1),
                    ));
                    assert(rest.subrange(2, 2 + k) == rest.subrange(2, j - pos));
                }
                Some((rep, j + 1 - pos))
            } else {
                proof {
                    let k = dec_run(rest.skip(2)) as int;
                    if j > pos + 2 {
                        assert(k == j - pos - 2);
                    } else {
                        assert(k == 0) by {
                            lemma_dec_run(rest.skip(2));
                            if k > 0 {
                                assert(is_dec_digit(rest.skip(2)[0]));
                                assert(rest.skip(2)[0] == v@[pos + 2]);
                            }
                        }
                    }
                    assert(entity_rep(rest) is None);
                }
                None
            }
        }
    } else if pos + 1 < n && (('a' <= v[pos + 1] && v[pos + 1] <= 'z') || ('A' <= v[pos + 1]
        && v[pos + 1] <= 'Z')) {
        // named reference: letter, then letters and digits, then ';'
        let mut j: usize = pos + 2;
        while j < n && is_ascii_alnum_exec(v[j])
            invariant
                n == v@.len(),
                pos + 2 <= j <= n,
                forall|t: int| pos + 2 <= t < j ==> is_ascii_alnum(v@[t]),
            decreases n - j,
        {
            j = j + 1;
        }
        proof {
            let tail = rest.skip(2);
            assert(tail =~= v@.skip(pos + 2));
            lemma_alnum_run(tail);
            assert forall|t: int| 0 <= t < j - pos - 2 implies is_ascii_alnum(tail[t]) by {
                assert(tail[t] == v@[pos + 2 + t]);
            }
            if alnum_run(tail) < j - pos - 2 {
                assert(is_ascii_alnum(tail[alnum_run(tail) as int]));
            }
            if j < n {
                assert(tail[j - pos - 2] == v@[j as int]);
                assert(alnum_run(tail) == j - pos - 2);
            } else {
                assert(alnum_run(tail) == tail.len());
            }
        }
        if j < n && v[j] == ';' {
            // name runs from pos + 1 to j
            let mut name: Vec<char> = Vec::new();
            let mut t: usize = pos + 1;
            while t < j
                invariant
                    n == v@.len(),
                    pos + 1 <= t <= j < n,
                    rest == v@.skip(pos as int),
                    name@ == v@.subrange(pos + 1, t as int),
                decreases j - t,
            {
                name.push(v[t]);
                proof {
                    assert(v@.subrange(pos + 1, t + 1) =~= v@.subrange(pos + 1, t as int).push(
                        v@[t as int],
                    ));
                }
                t = t + 1;
            }
            proof {
                assert(name@ =~= rest.subrange(1, j - pos));
            }
            let rep = named_rep_exec(&name);
            proof {
                let k = 1 + alnum_run(rest.skip(2)) as int;
                assert(k == j - pos - 1);
                assert(rest[1 + k] == v@[j as int]);
                assert(entity_rep(rest) == Some((named_rep(rest.subrange(1, 1 + k)), 1 + k + 1)));
                assert(rest.subrange(1, 1 + k) == rest.subrange(1, j - pos));
            }
            Some((rep, j + 1 - pos))
        } else {
            proof {
                let k = 1 + alnum_run(rest.skip(2)) as int;
                assert(k == if j < n { j - pos - 1 } else { rest.len() - 1 });
                assert(entity_rep(rest) is None);
            }
            None
        }
    } else {
        proof {
            if rest.len() >= 2 {
                assert(rest[1] == v@[pos + 1]);
            }
            assert(entity_rep(rest) is None);
        }
        None
    }
}

/// The replacement of a named entity: the five XML names decode, any other
/// name becomes a space.
fn named_rep_exec(name: &Vec<char>) -> (r: Vec<char>)
    ensures
        r@ == named_rep(name@),
{
    let mut r: Vec<char> = Vec::new();
    if name.len() == 3 && name[0] == 'a' && name[1] == 'm' && name[2] == 'p' {
        proof {
            assert(name@ =~= seq!['a', 'm', 'p']);
        }
        r.push('&');
        proof {
            assert(r@ =~= seq!['&']);
        }
    } else if name.len() == 2 && name[0] == 'l' && name[1] == 't' {
        proof {
            assert(name@ =~= seq!['l', 't']);
        }
        r.push('<');
        proof {
            assert(r@ =~= seq!['<']);
        }
    } else if name.len() == 2 && name[0] == 'g' && name[1] == 't' {
        proof {
            assert(name@ =~= seq!['g', 't']);
        }
        r.push('>');
        proof {
            assert(r@ =~= seq!['>']);
        }
    } else if name.len() == 4 && name[0] == 'q' && name[1] == 'u' && name[2] == 'o' && name[3]
        == 't' {
        proof {
            assert(name@ =~= seq!['q', 'u', 'o', 't']);
        }
        r.push('"');
        proof {
            assert(r@ =~= seq!['"']);
        }
    } else if name.len() == 4 && name[0] == 'a' && name[1] == 'p' && name[2] == 'o' && name[3]
        == 's' {
        proof {
            assert(name@ =~= seq!['a', 'p', 'o', 's']);
        }
        r.push('\'');
        proof {
            assert(r@ =~= seq!['\'']);
        }
    } else {
        proof {
            assert(!(name@ =~= seq!['a', 'm', 'p']));
            assert(!(name@ =~= seq!['l', 't']));
            assert(!(name@ =~= seq!['g', 't']));
            assert(!(name@ =~= seq!['q', 'u', 'o', 't']));
            assert(!(name@ =~= seq!['a', 'p', 'o', 's']));
        }
        r.push(' ');
        proof {
            assert(r@ =~= seq![' ']);
        }
    }
    r
}

/// Decodes entity references over a whole character vector.
fn decode_entities_chars(v: &Vec<char>) -> (r: Vec<char>)
    ensures
        r@ == decode_entities_spec(v@),
{
    let n = v.len();
    let mut out: Vec<char> = Vec::new();
    let mut pos: usize = 0;
    proof {
        assert(v@.skip(0) =~= v@);
    }
    while pos < n
        invariant
            n == v@.len(),
            pos <= n,
            decode_entities_spec(v@) == out@ + decode_entities_spec(v@.skip(pos as int)),
        decreases n - pos,
    {
        let ghost rest = v@.skip(pos as int);
        proof {
            assert(rest[0] == v@[pos as int]);
            assert(rest.drop_first() =~= v@.skip(pos + 1));
        }
        let c = v[pos];
        if c == '&' {
            match entity_at(v, pos) {
                Some((rep, k)) => {
                    let ghost pre = out@;
                    push_chars(&mut out, &rep);
                    proof {
                        assert(rest.skip(k as int) =~= v@.skip(pos + k));
                        assert(decode_entities_spec(rest) == rep@ + decode_entities_spec(
                            v@.skip(pos + k),
                        ));
                        assert(out@ + decode_entities_spec(v@.skip(pos + k)) =~= pre
                            + decode_entities_spec(rest));
                    }
                    pos = pos + k;
                },
                None => {
                    out.push('&');
                    proof {
                        assert(decode_entities_spec(rest) == seq!['&'] + decode_entities_spec(
                            rest.drop_first(),
                        ));
                        assert(out@ + decode_entities_spec(v@.skip(pos + 1)) =~= out@.drop_last()
                            + decode_entities_spec(rest));
                    }
                    pos = pos + 1;
                },
            }
        } else {
            out.push(c);
            proof {
                assert(decode_entities_spec(rest) == seq![rest[0]] + decode_entities_spec(
                    rest.drop_first(),
                ));
                assert(out@ + decode_entities_spec(v@.skip(pos + 1)) =~= out@.drop_last()
                    + decode_entities_spec(rest));
            }
            pos = pos + 1;
        }
    }
    proof {
        assert(v@.skip(n as int) =~= Seq::<char>::empty());
        assert(out@ + decode_entities_spec(Seq::<char>::empty()) =~= out@);
    }
    out
}

// ===== Whitespace collapsing: executable =====

/// Collapses whitespace runs to single spaces and trims the ends.
fn collapse_ws_chars(v: &Vec<char>) -> (r: Vec<char>)
    ensures
        r@ == join_space(ws_tokens(v@)),
{
    let n = v.len();
    let mut out: Vec<char> = Vec::new();
    let ghost mut toks: Seq<Seq<char>> = Seq::empty();
    let mut pos: usize = 0;
    proof {
        assert(v@.skip(0) =~= v@);
        assert(ws_tokens(v@) =~= toks + ws_tokens(v@.skip(0)));
    }
    while pos < n
        invariant
            n == v@.len(),
            pos <= n,
            ws_tokens(v@) == toks + ws_tokens(v@.skip(pos as int)),
            out@ == join_space(toks),
            toks.len() == 0 <==> out@.len() == 0,
            forall|t: int| 0 <= t < toks.len() ==> #[trigger] toks[t].len() > 0,
        decreases n - pos,
    {
        let ghost rest = v@.skip(pos as int);
        proof {
            assert(rest[0] == v@[pos as int]);
            assert(rest.drop_first() =~= v@.skip(pos + 1));
        }
        let c = v[pos];
        if char_is_ws(c) {
            proof {
                assert(ws_tokens(rest) == ws_tokens(rest.drop_first()));
            }
            pos = pos + 1;
        } else {
            // scan the non-whitespace run
            let mut j: usize = pos + 1;
            while j < n && !char_is_ws(v[j])
                invariant
                    n == v@.len(),
                    pos + 1 <= j <= n,
                    forall|t: int| pos + 1 <= t < j ==> !is_unicode_ws(v@[t]),
                decreases n - j,
            {
                j = j + 1;
            }
            proof {
                let tail = rest.skip(1);
                assert(tail =~= v@.skip(pos + 1));
                lemma_non_ws_run(tail);
                assert forall|t: int| 0 <= t < j - pos - 1 implies !is_unicode_ws(tail[t]) by {
                    assert(tail[t] == v@[pos + 1 + t]);
                }
                if non_ws_run(tail) < j - pos - 1 {
                    assert(!is_unicode_ws(tail[non_ws_run(tail) as int]));
                }
                if j < n {
                    assert(tail[j - pos - 1] == v@[j as int]);
                    assert(non_ws_run(tail) == j - pos - 1);
                } else {
                    assert(non_ws_run(tail) == tail.len());
                }
            }
            let ghost token = v@.subrange(pos as int, j as int);
            let ghost pre_toks = toks;
            let ghost pre_out = out@;
            if out.len() > 0 {
                out.push(' ');
            }
            let mut t: usize = pos;
            let ghost out_base = out@;
            while t < j
                invariant
                    n == v@.len(),
                    pos <= t <= j <= n,
                    out@ == out_base + v@.subrange(pos as int, t as int),
                decreases j - t,
            {
                out.push(v[t]);
                proof {
                    assert(out_base + v@.subrange(pos as int, t + 1) =~= (out_base + v@.subrange(
                        pos as int,
                        t as int,
                    )).push(v@[t as int]));
                }
                t = t + 1;
            }
            proof {
                toks = pre_toks.push(token);
                // the spec peels exactly this token
                let k = 1 + non_ws_run(rest.skip(1)) as int;
                assert(k == j - pos);
                assert(ws_tokens(rest) == seq![rest.subrange(0, k)] + ws_tokens(rest.skip(k)));
                assert(rest.subrange(0, k) =~= token);
                assert(rest.skip(k) =~= v@.skip(j as int));
                assert(ws_tokens(v@) =~= toks + ws_tokens(v@.skip(j as int)));
                // out now joins the extended token list
                assert(toks.drop_last() =~= pre_toks);
                if pre_toks.len() == 0 {
                    assert(join_space(toks) == token);
                    assert(out@ =~= token);
                } else {
                    assert(join_space(toks) == join_space(pre_toks) + seq![' '] + token);
                    assert(out@ =~= pre_out + seq![' '] + token);
                }
                assert(token.len() > 0);
                assert(out@.len() > 0);
            }
            pos = j;
        }
    }
    proof {
        assert(v@.skip(n as int) =~= Seq::<char>::empty());
        assert(ws_tokens(v@) =~= toks);
    }
    out
}

// ===== The public stripping routine =====

/// Strips markup from an HTML string: every `<...>` group becomes a space,
/// entity references are decoded (the five XML names and numeric character
/// references; other names become spaces), whitespace runs collapse to
/// single spaces, and the ends are trimmed.
pub fn strip_html_tags(html: &str) -> (r: String)
    ensures
        r@ == strip_spec(html@),
{
    let cs = str_to_chars(html);
    let t1 = strip_tags_chars(&cs);
    let t2 = decode_entities_chars(&t1);
    let t3 = collapse_ws_chars(&t2);
    chars_to_string(t3)
}


// ===== Classification: specification =====

/// The formatting that one inline child element contributes, by its tag.
pub open spec fn inline_formatting(e: crate::dom::ElemV) -> crate::ast::FormattingV {
    if e.tag == "strong"@ || e.tag == "b"@ {
        crate::ast::FormattingV { bold: true, ..crate::ast::FormattingV::plain() }
    } else if e.tag == "em"@ || e.tag == "i"@ {
        crate::ast::FormattingV { italic: true, ..crate::ast::FormattingV::plain() }
    } else if e.tag == "code"@ {
        crate::ast::FormattingV { code: true, ..crate::ast::FormattingV::plain() }
    } else if e.tag == "a"@ {
        match crate::dom::attr_of(e.attrs, "href"@) {
            Some(h) => crate::ast::FormattingV { link: Some(h), ..crate::ast::FormattingV::plain() },
            None => crate::ast::FormattingV::plain(),
        }
    } else {
        crate::ast::FormattingV::plain()
    }
}

/// The spans one inline child element yields: its whole flattened text as a
/// single span, or nothing when that text is all-whitespace.
pub open spec fn inline_elem_spans(e: crate::dom::ElemV) -> Seq<crate::ast::SpanV> {
    let txt = crate::dom::flat_text_seq(e.children);
    if seq_blank(txt) {
        Seq::empty()
    } else {
        seq![crate::ast::SpanV { text: txt, formatting: inline_formatting(e) }]
    }
}

/// The spans one direct child node yields in the inline walk.
pub open spec fn node_spans(n: crate::dom::NodeV) -> Seq<crate::ast::SpanV> {
    match n {
        crate::dom::NodeV::Text(t) => if !seq_blank(t) {
            seq![crate::ast::SpanV { text: t, formatting: crate::ast::FormattingV::plain() }]
        } else {
            Seq::empty()
        },
        crate::dom::NodeV::Element(e) => inline_elem_spans(e),
        crate::dom::NodeV::Other => Seq::empty(),
    }
}

/// The spans of the inline walk over a node list.
pub open spec fn spans_of_children(ns: Seq<crate::dom::NodeV>) -> Seq<crate::ast::SpanV>
    decreases ns.len(),
{
    if ns.len() == 0 {
        Seq::empty()
    } else {
        spans_of_children(ns.drop_last()) + node_spans(ns.last())
    }
}

/// The text content of an element: the inline walk over its children or,
/// when that yields nothing, its whole flattened text as one plain span
/// (dropped too when all-whitespace).
pub open spec fn text_content_of(e: crate::dom::ElemV) -> crate::ast::TextV {
    let spans = spans_of_children(e.children);
    if spans.len() == 0 {
        let all = crate::dom::flat_text_seq(e.children);
        if !seq_blank(all) {
            crate::ast::TextV {
                spans: seq![
                    crate::ast::SpanV { text: all, formatting: crate::ast::FormattingV::plain() },
                ],
            }
        } else {
            crate::ast::TextV { spans: Seq::empty() }
        }
    } else {
        crate::ast::TextV { spans }
    }
}

/// The non-empty list items among an element's descendants, in document
/// order: each `li` element contributes its text content.
pub open spec fn li_items(ns: Seq<crate::dom::NodeV>) -> Seq<crate::ast::TextV>
    decreases ns,
{
    if ns.len() == 0 {
        Seq::empty()
    } else {
        li_items(ns.drop_last()) + li_items_node(ns.last())
    }
}

/// The list items contributed by one node and its descendants.
pub open spec fn li_items_node(n: crate::dom::NodeV) -> Seq<crate::ast::TextV>
    decreases n,
{
    match n {
        crate::dom::NodeV::Element(e) => (if e.tag == "li"@ && !text_content_of(e).is_blank() {
            seq![text_content_of(e)]
        } else {
            Seq::empty()
        }) + li_items(e.children),
        _ => Seq::empty(),
    }
}

/// Whether a tag is one of `h1` .. `h6`.
pub open spec fn is_heading_tag(t: Seq<char>) -> bool {
    t.len() == 2 && t[0] == 'h' && '1' <= t[1] <= '6'
}

/// The level digit of a heading tag.
pub open spec fn heading_level(t: Seq<char>) -> u8 {
    (t[1] as u32 - 48) as u8
}

/// The prefix that marks a code language class token.
pub open spec fn lang_prefix() -> Seq<char> {
    seq!['l', 'a', 'n', 'g', 'u', 'a', 'g', 'e', '-']
}

/// The language named by the first class token starting with `language-`.
pub open spec fn lang_of_tokens(ts: Seq<Seq<char>>) -> Option<Seq<char>>
    decreases ts.len(),
{
    if ts.len() == 0 {
        None
    } else if ts[0].len() >= 9 && ts[0].subrange(0, 9) == lang_prefix() {
        Some(ts[0].skip(9))
    } else {
        lang_of_tokens(ts.drop_first())
    }
}

/// The code language of an element's `class` attribute, if any.
pub open spec fn class_language(e: crate::dom::ElemV) -> Option<Seq<char>> {
    match crate::dom::attr_of(e.attrs, "class"@) {
        Some(cls) => lang_of_tokens(ws_tokens(cls)),
        None => None,
    }
}

/// Paragraph-style classification: the inline walk, dropped when blank.
pub open spec fn para_like(e: crate::dom::ElemV) -> Option<crate::ast::BlockV> {
    let tc = text_content_of(e);
    if tc.is_blank() {
        None
    } else {
        Some(crate::ast::BlockV::Paragraph(tc))
    }
}

/// The block one top-level element yields, by its tag.
pub open spec fn classify(e: crate::dom::ElemV) -> Option<crate::ast::BlockV> {
    let t = e.tag;
    if t == "p"@ {
        para_like(e)
    } else if is_heading_tag(t) {
        let tc = text_content_of(e);
        if tc.is_blank() {
            None
        } else {
            Some(crate::ast::BlockV::Heading { level: heading_level(t), content: tc })
        }
    } else if t == "ul"@ || t == "ol"@ {
        let items = li_items(e.children);
        if items.len() > 0 {
            Some(crate::ast::BlockV::List { ordered: t == "ol"@, items })
        } else {
            None
        }
    } else if t == "blockquote"@ {
        let tc = text_content_of(e);
        if tc.is_blank() {
            None
        } else {
            Some(crate::ast::BlockV::Quote(tc))
        }
    } else if t == "pre"@ || t == "code"@ {
        let txt = crate::dom::flat_text_seq(e.children);
        if seq_blank(txt) {
            None
        } else {
            Some(crate::ast::BlockV::Code { language: class_language(e), content: txt })
        }
    } else if t == "a"@ {
        match crate::dom::attr_of(e.attrs, "href"@) {
            Some(h) => {
                let txt = crate::dom::flat_text_seq(e.children);
                if seq_blank(txt) {
                    None
                } else {
                    Some(crate::ast::BlockV::Link { url: h, text: txt })
                }
            },
            None => None,
        }
    } else if t == "img"@ {
        match crate::dom::attr_of(e.attrs, "src"@) {
            Some(src) => Some(crate::ast::BlockV::Image {
                url: src,
                alt: crate::dom::attr_of(e.attrs, "alt"@),
            }),
            None => None,
        }
    } else {
        para_like(e)
    }
}

/// The blocks one top-level node yields.
pub open spec fn top_node_blocks(n: crate::dom::NodeV) -> Seq<crate::ast::BlockV> {
    match n {
        crate::dom::NodeV::Element(e) => match classify(e) {
            Some(b) => seq![b],
            None => Seq::empty(),
        },
        crate::dom::NodeV::Text(t) => {
            let tt = trim_seq(t);
            if tt.len() > 0 {
                seq![
                    crate::ast::BlockV::Paragraph(
                        crate::ast::TextV {
                            spans: seq![
                                crate::ast::SpanV {
                                    text: tt,
                                    formatting: crate::ast::FormattingV::plain(),
                                },
                            ],
                        },
                    ),
                ]
            } else {
                Seq::empty()
            }
        },
        crate::dom::NodeV::Other => Seq::empty(),
    }
}

/// The blocks of the top-level walk.
pub open spec fn blocks_of(ns: Seq<crate::dom::NodeV>) -> Seq<crate::ast::BlockV>
    decreases ns.len(),
{
    if ns.len() == 0 {
        Seq::empty()
    } else {
        blocks_of(ns.drop_last()) + top_node_blocks(ns.last())
    }
}

/// What parsing an HTML fragment yields: nothing for blank input; else the
/// classified top-level walk; else, when that walk is empty, one paragraph
/// of the stripped text, when that is itself non-empty.
pub open spec fn parse_result(html: Seq<char>) -> Seq<crate::ast::BlockV> {
    if seq_blank(html) {
        Seq::empty()
    } else {
        let walked = blocks_of(crate::dom::parsed_fragment(html));
        if walked.len() > 0 {
            walked
        } else {
            let clean = strip_spec(html);
            if clean.len() > 0 {
                seq![
                    crate::ast::BlockV::Paragraph(
                        crate::ast::TextV {
                            spans: seq![
                                crate::ast::SpanV {
                                    text: clean,
                                    formatting: crate::ast::FormattingV::plain(),
                                },
                            ],
                        },
                    ),
                ]
            } else {
                Seq::empty()
            }
        }
    }
}

// ===== Classification: executable =====

/// The spans contributed by one inline child element.
fn inline_spans_of_element(e: &crate::dom::HtmlElement) -> (r: Vec<crate::ast::TextSpan>)
    ensures
        r.deep_view() == inline_elem_spans(crate::dom::elem_view(*e)),
{
    proof {
        assert(crate::dom::elem_view(*e).tag == e.tag@);
        assert(crate::dom::elem_view(*e).children == crate::dom::nodes_view(e.children@));
        assert(crate::dom::elem_view(*e).attrs == e.attrs.deep_view());
    }
    let txt = crate::dom::flat_text_of_children(&e.children);
    if crate::strs::chars_are_blank(&txt) {
        let r: Vec<crate::ast::TextSpan> = Vec::new();
        proof {
            assert(r.deep_view() =~= Seq::<crate::ast::SpanV>::empty());
        }
        r
    } else {
        let text = chars_to_string(txt);
        let span = if crate::strs::string_is(&e.tag, "strong") || crate::strs::string_is(
            &e.tag,
            "b",
        ) {
            crate::ast::TextSpan::bold(text)
        } else if crate::strs::string_is(&e.tag, "em") || crate::strs::string_is(&e.tag, "i") {
            crate::ast::TextSpan::italic(text)
        } else if crate::strs::string_is(&e.tag, "code") {
            crate::ast::TextSpan::code(text)
        } else if crate::strs::string_is(&e.tag, "a") {
            match e.find_attr("href") {
                Some(h) => crate::ast::TextSpan::link(text, h),
                None => crate::ast::TextSpan::plain(text),
            }
        } else {
            crate::ast::TextSpan::plain(text)
        };
        let mut r: Vec<crate::ast::TextSpan> = Vec::new();
        r.push(span);
        proof {
            assert(r.deep_view() =~= inline_elem_spans(crate::dom::elem_view(*e)));
        }
        r
    }
}

/// The inline walk over a node list: the spans of each direct child.
fn spans_of_nodes(children: &Vec<crate::dom::HtmlNode>) -> (r: Vec<crate::ast::TextSpan>)
    ensures
        r.deep_view() == spans_of_children(crate::dom::nodes_view(children@)),
{
    let ghost views = crate::dom::nodes_view(children@);
    proof {
        crate::dom::lemma_nodes_view_index(children@);
    }
    let mut r: Vec<crate::ast::TextSpan> = Vec::new();
    proof {
        assert(views.take(0) =~= Seq::<crate::dom::NodeV>::empty());
        assert(r.deep_view() =~= spans_of_children(views.take(0)));
    }
    let mut i: usize = 0;
    while i < children.len()
        invariant
            views == crate::dom::nodes_view(children@),
            views.len() == children@.len(),
            forall|j: int| 0 <= j < children@.len() ==> views[j] == crate::dom::node_view(
                #[trigger] children@[j],
            ),
            i <= children.len(),
            r.deep_view() == spans_of_children(views.take(i as int)),
        decreases children.len() - i,
    {
        let ghost pre = r.deep_view();
        match &children[i] {
            crate::dom::HtmlNode::Text(s) => {
                if !crate::strs::str_is_blank(s.as_str()) {
                    let span = crate::ast::TextSpan::plain(s.clone());
                    r.push(span);
                    proof {
                        assert(r.deep_view() =~= pre.push(span.deep_view()));
                    }
                }
            },
            crate::dom::HtmlNode::Element(e) => {
                let spans = inline_spans_of_element(e);
                crate::ast::append_all(&mut r, spans);
            },
            crate::dom::HtmlNode::Other => {},
        }
        proof {
            assert(views.take(i + 1).drop_last() =~= views.take(i as int));
            assert(views.take(i + 1).last() == views[i as int]);
            assert(r.deep_view() =~= spans_of_children(views.take(i + 1)));
        }
        i = i + 1;
    }
    proof {
        assert(views.take(children@.len() as int) =~= views);
    }
    r
}

/// The text content of one element, inline walk with flat-text fallback.
fn element_text_content(e: &crate::dom::HtmlElement) -> (r: crate::ast::TextContent)
    ensures
        r@ == text_content_of(crate::dom::elem_view(*e)),
{
    proof {
        assert(crate::dom::elem_view(*e).children == crate::dom::nodes_view(e.children@));
    }
    let spans = spans_of_nodes(&e.children);
    if spans.len() == 0 {
        let all = crate::dom::flat_text_of_children(&e.children);
        if !crate::strs::chars_are_blank(&all) {
            let r = crate::ast::TextContent::plain(chars_to_string(all));
            proof {
                assert(r@.spans =~= text_content_of(crate::dom::elem_view(*e)).spans);
            }
            r
        } else {
            let r = crate::ast::TextContent::from_spans(Vec::new());
            proof {
                assert(r@.spans =~= Seq::<crate::ast::SpanV>::empty());
            }
            r
        }
    } else {
        proof {
            assert(spans.deep_view().len() > 0);
        }
        crate::ast::TextContent::from_spans(spans)
    }
}

/// Collects the non-empty `li` items among the descendants of a node list.
#[verifier::spinoff_prover]
#[verifier::rlimit(50)]
fn collect_li_items(children: &Vec<crate::dom::HtmlNode>) -> (r: Vec<crate::ast::TextContent>)
    ensures
        r.deep_view() == li_items(crate::dom::nodes_view(children@)),
    decreases *children,
{
    let ghost views = crate::dom::nodes_view(children@);
    proof {
        crate::dom::lemma_nodes_view_index(children@);
    }
    let mut r: Vec<crate::ast::TextContent> = Vec::new();
    proof {
        assert(views.take(0) =~= Seq::<crate::dom::NodeV>::empty());
        assert(r.deep_view() =~= li_items(views.take(0)));
    }
    let mut i: usize = 0;
    while i < children.len()
        invariant
            views == crate::dom::nodes_view(children@),
            views.len() == children@.len(),
            forall|j: int| 0 <= j < children@.len() ==> views[j] == crate::dom::node_view(
                #[trigger] children@[j],
            ),
            i <= children.len(),
            r.deep_view() == li_items(views.take(i as int)),
        decreases children.len() - i,
    {
        let ghost pre = r.deep_view();
        match &children[i] {
            crate::dom::HtmlNode::Element(e) => {
                proof {
                    assert(children@[i as int] == crate::dom::HtmlNode::Element(*e));
                    assert(views[i as int] == crate::dom::NodeV::Element(
                        crate::dom::elem_view(*e),
                    ));
                    assert(crate::dom::elem_view(*e).tag == e.tag@);
                    assert(crate::dom::elem_view(*e).children == crate::dom::nodes_view(
                        e.children@,
                    ));
                }
                if crate::strs::string_is(&e.tag, "li") {
                    let tc = element_text_content(e);
                    if !tc.is_empty() {
                        let ghost tv = tc.deep_view();
                        r.push(tc);
                        proof {
                            assert(r.deep_view() =~= pre + seq![tv]);
                        }
                    }
                }
                let ghost mid2 = r.deep_view();
                let sub = collect_li_items(&e.children);
                crate::ast::append_all(&mut r, sub);
                proof {
                    assert(r.deep_view() == mid2 + li_items(crate::dom::nodes_view(e.children@)));
                    let ev = crate::dom::elem_view(*e);
                    assert(li_items_node(views[i as int]) == (if ev.tag == "li"@
                        && !text_content_of(ev).is_blank() {
                        seq![text_content_of(ev)]
                    } else {
                        Seq::<crate::ast::TextV>::empty()
                    }) + li_items(ev.children));
                    assert(r.deep_view() =~= pre + li_items_node(views[i as int]));
                }
            },
            _ => {},
        }
        proof {
            assert(views.take(i + 1).drop_last() =~= views.take(i as int));
            assert(views.take(i + 1).last() == views[i as int]);
            assert(r.deep_view() =~= li_items(views.take(i + 1)));
        }
        i = i + 1;
    }
    proof {
        assert(views.take(children@.len() as int) =~= views);
    }
    r
}

/// Reads a heading tag: `h1` .. `h6` give their level digit.
fn heading_tag_info(tag: &String) -> (r: Option<u8>)
    ensures
        match r {
            Some(l) => is_heading_tag(tag@) && l == heading_level(tag@),
            None => !is_heading_tag(tag@),
        },
{
    let s = tag.as_str();
    if s.unicode_len() == 2 {
        let c0 = s.get_char(0);
        let c1 = s.get_char(1);
        if c0 == 'h' && '1' <= c1 && c1 <= '6' {
            Some((c1 as u32 - 48) as u8)
        } else {
            None
        }
    } else {
        None
    }
}

/// Finds the language named by the first `language-` class token.
fn find_language(cls: &String) -> (r: Option<String>)
    ensures
        crate::ast::opt_str_view(r) == lang_of_tokens(ws_tokens(cls@)),
{
    let v = str_to_chars(cls.as_str());
    let n = v.len();
    let mut pos: usize = 0;
    proof {
        assert(v@.skip(0) =~= v@);
    }
    while pos < n
        invariant
            n == v@.len(),
            v@ == cls@,
            pos <= n,
            lang_of_tokens(ws_tokens(cls@)) == lang_of_tokens(ws_tokens(v@.skip(pos as int))),
        decreases n - pos,
    {
        let ghost rest = v@.skip(pos as int);
        proof {
            assert(rest[0] == v@[pos as int]);
            assert(rest.drop_first() =~= v@.skip(pos + 1));
        }
        let c = v[pos];
        if char_is_ws(c) {
            proof {
                assert(ws_tokens(rest) == ws_tokens(rest.drop_first()));
            }
            pos = pos + 1;
        } else {
            // scan the token
            let mut j: usize = pos + 1;
            while j < n && !char_is_ws(v[j])
                invariant
                    n == v@.len(),
                    pos + 1 <= j <= n,
                    forall|t: int| pos + 1 <= t < j ==> !is_unicode_ws(v@[t]),
                decreases n - j,
            {
                j = j + 1;
            }
            proof {
                let tail = rest.skip(1);
                assert(tail =~= v@.skip(pos + 1));
                lemma_non_ws_run(tail);
                assert forall|t: int| 0 <= t < j - pos - 1 implies !is_unicode_ws(tail[t]) by {
                    assert(tail[t] == v@[pos + 1 + t]);
                }
                if non_ws_run(tail) < j - pos - 1 {
                    assert(is_unicode_ws(tail[non_ws_run(tail) as int]));
                }
                if j < n {
                    assert(tail[j - pos - 1] == v@[j as int]);
                    assert(non_ws_run(tail) == j - pos - 1);
                } else {
                    assert(non_ws_run(tail) == tail.len());
                }
            }
            let ghost token = v@.subrange(pos as int, j as int);
            proof {
                let k = 1 + non_ws_run(rest.skip(1)) as int;
                assert(k == j - pos);
                assert(ws_tokens(rest) == seq![rest.subrange(0, k)] + ws_tokens(rest.skip(k)));
                assert(rest.subrange(0, k) =~= token);
                assert(rest.skip(k) =~= v@.skip(j as int));
                assert(ws_tokens(rest)[0] == token);
                assert(ws_tokens(rest).drop_first() =~= ws_tokens(v@.skip(j as int)));
            }
            // does the token start with "language-"?
            if j - pos >= 9 && v[pos] == 'l' && v[pos + 1] == 'a' && v[pos + 2] == 'n' && v[pos
                + 3] == 'g' && v[pos + 4] == 'u' && v[pos + 5] == 'a' && v[pos + 6] == 'g' && v[pos
                + 7] == 'e' && v[pos + 8] == '-' {
                proof {
                    assert(token.subrange(0, 9) =~= lang_prefix());
                }
                let mut lang: Vec<char> = Vec::new();
                let mut t: usize = pos + 9;
                while t < j
                    invariant
                        n == v@.len(),
                        pos + 9 <= t <= j <= n,
                        lang@ == v@.subrange(pos + 9, t as int),
                    decreases j - t,
                {
                    lang.push(v[t]);
                    proof {
                        assert(v@.subrange(pos + 9, t + 1) =~= v@.subrange(pos + 9, t as int).push(
                            v@[t as int],
                        ));
                    }
                    t = t + 1;
                }
                proof {
                    assert(lang@ =~= token.skip(9));
                    assert(lang_of_tokens(ws_tokens(rest)) == Some(token.skip(9)));
                }
                return Some(chars_to_string(lang));
            }
            proof {
                if token.len() >= 9 && token.subrange(0, 9) == lang_prefix() {
                    // the executable comparison rejected some character
                    assert(j - pos >= 9);
                    assert forall|d: int| 0 <= d < 9 implies token[d] == lang_prefix()[d] by {
                        assert(token.subrange(0, 9)[d] == token[d]);
                    }
                    assert(v@[pos as int] == 'l' && v@[pos + 1] == 'a' && v@[pos + 2] == 'n'
                        && v@[pos + 3] == 'g' && v@[pos + 4] == 'u' && v@[pos + 5] == 'a'
                        && v@[pos + 6] == 'g' && v@[pos + 7] == 'e' && v@[pos + 8] == '-');
                }
                assert(lang_of_tokens(ws_tokens(rest)) == lang_of_tokens(
                    ws_tokens(v@.skip(j as int)),
                ));
            }
            pos = j;
        }
    }
    proof {
        assert(v@.skip(n as int) =~= Seq::<char>::empty());
    }
    None
}

/// Paragraph-style handling of an element: dropped when its content is
/// empty.
fn para_like_exec(e: &crate::dom::HtmlElement) -> (r: Option<crate::ast::ContentBlock>)
    ensures
        match r {
            Some(b) => para_like(crate::dom::elem_view(*e)) == Some(b.deep_view()),
            None => para_like(crate::dom::elem_view(*e)) is None,
        },
{
    let tc = element_text_content(e);
    if tc.is_empty() {
        None
    } else {
        Some(crate::ast::ContentBlock::Paragraph(tc))
    }
}

/// Classifies one top-level element into a block, or drops it.
pub(crate) fn element_to_block(e: &crate::dom::HtmlElement) -> (r: Option<
    crate::ast::ContentBlock,
>)
    ensures
        match r {
            Some(b) => classify(crate::dom::elem_view(*e)) == Some(b.deep_view()),
            None => classify(crate::dom::elem_view(*e)) is None,
        },
{
    proof {
        assert(crate::dom::elem_view(*e).tag == e.tag@);
        assert(crate::dom::elem_view(*e).children == crate::dom::nodes_view(e.children@));
        assert(crate::dom::elem_view(*e).attrs == e.attrs.deep_view());
    }
    if crate::strs::string_is(&e.tag, "p") {
        para_like_exec(e)
    } else if let Some(level) = heading_tag_info(&e.tag) {
        let tc = element_text_content(e);
        if tc.is_empty() {
            None
        } else {
            Some(crate::ast::ContentBlock::Heading { level, content: tc })
        }
    } else if crate::strs::string_is(&e.tag, "ul") || crate::strs::string_is(&e.tag, "ol") {
        let ordered = crate::strs::string_is(&e.tag, "ol");
        let items = collect_li_items(&e.children);
        if items.len() > 0 {
            proof {
                assert(items.deep_view().len() > 0);
            }
            Some(crate::ast::ContentBlock::List { ordered, items })
        } else {
            proof {
                assert(items.deep_view() =~= li_items(crate::dom::nodes_view(e.children@)));
                assert(li_items(crate::dom::nodes_view(e.children@)).len() == 0);
            }
            None
        }
    } else if crate::strs::string_is(&e.tag, "blockquote") {
        let tc = element_text_content(e);
        if tc.is_empty() {
            None
        } else {
            Some(crate::ast::ContentBlock::Quote(tc))
        }
    } else if crate::strs::string_is(&e.tag, "pre") || crate::strs::string_is(&e.tag, "code") {
        let txt = crate::dom::flat_text_of_children(&e.children);
        if crate::strs::chars_are_blank(&txt) {
            None
        } else {
            let language = match e.find_attr("class") {
                Some(cls) => find_language(&cls),
                None => None,
            };
            Some(crate::ast::ContentBlock::Code {
                language,
                content: chars_to_string(txt),
            })
        }
    } else if crate::strs::string_is(&e.tag, "a") {
        match e.find_attr("href") {
            Some(h) => {
                let txt = crate::dom::flat_text_of_children(&e.children);
                if crate::strs::chars_are_blank(&txt) {
                    None
                } else {
                    Some(crate::ast::ContentBlock::Link { url: h, text: chars_to_string(txt) })
                }
            },
            None => None,
        }
    } else if crate::strs::string_is(&e.tag, "img") {
        match e.find_attr("src") {
            Some(src) => {
                let alt = e.find_attr("alt");
                Some(crate::ast::ContentBlock::Image { url: src, alt })
            },
            None => None,
        }
    } else {
        para_like_exec(e)
    }
}

// ===== The public parser =====

/// Parses an HTML fragment into the block model.  Blank input yields no
/// blocks; a non-blank input whose top-level walk yields no blocks degrades
/// to a single paragraph of its stripped text; and a non-blank input with
/// non-empty stripped text never comes back empty.
pub fn parse_html_to_content_blocks(html: &str) -> (r: Vec<crate::ast::ContentBlock>)
    ensures
        r.deep_view() == parse_result(html@),
        seq_blank(html@) ==> r@.len() == 0,
        !seq_blank(html@) && strip_spec(html@).len() > 0 ==> r@.len() > 0,
{
    if str_is_blank(html) {
        let r: Vec<crate::ast::ContentBlock> = Vec::new();
        proof {
            assert(r.deep_view() =~= parse_result(html@));
        }
        return r;
    }
    let nodes = crate::dom::parse_html_fragment(html);
    let ghost views = crate::dom::nodes_view(nodes@);
    proof {
        crate::dom::lemma_nodes_view_index(nodes@);
    }
    let mut blocks: Vec<crate::ast::ContentBlock> = Vec::new();
    proof {
        assert(views.take(0) =~= Seq::<crate::dom::NodeV>::empty());
        assert(blocks.deep_view() =~= blocks_of(views.take(0)));
    }
    let mut i: usize = 0;
    while i < nodes.len()
        invariant
            views == crate::dom::nodes_view(nodes@),
            views.len() == nodes@.len(),
            forall|j: int| 0 <= j < nodes@.len() ==> views[j] == crate::dom::node_view(
                #[trigger] nodes@[j],
            ),
            i <= nodes.len(),
            blocks.deep_view() == blocks_of(views.take(i as int)),
        decreases nodes.len() - i,
    {
        let ghost pre = blocks.deep_view();
        match &nodes[i] {
            crate::dom::HtmlNode::Element(e) => {
                if let Some(b) = element_to_block(e) {
                    let ghost bv = b.deep_view();
                    blocks.push(b);
                    proof {
                        assert(blocks.deep_view() =~= pre.push(bv));
                    }
                }
            },
            crate::dom::HtmlNode::Text(s) => {
                let cs = str_to_chars(s.as_str());
                let t = crate::strs::trim_chars(&cs);
                if t.len() > 0 {
                    let b = crate::ast::ContentBlock::Paragraph(
                        crate::ast::TextContent::plain(chars_to_string(t)),
                    );
                    let ghost bv = b.deep_view();
                    blocks.push(b);
                    proof {
                        assert(blocks.deep_view() =~= pre.push(bv));
                    }
                }
            },
            crate::dom::HtmlNode::Other => {},
        }
        proof {
            assert(views.take(i + 1).drop_last() =~= views.take(i as int));
            assert(views.take(i + 1).last() == views[i as int]);
            assert(blocks.deep_view() =~= blocks_of(views.take(i + 1)));
        }
        i = i + 1;
    }
    proof {
        assert(views.take(nodes@.len() as int) =~= views);
        assert(blocks.deep_view() == blocks_of(crate::dom::parsed_fragment(html@)));
    }
    if blocks.len() == 0 {
        let clean = strip_html_tags(html);
        if clean.as_str().unicode_len() > 0 {
            let b = crate::ast::ContentBlock::Paragraph(crate::ast::TextContent::plain(clean));
            let ghost bv = b.deep_view();
            blocks.push(b);
            proof {
                assert(blocks.deep_view() =~= seq![bv]);
                assert(blocks.deep_view() =~= parse_result(html@));
            }
        } else {
            proof {
                assert(blocks.deep_view() =~= parse_result(html@));
            }
        }
    } else {
        proof {
            assert(blocks.deep_view() == parse_result(html@));
        }
    }
    blocks
}

// ===== Feed payloads to documents =====

/// View of `ItemData`.
pub struct ItemV {
    pub title: Option<Seq<char>>,
    pub pub_date: Option<Seq<char>>,
    pub link: Option<Seq<char>>,
    pub content: Option<Seq<char>>,
    pub description: Option<Seq<char>>,
}

/// One fetched feed item, as plain values.
#[derive(Debug, Clone, PartialEq)]
pub struct ItemData {
    pub title: Option<String>,
    pub pub_date: Option<String>,
    pub link: Option<String>,
    pub content: Option<String>,
    pub description: Option<String>,
}

impl View for ItemData {
    type V = ItemV;

    open spec fn view(&self) -> ItemV {
        ItemV {
            title: crate::ast::opt_str_view(self.title),
            pub_date: crate::ast::opt_str_view(self.pub_date),
            link: crate::ast::opt_str_view(self.link),
            content: crate::ast::opt_str_view(self.content),
            description: crate::ast::opt_str_view(self.description),
        }
    }
}

impl DeepView for ItemData {
    type V = ItemV;

    open spec fn deep_view(&self) -> ItemV {
        self.view()
    }
}

/// View of `ChannelData`.
pub struct ChannelV {
    pub description: Seq<char>,
    pub link: Seq<char>,
    pub items: Seq<ItemV>,
}

/// One fetched feed channel, as plain values.
#[derive(Debug, Clone, PartialEq)]
pub struct ChannelData {
    pub description: String,
    pub link: String,
    pub items: Vec<ItemData>,
}

impl View for ChannelData {
    type V = ChannelV;

    open spec fn view(&self) -> ChannelV {
        ChannelV {
            description: self.description@,
            link: self.link@,
            items: self.items.deep_view(),
        }
    }
}

impl DeepView for ChannelData {
    type V = ChannelV;

    open spec fn deep_view(&self) -> ChannelV {
        self.view()
    }
}

/// The markup an item's article body is parsed from: its content, else its
/// description, else nothing.
pub open spec fn item_html(it: ItemV) -> Seq<char> {
    match it.content {
        Some(c) => c,
        None => match it.description {
            Some(d) => d,
            None => Seq::empty(),
        },
    }
}

/// The article one feed item yields.
pub open spec fn article_of_item(it: ItemV, feed_name: Seq<char>) -> crate::ast::ArticleV {
    crate::ast::ArticleV {
        title: match it.title {
            Some(t) => t,
            None => "Untitled"@,
        },
        metadata: crate::ast::ArticleMetaV {
            published_date: it.pub_date,
            author: None,
            url: it.link,
            feed_name,
        },
        comments: Seq::empty(),
        content: parse_result(item_html(it)),
    }
}

/// The feed one channel yields.
pub open spec fn feed_of_channel(name: Seq<char>, ch: ChannelV) -> crate::ast::FeedV {
    crate::ast::FeedV {
        name,
        description: Some(ch.description),
        url: Some(ch.link),
        articles: ch.items.map_values(|it: ItemV| article_of_item(it, name)),
    }
}

/// Builds the article of one feed item.
fn item_to_article(it: &ItemData, feed_name: &String) -> (a: crate::ast::Article)
    ensures
        a@ == article_of_item(it@, feed_name@),
{
    let title = match &it.title {
        Some(t) => t.clone(),
        None => chars_to_string(str_to_chars("Untitled")),
    };
    let mut article = crate::ast::Article::new(title, feed_name.clone());
    match &it.pub_date {
        Some(d) => {
            article = article.with_published_date(d.clone());
        },
        None => {},
    }
    match &it.link {
        Some(u) => {
            article = article.with_url(u.clone());
        },
        None => {},
    }
    let blocks = match &it.content {
        Some(c) => parse_html_to_content_blocks(c.as_str()),
        None => match &it.description {
            Some(d) => parse_html_to_content_blocks(d.as_str()),
            None => parse_html_to_content_blocks(""),
        },
    };
    proof {
        if it@.content is None && it@.description is None {
            reveal_strlit("");
            assert(""@ =~= item_html(it@));
        }
    }
    let article = article.with_content(blocks);
    proof {
        assert(article@ =~= article_of_item(it@, feed_name@));
    }
    article
}

/// Assembles named channels into a document: one feed per channel, one
/// article per item, bodies parsed from each item's markup.
pub fn parse_feeds_to_document(
    channels: &Vec<(String, ChannelData)>,
    title: String,
    author: String,
) -> (r: crate::ast::Document)
    ensures
        r@.metadata.title == title@,
        r@.metadata.author == author@,
        r@.metadata.description == Some("Aggregated RSS feeds"@),
        r@.front_page is None,
        r@.feeds == channels.deep_view().map_values(
            |p: (Seq<char>, ChannelV)| feed_of_channel(p.0, p.1),
        ),
{
    let mut document = crate::ast::Document::new(title, author);
    document.metadata.description = Some(chars_to_string(str_to_chars("Aggregated RSS feeds")));
    let ghost expected = channels.deep_view().map_values(
        |p: (Seq<char>, ChannelV)| feed_of_channel(p.0, p.1),
    );
    let mut i: usize = 0;
    proof {
        assert(document@.feeds =~= expected.take(0));
    }
    while i < channels.len()
        invariant
            i <= channels@.len(),
            expected == channels.deep_view().map_values(
                |p: (Seq<char>, ChannelV)| feed_of_channel(p.0, p.1),
            ),
            expected.len() == channels@.len(),
            document@.metadata.title == title@,
            document@.metadata.author == author@,
            document@.metadata.description == Some("Aggregated RSS feeds"@),
            document@.front_page is None,
            document@.feeds == expected.take(i as int),
        decreases channels.len() - i,
    {
        let name = &channels[i].0;
        let ch = &channels[i].1;
        proof {
            assert(channels.deep_view()[i as int] == channels@[i as int].deep_view());
        }
        let mut feed = crate::ast::Feed::new(name.clone()).with_description(
            ch.description.clone(),
        ).with_url(ch.link.clone());
        let ghost arts = ch@.items.map_values(
            |it: ItemV| article_of_item(it, name@),
        );
        let mut j: usize = 0;
        proof {
            assert(feed@.articles =~= arts.take(0));
        }
        while j < ch.items.len()
            invariant
                j <= ch.items@.len(),
                i < channels@.len(),
                name == &channels@[i as int].0,
                ch == &channels@[i as int].1,
                arts == ch@.items.map_values(|it: ItemV| article_of_item(it, name@)),
                arts.len() == ch.items@.len(),
                feed@.name == name@,
                feed@.description == Some(ch@.description),
                feed@.url == Some(ch@.link),
                feed@.articles == arts.take(j as int),
            decreases ch.items.len() - j,
        {
            let article = item_to_article(&ch.items[j], name);
            proof {
                assert(ch@.items[j as int] == ch.items@[j as int].deep_view());
            }
            feed.add_article(article);
            proof {
                assert(arts.take(j + 1).drop_last() =~= arts.take(j as int));
                assert(arts.take(j + 1).last() == arts[j as int]);
                assert(feed@.articles =~= arts.take(j + 1));
            }
            j = j + 1;
        }
        proof {
            assert(arts.take(ch.items@.len() as int) =~= arts);
            assert(feed@ =~= feed_of_channel(name@, ch@));
            assert(feed@ == expected[i as int]);
        }
        document.add_feed(feed);
        proof {
            assert(expected.take(i + 1).drop_last() =~= expected.take(i as int));
            assert(expected.take(i + 1).last() == expected[i as int]);
            assert(document@.feeds =~= expected.take(i + 1));
        }
        i = i + 1;
    }
    proof {
        assert(expected.take(channels@.len() as int) =~= expected);
    }
    document
}

} // verus!
