//! Character-level string utilities shared by the parser, the renderers and
//! the interchange codec.  All logic works over `Vec<char>` / `Seq<char>`;
//! `String` values appear only at the public boundary.

use vstd::prelude::*;

verus! {

/// Whether a character has the Unicode `White_Space` property, as
/// `char::is_whitespace` decides it.
pub uninterp spec fn is_unicode_ws(c: char) -> bool;

/// Relies on char::is_whitespace: the Unicode `White_Space` property.
/// The documentation lists the ASCII members, stated here as facts.
#[verifier::external_body]
pub(crate) fn char_is_ws(c: char) -> (r: bool)
    ensures
        r == is_unicode_ws(c),
        c == ' ' || c == '\t' || c == '\n' || c == '\r' ==> r,
        'a' <= c <= 'z' || 'A' <= c <= 'Z' || '0' <= c <= '9' ==> !r,
{
    c.is_whitespace()
}

/// Every character of the sequence is whitespace.
pub open spec fn seq_blank(s: Seq<char>) -> bool {
    forall|i: int| 0 <= i < s.len() ==> is_unicode_ws(s[i])
}

/// Relies on String's FromIterator over characters: the resulting string
/// holds exactly the given characters, in order.
#[verifier::external_body]
pub(crate) fn chars_to_string(v: Vec<char>) -> (s: String)
    ensures
        s@ == v@,
{
    String::from_iter(v)
}

/// The characters of a string slice, as a vector.
pub(crate) fn str_to_chars(s: &str) -> (r: Vec<char>)
    ensures
        r@ == s@,
{
    let n = s.unicode_len();
    let mut r: Vec<char> = Vec::new();
    let mut i: usize = 0;
    while i < n
        invariant
            n == s@.len(),
            i <= n,
            r@ == s@.take(i as int),
        decreases n - i,
    {
        r.push(s.get_char(i));
        proof {
            assert(r@ =~= s@.take(i + 1));
        }
        i = i + 1;
    }
    proof {
        assert(r@ =~= s@);
    }
    r
}

/// Whether the whole string is blank (empty or all-whitespace).
pub(crate) fn str_is_blank(s: &str) -> (r: bool)
    ensures
        r == seq_blank(s@),
{
    let n = s.unicode_len();
    let mut i: usize = 0;
    while i < n
        invariant
            n == s@.len(),
            i <= n,
            forall|j: int| 0 <= j < i ==> is_unicode_ws(s@[j]),
        decreases n - i,
    {
        if !char_is_ws(s.get_char(i)) {
            return false;
        }
        i = i + 1;
    }
    true
}

/// Whether every character of the vector is whitespace.
pub(crate) fn chars_are_blank(v: &Vec<char>) -> (r: bool)
    ensures
        r == seq_blank(v@),
{
    let mut i: usize = 0;
    while i < v.len()
        invariant
            i <= v.len(),
            forall|j: int| 0 <= j < i ==> is_unicode_ws(v@[j]),
        decreases v.len() - i,
    {
        if !char_is_ws(v[i]) {
            return false;
        }
        i = i + 1;
    }
    true
}

/// Character-wise equality of two string slices.
pub(crate) fn str_eq_str(a: &str, b: &str) -> (r: bool)
    ensures
        r == (a@ == b@),
{
    let na = a.unicode_len();
    let nb = b.unicode_len();
    if na != nb {
        proof {
            assert(a@ != b@) by {
                if a@ == b@ {
                    assert(a@.len() == b@.len());
                }
            }
        }
        return false;
    }
    let mut i: usize = 0;
    while i < na
        invariant
            na == a@.len(),
            na == b@.len(),
            i <= na,
            forall|j: int| 0 <= j < i ==> a@[j] == b@[j],
        decreases na - i,
    {
        if a.get_char(i) != b.get_char(i) {
            return false;
        }
        i = i + 1;
    }
    proof {
        assert(a@ =~= b@);
    }
    true
}

/// Character-wise equality of an owned string and a literal.
pub(crate) fn string_is(s: &String, lit: &str) -> (r: bool)
    ensures
        r == (s@ == lit@),
{
    str_eq_str(s.as_str(), lit)
}

/// Appends the characters of a string slice to a character vector.
pub(crate) fn push_str_chars(v: &mut Vec<char>, s: &str)
    ensures
        final(v)@ == old(v)@ + s@,
{
    let n = s.unicode_len();
    let mut i: usize = 0;
    while i < n
        invariant
            n == s@.len(),
            i <= n,
            v@ == old(v)@ + s@.take(i as int),
        decreases n - i,
    {
        v.push(s.get_char(i));
        proof {
            assert(old(v)@ + s@.take(i + 1) =~= (old(v)@ + s@.take(i as int)).push(s@[i as int]));
        }
        i = i + 1;
    }
    proof {
        assert(old(v)@ + s@.take(n as int) =~= old(v)@ + s@);
    }
}

/// Appends the characters of another vector.
pub(crate) fn push_chars(v: &mut Vec<char>, s: &Vec<char>)
    ensures
        final(v)@ == old(v)@ + s@,
{
    let mut i: usize = 0;
    while i < s.len()
        invariant
            i <= s@.len(),
            v@ == old(v)@ + s@.take(i as int),
        decreases s@.len() - i,
    {
        v.push(s[i]);
        proof {
            assert(old(v)@ + s@.take(i + 1) =~= (old(v)@ + s@.take(i as int)).push(s@[i as int]));
        }
        i = i + 1;
    }
    proof {
        assert(old(v)@ + s@.take(s@.len() as int) =~= old(v)@ + s@);
    }
}

/// The index of the first non-whitespace character, or the length if none.
pub open spec fn first_non_ws(s: Seq<char>) -> int
    decreases s.len(),
{
    if s.len() == 0 {
        0
    } else if !is_unicode_ws(s[0]) {
        0
    } else {
        1 + first_non_ws(s.drop_first())
    }
}

/// The index just past the last non-whitespace character, or 0 if none.
pub open spec fn last_non_ws_end(s: Seq<char>) -> int
    decreases s.len(),
{
    if s.len() == 0 {
        0
    } else if !is_unicode_ws(s.last()) {
        s.len() as int
    } else {
        last_non_ws_end(s.drop_last())
    }
}

/// The sequence with leading and trailing whitespace removed.
pub open spec fn trim_seq(s: Seq<char>) -> Seq<char> {
    if seq_blank(s) {
        Seq::empty()
    } else {
        s.subrange(first_non_ws(s), last_non_ws_end(s))
    }
}

pub(crate) proof fn lemma_first_non_ws_bounds(s: Seq<char>)
    ensures
        0 <= first_non_ws(s) <= s.len(),
        forall|j: int| 0 <= j < first_non_ws(s) ==> is_unicode_ws(s[j]),
        first_non_ws(s) < s.len() ==> !is_unicode_ws(s[first_non_ws(s)]),
    decreases s.len(),
{
    if s.len() == 0 {
    } else if !is_unicode_ws(s[0]) {
    } else {
        lemma_first_non_ws_bounds(s.drop_first());
        assert forall|j: int| 0 <= j < first_non_ws(s) implies is_unicode_ws(s[j]) by {
            if j > 0 {
                assert(s.drop_first()[j - 1] == s[j]);
            }
        }
        if first_non_ws(s) < s.len() {
            assert(s.drop_first()[first_non_ws(s) - 1] == s[first_non_ws(s)]);
        }
    }
}

pub(crate) proof fn lemma_last_non_ws_end_bounds(s: Seq<char>)
    ensures
        0 <= last_non_ws_end(s) <= s.len(),
        forall|j: int| last_non_ws_end(s) <= j < s.len() ==> is_unicode_ws(s[j]),
        last_non_ws_end(s) > 0 ==> !is_unicode_ws(s[last_non_ws_end(s) - 1]),
    decreases s.len(),
{
    if s.len() == 0 {
    } else if !is_unicode_ws(s.last()) {
    } else {
        lemma_last_non_ws_end_bounds(s.drop_last());
        assert forall|j: int| last_non_ws_end(s) <= j < s.len() implies is_unicode_ws(s[j]) by {
            if j < s.len() - 1 {
                assert(s.drop_last()[j] == s[j]);
            }
        }
        if last_non_ws_end(s) > 0 {
            assert(s.drop_last()[last_non_ws_end(s) - 1] == s[last_non_ws_end(s) - 1]);
        }
    }
}

/// Removes leading and trailing whitespace from a character vector.
pub(crate) fn trim_chars(v: &Vec<char>) -> (r: Vec<char>)
    ensures
        r@ == trim_seq(v@),
{
    proof {
        lemma_first_non_ws_bounds(v@);
        lemma_last_non_ws_end_bounds(v@);
    }
    let n = v.len();
    let mut start: usize = 0;
    while start < n && char_is_ws(v[start])
        invariant
            n == v@.len(),
            start <= n,
            forall|j: int| 0 <= j < start ==> is_unicode_ws(v@[j]),
        decreases n - start,
    {
        start = start + 1;
    }
    if start == n {
        proof {
            assert(seq_blank(v@));
        }
        return Vec::new();
    }
    proof {
        assert(!is_unicode_ws(v@[start as int]));
        assert(!seq_blank(v@));
        // start equals the first non-whitespace index
        assert(start as int == first_non_ws(v@)) by {
            lemma_first_non_ws_bounds(v@);
            if (start as int) < first_non_ws(v@) {
                assert(is_unicode_ws(v@[start as int]));
            }
            if first_non_ws(v@) < start as int {
                assert(is_unicode_ws(v@[first_non_ws(v@)]));
            }
        }
    }
    let mut end: usize = n;
    while end > start && char_is_ws(v[end - 1])
        invariant
            n == v@.len(),
            start < n,
            start <= end <= n,
            forall|j: int| end <= j < n ==> is_unicode_ws(v@[j]),
            !is_unicode_ws(v@[start as int]),
        decreases end,
    {
        end = end - 1;
    }
    proof {
        assert(end > start);
        assert(!is_unicode_ws(v@[end - 1]));
        assert(end as int == last_non_ws_end(v@)) by {
            lemma_last_non_ws_end_bounds(v@);
            if (end as int) < last_non_ws_end(v@) {
                assert(is_unicode_ws(v@[last_non_ws_end(v@) - 1]));
            }
            if last_non_ws_end(v@) < end as int {
                assert(is_unicode_ws(v@[end - 1]));
            }
        }
    }
    let mut r: Vec<char> = Vec::new();
    let mut i: usize = start;
    while i < end
        invariant
            n == v@.len(),
            start <= i <= end <= n,
            r@ == v@.subrange(start as int, i as int),
        decreases end - i,
    {
        r.push(v[i]);
        proof {
            assert(v@.subrange(start as int, i + 1) =~= v@.subrange(start as int, i as int).push(
                v@[i as int],
            ));
        }
        i = i + 1;
    }
    proof {
        assert(r@ =~= trim_seq(v@));
    }
    r
}


/// Whether `pat` occurs in `s` at position `i`.
pub open spec fn sub_at(s: Seq<char>, pat: Seq<char>, i: int) -> bool {
    0 <= i && i + pat.len() <= s.len() && s.subrange(i, i + pat.len() as int) == pat
}

/// The first position where `pat` occurs in `s`, if any.
pub open spec fn find_sub(s: Seq<char>, pat: Seq<char>) -> Option<int>
    decreases s.len(),
{
    if pat.len() > s.len() {
        None
    } else if s.subrange(0, pat.len() as int) == pat {
        Some(0)
    } else if s.len() == 0 {
        None
    } else {
        match find_sub(s.drop_first(), pat) {
            Some(i) => Some(i + 1),
            None => None,
        }
    }
}

pub proof fn lemma_find_sub(s: Seq<char>, pat: Seq<char>)
    ensures
        match find_sub(s, pat) {
            Some(i) => sub_at(s, pat, i) && forall|j: int| 0 <= j < i ==> !sub_at(s, pat, j),
            None => forall|j: int| !sub_at(s, pat, j),
        },
    decreases s.len(),
{
    if pat.len() > s.len() {
        assert forall|j: int| !sub_at(s, pat, j) by {}
    } else if s.subrange(0, pat.len() as int) == pat {
        assert(sub_at(s, pat, 0));
    } else if s.len() == 0 {
        assert forall|j: int| !sub_at(s, pat, j) by {
            if 0 <= j && j + pat.len() <= s.len() {
                assert(j == 0);
            }
        }
    } else {
        lemma_find_sub(s.drop_first(), pat);
        assert forall|j: int| 1 <= j && j + pat.len() <= s.len() implies (sub_at(s, pat, j)
            <==> sub_at(s.drop_first(), pat, j - 1)) by {
            assert(s.drop_first().subrange(j - 1, j - 1 + pat.len() as int) =~= s.subrange(
                j,
                j + pat.len() as int,
            ));
        }
        match find_sub(s.drop_first(), pat) {
            Some(i) => {
                assert(sub_at(s.drop_first(), pat, i));
                assert(sub_at(s, pat, i + 1));
                assert forall|j: int| 0 <= j < i + 1 implies !sub_at(s, pat, j) by {
                    if j == 0 {
                        assert(!sub_at(s, pat, 0));
                    } else {
                        assert(!sub_at(s.drop_first(), pat, j - 1));
                    }
                }
            },
            None => {
                assert forall|j: int| !sub_at(s, pat, j) by {
                    if 0 <= j && j + pat.len() <= s.len() {
                        if j == 0 {
                            assert(!sub_at(s, pat, 0));
                        } else {
                            assert(!sub_at(s.drop_first(), pat, j - 1));
                        }
                    }
                }
            },
        }
    }
}


/// Whether the characters at `pos` start the given pattern.
pub(crate) fn starts_with_at(v: &Vec<char>, pos: usize, pat: &str) -> (r: bool)
    requires
        pos <= v@.len(),
    ensures
        r == sub_at(v@, pat@, pos as int),
{
    let m = pat.unicode_len();
    if v.len() - pos < m {
        proof {
            assert(!sub_at(v@, pat@, pos as int));
        }
        return false;
    }
    let mut u: usize = 0;
    while u < m
        invariant
            v@.len() <= usize::MAX,
            m == pat@.len(),
            pos + m <= v@.len(),
            u <= m,
            forall|w: int| 0 <= w < u ==> v@[pos + w] == pat@[w],
        decreases m - u,
    {
        if v[pos + u] != pat.get_char(u) {
            proof {
                assert(v@.subrange(pos as int, pos + m as int)[u as int] == v@[pos + u]);
                assert(!sub_at(v@, pat@, pos as int));
            }
            return false;
        }
        u = u + 1;
    }
    proof {
        assert(v@.subrange(pos as int, pos + m as int) =~= pat@);
    }
    true
}

/// The first position where the pattern occurs, searching the whole
/// vector.
pub(crate) fn find_first_sub(v: &Vec<char>, pat: &str) -> (r: Option<usize>)
    requires
        pat@.len() >= 1,
    ensures
        match r {
            Some(p) => find_sub(v@, pat@) == Some(p as int),
            None => find_sub(v@, pat@) is None,
        },
{
    proof {
        lemma_find_sub(v@, pat@);
    }
    let n = v.len();
    let mut pos: usize = 0;
    while pos < n
        invariant
            n == v@.len(),
            pos <= n,
            forall|j: int| 0 <= j < pos ==> !sub_at(v@, pat@, j),
        decreases n - pos,
    {
        if starts_with_at(v, pos, pat) {
            proof {
                lemma_find_sub(v@, pat@);
                assert(find_sub(v@, pat@) == Some(pos as int));
            }
            return Some(pos);
        }
        pos = pos + 1;
    }
    proof {
        lemma_find_sub(v@, pat@);
        assert forall|j: int| !sub_at(v@, pat@, j) by {
            if 0 <= j && j + pat@.len() <= v@.len() {
                assert(j < pos);
            }
        }
        assert(find_sub(v@, pat@) is None);
    }
    None
}


/// The input with every occurrence of `pat` removed, scanning left to
/// right without overlap.
pub open spec fn remove_sub_all(s: Seq<char>, pat: Seq<char>) -> Seq<char>
    decreases s.len(),
{
    if pat.len() == 0 {
        s
    } else if s.len() < pat.len() {
        s
    } else if s.subrange(0, pat.len() as int) == pat {
        remove_sub_all(s.skip(pat.len() as int), pat)
    } else {
        seq![s[0]] + remove_sub_all(s.drop_first(), pat)
    }
}

/// Removes every occurrence of the pattern.
pub(crate) fn remove_sub_chars(v: &Vec<char>, pat: &str) -> (r: Vec<char>)
    requires
        pat@.len() >= 1,
    ensures
        r@ == remove_sub_all(v@, pat@),
{
    let n = v.len();
    let m = pat.unicode_len();
    let mut out: Vec<char> = Vec::new();
    let mut pos: usize = 0;
    proof {
        assert(v@.skip(0) =~= v@);
    }
    while pos < n
        invariant
            n == v@.len(),
            m == pat@.len(),
            m >= 1,
            pos <= n,
            remove_sub_all(v@, pat@) == out@ + remove_sub_all(v@.skip(pos as int), pat@),
        decreases n - pos,
    {
        let ghost rest = v@.skip(pos as int);
        proof {
            assert(rest[0] == v@[pos as int]);
            assert(rest.drop_first() =~= v@.skip(pos + 1));
        }
        if starts_with_at(v, pos, pat) {
            proof {
                assert(rest.subrange(0, m as int) =~= v@.subrange(pos as int, pos + m as int));
                assert(rest.skip(m as int) =~= v@.skip(pos + m));
                assert(remove_sub_all(rest, pat@) == remove_sub_all(v@.skip(pos + m), pat@));
            }
            pos = pos + m;
        } else {
            out.push(v[pos]);
            proof {
                if rest.len() >= m {
                    assert(rest.subrange(0, m as int) =~= v@.subrange(
                        pos as int,
                        pos + m as int,
                    ));
                }
                assert(remove_sub_all(rest, pat@) == seq![rest[0]] + remove_sub_all(
                    rest.drop_first(),
                    pat@,
                ));
                assert(out@ + remove_sub_all(v@.skip(pos + 1), pat@) =~= out@.drop_last()
                    + remove_sub_all(rest, pat@));
            }
            pos = pos + 1;
        }
    }
    proof {
        assert(v@.skip(n as int) =~= Seq::<char>::empty());
        assert(out@ + remove_sub_all(Seq::<char>::empty(), pat@) =~= out@);
    }
    out
}


/// Trimming never lengthens a sequence.
pub(crate) proof fn lemma_trim_le(s: Seq<char>)
    ensures
        trim_seq(s).len() <= s.len(),
{
    if !seq_blank(s) {
        lemma_first_non_ws_bounds(s);
        lemma_last_non_ws_end_bounds(s);
        if first_non_ws(s) <= last_non_ws_end(s) {
        } else {
            assert(is_unicode_ws(s[first_non_ws(s) - 1]));
        }
    }
}

/// The decimal representation of a natural number, most significant digit
/// first, with no leading zeros (a single `'0'` for zero).
pub open spec fn dec_rep(n: nat) -> Seq<char>
    decreases n,
{
    if n < 10 {
        seq![digit_char(n)]
    } else {
        dec_rep(n / 10) + seq![digit_char(n % 10)]
    }
}

/// The character for one decimal digit.
pub open spec fn digit_char(d: nat) -> char {
    ((d + 48) as u8) as char
}

/// The decimal digits of a number below `u64::MAX`, as characters.
pub(crate) fn u64_dec_chars(n: u64) -> (r: Vec<char>)
    ensures
        r@ == dec_rep(n as nat),
    decreases n,
{
    if n < 10 {
        let d: u8 = (n as u8) + 48;
        let mut r: Vec<char> = Vec::new();
        r.push(d as char);
        proof {
            assert(r@ =~= seq![digit_char(n as nat)]);
        }
        r
    } else {
        let mut r = u64_dec_chars(n / 10);
        let d: u8 = ((n % 10) as u8) + 48;
        r.push(d as char);
        proof {
            assert(r@ =~= dec_rep((n / 10) as nat) + seq![digit_char((n % 10) as nat)]);
        }
        r
    }
}

} // verus!
