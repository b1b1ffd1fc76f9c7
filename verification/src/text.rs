//! Verified text utilities: conversion between strings and character
//! vectors, the `%09` / `%0D%0A` delimiter escaping used by the page
//! fetcher, whitespace trimming, and decimal rendering and parsing.

use vstd::prelude::*;

verus! {

/// Relies on std's `String::push`: appends the given character to the end
/// of the string.
pub assume_specification[ String::push ](s: &mut String, c: char)
    ensures
        final (s)@ == old(s)@.push(c),
;

/// The characters of `s`, in order, as a vector.
pub fn str_chars(s: &str) -> (v: Vec<char>)
    ensures
        v@ == s@,
{
    let n = s.unicode_len();
    let mut v: Vec<char> = Vec::new();
    let mut i: usize = 0;
    while i < n
        invariant
            i <= n,
            n == s@.len(),
            v@ == s@.take(i as int),
        decreases n - i,
    {
        v.push(s.get_char(i));
        i = i + 1;
        assert(s@.take(i as int) =~= s@.take(i - 1).push(s@[i - 1]));
    }
    assert(s@.take(n as int) =~= s@);
    v
}

/// A string holding exactly the characters of `v`, in order.
pub fn string_from_chars(v: &[char]) -> (s: String)
    ensures
        s@ == v@,
{
    let mut s = String::new();
    let mut i: usize = 0;
    while i < v.len()
        invariant
            i <= v@.len(),
            s@ == v@.take(i as int),
        decreases v@.len() - i,
    {
        s.push(v[i]);
        i = i + 1;
        assert(v@.take(i as int) =~= v@.take(i - 1).push(v@[i - 1]));
    }
    assert(v@.take(v@.len() as int) =~= v@);
    s
}

/// How one character is written in the escaped form: tab becomes `%09`,
/// newline becomes `%0D%0A`, anything else stands as itself.
pub open spec fn escape_char(c: char) -> Seq<char> {
    if c == '\t' {
        seq!['%', '0', '9']
    } else if c == '\n' {
        seq!['%', '0', 'D', '%', '0', 'A']
    } else {
        seq![c]
    }
}

/// The escaped form of a whole character sequence.
pub open spec fn escape_seq(s: Seq<char>) -> Seq<char>
    decreases s.len(),
{
    if s.len() == 0 {
        Seq::empty()
    } else {
        escape_seq(s.drop_last()) + escape_char(s.last())
    }
}

/// The escaped form holds neither a tab nor a newline, so it is safe for a
/// tab- and newline-delimited flat record.
pub proof fn lemma_escape_no_delims(s: Seq<char>)
    ensures
        crate::ksbd_page::no_delims(escape_seq(s)),
    decreases s.len(),
{
    if s.len() > 0 {
        lemma_escape_no_delims(s.drop_last());
    }
}

/// Escapes every character of `s`.
pub fn escape_chars(s: &[char]) -> (r: Vec<char>)
    ensures
        r@ == escape_seq(s@),
{
    let mut r: Vec<char> = Vec::new();
    let mut i: usize = 0;
    while i < s.len()
        invariant
            i <= s@.len(),
            r@ == escape_seq(s@.take(i as int)),
        decreases s@.len() - i,
    {
        let c = s[i];
        if c == '\t' {
            r.push('%');
            r.push('0');
            r.push('9');
        } else if c == '\n' {
            r.push('%');
            r.push('0');
            r.push('D');
            r.push('%');
            r.push('0');
            r.push('A');
        } else {
            r.push(c);
        }
        i = i + 1;
        proof {
            let t = s@.take(i as int);
            assert(t.drop_last() =~= s@.take(i - 1));
            assert(t.last() == s@[i - 1]);
            assert(r@ =~= escape_seq(s@.take(i - 1)) + escape_char(s@[i - 1]));
        }
    }
    assert(s@.take(s@.len() as int) =~= s@);
    r
}

/// The unescaped form: `%09` reads back as a tab, `%0D%0A` as a newline,
/// any other character as itself.
pub open spec fn unescape_seq(s: Seq<char>) -> Seq<char>
    decreases s.len(),
{
    if s.len() == 0 {
        Seq::empty()
    } else if s.len() >= 3 && s[0] == '%' && s[1] == '0' && s[2] == '9' {
        seq!['\t'] + unescape_seq(s.skip(3))
    } else if s.len() >= 6 && s[0] == '%' && s[1] == '0' && s[2] == 'D' && s[3] == '%' && s[4]
        == '0' && s[5] == 'A' {
        seq!['\n'] + unescape_seq(s.skip(6))
    } else {
        seq![s[0]] + unescape_seq(s.skip(1))
    }
}

/// Reads the escaped sequences of `s` back into the characters they stand
/// for.
pub fn unescape_chars(s: &[char]) -> (r: Vec<char>)
    ensures
        r@ == unescape_seq(s@),
{
    let n = s.len();
    let mut r: Vec<char> = Vec::new();
    let mut i: usize = 0;
    proof {
        assert(s@.skip(0) =~= s@);
        assert(Seq::<char>::empty() + unescape_seq(s@) =~= unescape_seq(s@));
    }
    while i < n
        invariant
            i <= n,
            n == s@.len(),
            unescape_seq(s@) == r@ + unescape_seq(s@.skip(i as int)),
        decreases n - i,
    {
        let ghost pre = s@.skip(i as int);
        if n - i >= 3 && s[i] == '%' && s[i + 1] == '0' && s[i + 2] == '9' {
            r.push('\t');
            i = i + 3;
            assert(unescape_seq(pre) == seq!['\t'] + unescape_seq(s@.skip(i as int))) by {
                assert(pre.skip(3) =~= s@.skip(i as int));
            }
        } else if n - i >= 6 && s[i] == '%' && s[i + 1] == '0' && s[i + 2] == 'D' && s[i + 3]
            == '%' && s[i + 4] == '0' && s[i + 5] == 'A' {
            r.push('\n');
            i = i + 6;
            assert(unescape_seq(pre) == seq!['\n'] + unescape_seq(s@.skip(i as int))) by {
                assert(pre.skip(6) =~= s@.skip(i as int));
            }
        } else {
            r.push(s[i]);
            i = i + 1;
            assert(unescape_seq(pre) == seq![s@[i - 1]] + unescape_seq(s@.skip(i as int))) by {
                assert(pre.skip(1) =~= s@.skip(i as int));
            }
        }
    }
    proof {
        assert(s@.skip(n as int) =~= Seq::<char>::empty());
        assert(r@ + Seq::<char>::empty() =~= r@);
    }
    r
}

/// The whitespace characters that trimming removes.
pub open spec fn is_space(c: char) -> bool {
    c == ' ' || c == '\t' || c == '\n' || c == '\r'
}

/// Tells whether `c` is one of the whitespace characters that trimming
/// removes.
pub fn is_space_char(c: char) -> (b: bool)
    ensures
        b == is_space(c),
{
    c == ' ' || c == '\t' || c == '\n' || c == '\r'
}

/// `s` without its leading whitespace.
pub open spec fn trim_start_spec(s: Seq<char>) -> Seq<char>
    decreases s.len(),
{
    if s.len() > 0 && is_space(s[0]) {
        trim_start_spec(s.drop_first())
    } else {
        s
    }
}

/// `s` without its trailing whitespace.
pub open spec fn trim_end_spec(s: Seq<char>) -> Seq<char>
    decreases s.len(),
{
    if s.len() > 0 && is_space(s.last()) {
        trim_end_spec(s.drop_last())
    } else {
        s
    }
}

/// `s` without leading or trailing whitespace.
pub open spec fn trim_spec(s: Seq<char>) -> Seq<char> {
    trim_end_spec(trim_start_spec(s))
}

/// Removes leading and trailing whitespace.
pub fn trim_chars(s: &[char]) -> (r: Vec<char>)
    ensures
        r@ == trim_spec(s@),
{
    let n = s.len();
    let mut a: usize = 0;
    proof {
        assert(s@.skip(0) =~= s@);
    }
    while a < n && is_space_char(s[a])
        invariant
            a <= n,
            n == s@.len(),
            trim_start_spec(s@) == trim_start_spec(s@.skip(a as int)),
        decreases n - a,
    {
        proof {
            assert(s@.skip(a as int).drop_first() =~= s@.skip(a + 1));
        }
        a = a + 1;
    }
    proof {
        assert(trim_start_spec(s@.skip(a as int)) == s@.skip(a as int));
        assert(s@.skip(a as int) =~= s@.subrange(a as int, n as int));
    }
    let mut b: usize = n;
    while b > a && is_space_char(s[b - 1])
        invariant
            a <= b <= n,
            n == s@.len(),
            trim_end_spec(s@.subrange(a as int, n as int)) == trim_end_spec(
                s@.subrange(a as int, b as int),
            ),
        decreases b,
    {
        proof {
            assert(s@.subrange(a as int, b as int).drop_last() =~= s@.subrange(a as int, b - 1));
            assert(s@.subrange(a as int, b as int).last() == s@[b - 1]);
        }
        b = b - 1;
    }
    proof {
        assert(trim_end_spec(s@.subrange(a as int, b as int)) == s@.subrange(a as int, b as int));
    }
    let mut r: Vec<char> = Vec::new();
    let mut j: usize = a;
    while j < b
        invariant
            a <= j <= b <= n,
            n == s@.len(),
            r@ == s@.subrange(a as int, j as int),
        decreases b - j,
    {
        r.push(s[j]);
        j = j + 1;
        proof {
            assert(s@.subrange(a as int, j as int) =~= s@.subrange(a as int, j - 1).push(
                s@[j - 1],
            ));
        }
    }
    r
}

/// The decimal digit character for a value between 0 and 9.
pub open spec fn dec_digit(d: int) -> char {
    ((48 + d) as u8) as char
}

/// The decimal rendering of a non-negative number, most significant digit
/// first, with no leading zeros (a single `0` for zero).
pub open spec fn dec_rep(n: int) -> Seq<char>
    decreases n,
{
    if n < 10 {
        seq![dec_digit(n)]
    } else {
        dec_rep(n / 10).push(dec_digit(n % 10))
    }
}

fn push_dec(n: usize, out: &mut Vec<char>)
    ensures
        final (out)@ == old(out)@ + dec_rep(n as int),
    decreases n,
{
    if n >= 10 {
        push_dec(n / 10, out);
    }
    let d: u8 = 48 + (n % 10) as u8;
    out.push(d as char);
    proof {
        if n < 10 {
            assert(old(out)@ + dec_rep(n as int) =~= old(out)@.push(dec_digit(n as int)));
        } else {
            assert(old(out)@ + dec_rep(n as int) =~= (old(out)@ + dec_rep(n as int / 10)).push(
                dec_digit(n as int % 10),
            ));
        }
    }
}

/// The decimal rendering of `n` as characters.
pub fn dec_chars(n: usize) -> (r: Vec<char>)
    ensures
        r@ == dec_rep(n as int),
{
    let mut r: Vec<char> = Vec::new();
    push_dec(n, &mut r);
    proof {
        assert(Seq::<char>::empty() + dec_rep(n as int) =~= dec_rep(n as int));
    }
    r
}

/// The decimal rendering of `n` as a string.
pub fn dec_string(n: usize) -> (r: String)
    ensures
        r@ == dec_rep(n as int),
{
    let v = dec_chars(n);
    string_from_chars(v.as_slice())
}

/// A decimal digit character.
pub open spec fn is_digit(c: char) -> bool {
    '0' <= c && c <= '9'
}

/// The numeric value of a decimal digit character.
pub open spec fn digit_val(c: char) -> int {
    c as int - 48
}

pub open spec fn all_digits(s: Seq<char>) -> bool {
    forall|i: int| 0 <= i < s.len() ==> is_digit(s[i])
}

/// The number that a sequence of decimal digits denotes (0 for the empty
/// sequence).
pub open spec fn dec_val(s: Seq<char>) -> int
    decreases s.len(),
{
    if s.len() == 0 {
        0
    } else {
        dec_val(s.drop_last()) * 10 + digit_val(s.last())
    }
}

pub proof fn lemma_dec_val_nonneg(s: Seq<char>)
    requires
        all_digits(s),
    ensures
        dec_val(s) >= 0,
    decreases s.len(),
{
    if s.len() > 0 {
        assert(all_digits(s.drop_last()));
        lemma_dec_val_nonneg(s.drop_last());
    }
}

/// A digit sequence denotes at least what any of its prefixes denotes.
pub proof fn lemma_dec_val_prefix(s: Seq<char>, i: int)
    requires
        all_digits(s),
        0 <= i <= s.len(),
    ensures
        dec_val(s.take(i)) <= dec_val(s),
    decreases s.len() - i,
{
    if i < s.len() {
        lemma_dec_val_prefix(s, i + 1);
        let t = s.take(i + 1);
        assert(t.drop_last() =~= s.take(i));
        assert(all_digits(s.take(i))) by {
            assert(forall|j: int| 0 <= j < i ==> s.take(i)[j] == s[j]);
        }
        lemma_dec_val_nonneg(s.take(i));
        assert(dec_val(t) == dec_val(s.take(i)) * 10 + digit_val(t.last()));
        assert(dec_val(s.take(i)) <= dec_val(t));
    } else {
        assert(s.take(i) =~= s);
    }
}

/// What parsing an unsigned decimal number accepts and yields: an optional
/// leading `+`, then one or more digits, denoting a value that fits.
pub open spec fn usize_parse_spec(s: Seq<char>) -> Option<int> {
    let t = if s.len() > 0 && s[0] == '+' {
        s.drop_first()
    } else {
        s
    };
    if t.len() > 0 && all_digits(t) && dec_val(t) <= usize::MAX as int {
        Some(dec_val(t))
    } else {
        None
    }
}

/// Parses an unsigned decimal number.
pub fn parse_usize(s: &[char]) -> (r: Option<usize>)
    ensures
        match r {
            Some(x) => usize_parse_spec(s@) == Some(x as int),
            None => usize_parse_spec(s@) is None,
        },
{
    let n = s.len();
    let start: usize = if n > 0 && s[0] == '+' {
        1
    } else {
        0
    };
    let ghost t = if s@.len() > 0 && s@[0] == '+' {
        s@.drop_first()
    } else {
        s@
    };
    proof {
        assert(t =~= s@.subrange(start as int, n as int));
    }
    if start == n {
        return None;
    }
    let mut acc: usize = 0;
    let mut i: usize = start;
    while i < n
        invariant
            start <= i <= n,
            n == s@.len(),
            t == s@.subrange(start as int, n as int),
            t == (if s@.len() > 0 && s@[0] == '+' {
                s@.drop_first()
            } else {
                s@
            }),
            all_digits(t.take(i - start)),
            acc as int == dec_val(t.take(i - start)),
        decreases n - i,
    {
        let c = s[i];
        if !(c >= '0' && c <= '9') {
            proof {
                assert(t[i - start] == s@[i as int]);
                assert(!is_digit(t[i - start]));
                assert(!all_digits(t));
            }
            return None;
        }
        let d: usize = (c as u32 as usize) - 48;
        let ghost pre = t.take(i - start);
        proof {
            assert(t.take(i + 1 - start).drop_last() =~= pre);
            assert(t.take(i + 1 - start).last() == s@[i as int]);
            assert(all_digits(t.take(i + 1 - start)));
        }
        let next = match acc.checked_mul(10) {
            Some(m) => m.checked_add(d),
            None => None,
        };
        match next {
            Some(v) => {
                acc = v;
            },
            None => {
                proof {
                    if all_digits(t) {
                        assert(dec_val(t.take(i + 1 - start)) > usize::MAX as int);
                        lemma_dec_val_prefix(t, i + 1 - start);
                    }
                }
                return None;
            },
        }
        i = i + 1;
    }
    proof {
        assert(t.take(n - start) =~= t);
    }
    Some(acc)
}

/// What parsing a signed decimal number accepts and yields: an optional
/// sign, then one or more digits, denoting a value that fits in `i64`.
pub open spec fn i64_parse_spec(s: Seq<char>) -> Option<int> {
    let signed = s.len() > 0 && (s[0] == '+' || s[0] == '-');
    let neg = s.len() > 0 && s[0] == '-';
    let t = if signed {
        s.drop_first()
    } else {
        s
    };
    if t.len() > 0 && all_digits(t) && (if neg {
        dec_val(t) <= 0x8000_0000_0000_0000
    } else {
        dec_val(t) <= i64::MAX as int
    }) {
        Some(
            if neg {
                -dec_val(t)
            } else {
                dec_val(t)
            },
        )
    } else {
        None
    }
}

/// Parses a signed decimal number.
pub fn parse_i64(s: &[char]) -> (r: Option<i64>)
    ensures
        match r {
            Some(x) => i64_parse_spec(s@) == Some(x as int),
            None => i64_parse_spec(s@) is None,
        },
{
    let n = s.len();
    let signed = n > 0 && (s[0] == '+' || s[0] == '-');
    let neg = n > 0 && s[0] == '-';
    let start: usize = if signed {
        1
    } else {
        0
    };
    let ghost t = if signed {
        s@.drop_first()
    } else {
        s@
    };
    proof {
        assert(t =~= s@.subrange(start as int, n as int));
    }
    if start == n {
        return None;
    }
    let mut acc: u64 = 0;
    let mut i: usize = start;
    while i < n
        invariant
            start <= i <= n,
            n == s@.len(),
            t == s@.subrange(start as int, n as int),
            t == (if s@.len() > 0 && (s@[0] == '+' || s@[0] == '-') {
                s@.drop_first()
            } else {
                s@
            }),
            neg == (s@.len() > 0 && s@[0] == '-'),
            all_digits(t.take(i - start)),
            acc as int == dec_val(t.take(i - start)),
        decreases n - i,
    {
        let c = s[i];
        if !(c >= '0' && c <= '9') {
            proof {
                assert(t[i - start] == s@[i as int]);
                assert(!is_digit(t[i - start]));
                assert(!all_digits(t));
            }
            return None;
        }
        let d: u64 = (c as u32 as u64) - 48;
        let ghost pre = t.take(i - start);
        proof {
            assert(t.take(i + 1 - start).drop_last() =~= pre);
            assert(t.take(i + 1 - start).last() == s@[i as int]);
            assert(all_digits(t.take(i + 1 - start)));
        }
        let next = match acc.checked_mul(10) {
            Some(m) => m.checked_add(d),
            None => None,
        };
        match next {
            Some(v) => {
                acc = v;
            },
            None => {
                proof {
                    if all_digits(t) {
                        assert(dec_val(t.take(i + 1 - start)) > u64::MAX as int);
                        lemma_dec_val_prefix(t, i + 1 - start);
                    }
                }
                return None;
            },
        }
        i = i + 1;
    }
    proof {
        assert(t.take(n - start) =~= t);
    }
    if neg {
        if acc <= 0x8000_0000_0000_0000 {
            if acc == 0x8000_0000_0000_0000 {
                Some(i64::MIN)
            } else {
                Some(-(acc as i64))
            }
        } else {
            None
        }
    } else {
        if acc <= i64::MAX as u64 {
            Some(acc as i64)
        } else {
            None
        }
    }
}

/// Whether `pat` occurs in `s` starting at position `i`.
pub open spec fn starts_with_at(s: Seq<char>, pat: Seq<char>, i: int) -> bool {
    0 <= i && i + pat.len() <= s.len() && forall|j: int|
        0 <= j < pat.len() ==> s[i + j] == pat[j]
}

/// Splitting `s` at every non-overlapping occurrence of `pat`, scanning
/// left to right. The result always holds at least one piece; a separator
/// at the edge or two adjacent separators yield empty pieces.
pub open spec fn split_pat_spec(s: Seq<char>, pat: Seq<char>) -> Seq<Seq<char>>
    decreases s.len(),
{
    if pat.len() == 0 {
        seq![s]
    } else if s.len() == 0 {
        seq![Seq::<char>::empty()]
    } else if starts_with_at(s, pat, 0) {
        seq![Seq::<char>::empty()] + split_pat_spec(s.skip(pat.len() as int), pat)
    } else {
        let r = split_pat_spec(s.drop_first(), pat);
        r.update(0, seq![s[0]] + r[0])
    }
}

pub proof fn lemma_split_pat_nonempty(s: Seq<char>, pat: Seq<char>)
    ensures
        split_pat_spec(s, pat).len() >= 1,
    decreases s.len(),
{
    if pat.len() > 0 && s.len() > 0 {
        if starts_with_at(s, pat, 0) {
            lemma_split_pat_nonempty(s.skip(pat.len() as int), pat);
        } else {
            lemma_split_pat_nonempty(s.drop_first(), pat);
        }
    }
}

/// Whether `pat` occurs in `s` at position `i`.
fn pat_at(s: &[char], pat: &[char], i: usize) -> (b: bool)
    requires
        i <= s@.len(),
    ensures
        b == starts_with_at(s@, pat@, i as int),
{
    let n = s.len();
    let m = pat.len();
    if n - i < m {
        return false;
    }
    let mut j: usize = 0;
    while j < m
        invariant
            j <= m,
            m == pat@.len(),
            n == s@.len(),
            i + m <= n,
            forall|q: int| 0 <= q < j ==> s@[i + q] == pat@[q],
        decreases m - j,
    {
        if s[i + j] != pat[j] {
            return false;
        }
        j = j + 1;
    }
    true
}

/// Splits `s` at every non-overlapping occurrence of `pat`, scanning left
/// to right.
pub fn split_pat(s: &[char], pat: &[char]) -> (r: Vec<Vec<char>>)
    requires
        pat@.len() >= 1,
    ensures
        r.deep_view() == split_pat_spec(s@, pat@),
{
    let n = s.len();
    let m = pat.len();
    let mut res: Vec<Vec<char>> = Vec::new();
    let mut cur: Vec<char> = Vec::new();
    let mut i: usize = 0;
    proof {
        assert(s@.skip(0) =~= s@);
        lemma_split_pat_nonempty(s@, pat@);
        let t = split_pat_spec(s@, pat@);
        assert(Seq::<Seq<char>>::empty() + seq![Seq::<char>::empty() + t[0]] + t.drop_first()
            =~= seq![t[0]] + t.drop_first());
        assert(seq![t[0]] + t.drop_first() =~= t);
        assert(Seq::<char>::empty() + t[0] =~= t[0]);
    }
    while i < n
        invariant
            i <= n,
            n == s@.len(),
            m == pat@.len(),
            m >= 1,
            split_pat_spec(s@.skip(i as int), pat@).len() >= 1,
            split_pat_spec(s@, pat@) == res.deep_view() + seq![
                cur@ + split_pat_spec(s@.skip(i as int), pat@)[0],
            ] + split_pat_spec(s@.skip(i as int), pat@).drop_first(),
        decreases n - i,
    {
        let ghost pre = s@.skip(i as int);
        let ghost t = split_pat_spec(pre, pat@);
        if pat_at(s, pat, i) {
            proof {
                assert(starts_with_at(pre, pat@, 0)) by {
                    assert(forall|j: int| 0 <= j < m ==> pre[j] == s@[i + j]);
                }
                assert(pre.skip(m as int) =~= s@.skip(i + m));
                lemma_split_pat_nonempty(s@.skip(i + m), pat@);
            }
            let ghost res0 = res.deep_view();
            let ghost cur0 = cur@;
            res.push(cur);
            cur = Vec::new();
            i = i + m;
            proof {
                let t2 = split_pat_spec(s@.skip(i as int), pat@);
                assert(res.deep_view() =~~= res0.push(cur0));
                assert(t == seq![Seq::<char>::empty()] + t2);
                assert(t[0] == Seq::<char>::empty());
                assert(cur0 + t[0] =~= cur0);
                assert(t.drop_first() =~= t2);
                assert(cur@ + t2[0] =~= t2[0]);
                assert(res0 + seq![cur0] + t2 =~= res0.push(cur0) + seq![t2[0]]
                    + t2.drop_first());
            }
        } else {
            proof {
                assert(!starts_with_at(pre, pat@, 0)) by {
                    if starts_with_at(pre, pat@, 0) {
                        assert(forall|j: int| 0 <= j < m ==> s@[i + j] == pre[j]);
                        assert(starts_with_at(s@, pat@, i as int));
                    }
                }
                assert(pre.len() > 0);
                assert(pre.drop_first() =~= s@.skip(i + 1));
                lemma_split_pat_nonempty(s@.skip(i + 1), pat@);
            }
            let ghost cur0 = cur@;
            cur.push(s[i]);
            i = i + 1;
            proof {
                let t2 = split_pat_spec(s@.skip(i as int), pat@);
                assert(t == t2.update(0, seq![pre[0]] + t2[0]));
                assert(t[0] == seq![pre[0]] + t2[0]);
                assert(t.drop_first() =~= t2.drop_first());
                assert(cur@ =~= cur0.push(pre[0]));
                assert(cur@ + t2[0] =~= cur0 + (seq![pre[0]] + t2[0]));
            }
        }
    }
    let ghost res0 = res.deep_view();
    let ghost cur0 = cur@;
    res.push(cur);
    proof {
        assert(s@.skip(n as int) =~= Seq::<char>::empty());
        let t = split_pat_spec(Seq::<char>::empty(), pat@);
        assert(t == seq![Seq::<char>::empty()]);
        assert(t[0] == Seq::<char>::empty());
        assert(t.drop_first() =~= Seq::<Seq<char>>::empty());
        assert(cur0 + t[0] =~= cur0);
        assert(res.deep_view() =~~= res0.push(cur0));
        assert(res0 + seq![cur0] + Seq::<Seq<char>>::empty() =~= res0.push(cur0));
    }
    res
}

/// The form with tab escapes read back: `%09` becomes a tab, every other
/// character stands as itself.
pub open spec fn untab_seq(s: Seq<char>) -> Seq<char>
    decreases s.len(),
{
    if s.len() == 0 {
        Seq::empty()
    } else if s.len() >= 3 && s[0] == '%' && s[1] == '0' && s[2] == '9' {
        seq!['\t'] + untab_seq(s.skip(3))
    } else {
        seq![s[0]] + untab_seq(s.skip(1))
    }
}

/// Reads `%09` escapes back into tabs, leaving everything else alone.
pub fn untab_chars(s: &[char]) -> (r: Vec<char>)
    ensures
        r@ == untab_seq(s@),
{
    let n = s.len();
    let mut r: Vec<char> = Vec::new();
    let mut i: usize = 0;
    proof {
        assert(s@.skip(0) =~= s@);
        assert(Seq::<char>::empty() + untab_seq(s@) =~= untab_seq(s@));
    }
    while i < n
        invariant
            i <= n,
            n == s@.len(),
            untab_seq(s@) == r@ + untab_seq(s@.skip(i as int)),
        decreases n - i,
    {
        let ghost pre = s@.skip(i as int);
        if n - i >= 3 && s[i] == '%' && s[i + 1] == '0' && s[i + 2] == '9' {
            r.push('\t');
            i = i + 3;
            assert(untab_seq(pre) == seq!['\t'] + untab_seq(s@.skip(i as int))) by {
                assert(pre.skip(3) =~= s@.skip(i as int));
            }
        } else {
            r.push(s[i]);
            i = i + 1;
            assert(untab_seq(pre) == seq![s@[i - 1]] + untab_seq(s@.skip(i as int))) by {
                assert(pre.skip(1) =~= s@.skip(i as int));
            }
        }
    }
    proof {
        assert(s@.skip(n as int) =~= Seq::<char>::empty());
        assert(r@ + Seq::<char>::empty() =~= r@);
    }
    r
}

/// An equal copy of a vector of strings.
pub fn clone_strings(v: &Vec<String>) -> (r: Vec<String>)
    ensures
        r.deep_view() == v.deep_view(),
{
    let n = v.len();
    let mut r: Vec<String> = Vec::new();
    let mut i: usize = 0;
    while i < n
        invariant
            i <= n,
            n == v@.len(),
            r@.len() == i,
            forall|k: int| 0 <= k < i ==> r.deep_view()[k] == v.deep_view()[k],
        decreases n - i,
    {
        r.push(v[i].clone());
        i = i + 1;
    }
    proof {
        assert(r.deep_view() =~~= v.deep_view());
    }
    r
}

/// Appends every character of `s` to `out`.
pub fn push_all(out: &mut Vec<char>, s: &[char])
    ensures
        final (out)@ == old(out)@ + s@,
{
    let n = s.len();
    let mut i: usize = 0;
    while i < n
        invariant
            i <= n,
            n == s@.len(),
            out@ == old(out)@ + s@.take(i as int),
        decreases n - i,
    {
        out.push(s[i]);
        i = i + 1;
        proof {
            assert(old(out)@ + s@.take(i as int) =~= (old(out)@ + s@.take(i - 1)).push(
                s@[i - 1],
            ));
        }
    }
    proof {
        assert(s@.take(n as int) =~= s@);
    }
}

/// Relies on std's `i64::unsigned_abs`: the absolute value as an unsigned
/// number, with no overflow at the smallest value.
pub assume_specification[ i64::unsigned_abs ](x: i64) -> (r: u64)
    ensures
        r as int == (if x >= 0 {
            x as int
        } else {
            -(x as int)
        }),
;

fn push_dec_u64(n: u64, out: &mut Vec<char>)
    ensures
        final (out)@ == old(out)@ + dec_rep(n as int),
    decreases n,
{
    if n >= 10 {
        push_dec_u64(n / 10, out);
    }
    let d: u8 = 48 + (n % 10) as u8;
    out.push(d as char);
    proof {
        if n < 10 {
            assert(old(out)@ + dec_rep(n as int) =~= old(out)@.push(dec_digit(n as int)));
        } else {
            assert(old(out)@ + dec_rep(n as int) =~= (old(out)@ + dec_rep(n as int / 10)).push(
                dec_digit(n as int % 10),
            ));
        }
    }
}

/// The decimal rendering of a signed number: a minus sign for a negative
/// value, then the magnitude's digits.
pub open spec fn i64_rep(v: int) -> Seq<char> {
    if v < 0 {
        seq!['-'] + dec_rep(-v)
    } else {
        dec_rep(v)
    }
}

/// The decimal rendering of `v` as characters.
pub fn i64_chars(v: i64) -> (r: Vec<char>)
    ensures
        r@ == i64_rep(v as int),
{
    let mut r: Vec<char> = Vec::new();
    if v < 0 {
        r.push('-');
    }
    let mag = v.unsigned_abs();
    proof {
        if v < 0 {
            assert(r@ =~= seq!['-']);
        } else {
            assert(r@ =~= Seq::<char>::empty());
        }
    }
    push_dec_u64(mag, &mut r);
    proof {
        if v >= 0 {
            assert(Seq::<char>::empty() + dec_rep(v as int) =~= dec_rep(v as int));
        }
    }
    r
}

/// Splitting a sequence that is free of the one-character separator
/// yields that sequence as the single piece.
pub proof fn lemma_split_no_sep(a: Seq<char>, sep: char)
    requires
        forall|i: int| 0 <= i < a.len() ==> a[i] != sep,
    ensures
        split_pat_spec(a, seq![sep]) == seq![a],
    decreases a.len(),
{
    let pat = seq![sep];
    if a.len() == 0 {
        assert(split_pat_spec(a, pat) =~~= seq![a]);
    } else {
        assert(!starts_with_at(a, pat, 0)) by {
            if starts_with_at(a, pat, 0) {
                assert(a[0] == pat[0]);
            }
        }
        assert(forall|i: int| 0 <= i < a.drop_first().len() ==> a.drop_first()[i] != sep);
        lemma_split_no_sep(a.drop_first(), sep);
        let r = split_pat_spec(a.drop_first(), pat);
        assert(split_pat_spec(a, pat) == r.update(0, seq![a[0]] + r[0]));
        assert(seq![a[0]] + a.drop_first() =~= a);
        assert(split_pat_spec(a, pat) =~~= seq![a]);
    }
}

/// Splitting at a one-character separator cuts independently on the two
/// sides of any occurrence of it.
pub proof fn lemma_split_concat(a: Seq<char>, b: Seq<char>, sep: char)
    ensures
        split_pat_spec(a + seq![sep] + b, seq![sep]) == split_pat_spec(a, seq![sep])
            + split_pat_spec(b, seq![sep]),
    decreases a.len(),
{
    let pat = seq![sep];
    let s = a + seq![sep] + b;
    lemma_split_pat_nonempty(b, pat);
    if a.len() == 0 {
        assert(s =~= seq![sep] + b);
        assert(starts_with_at(s, pat, 0)) by {
            assert(s[0] == sep);
        }
        assert(s.skip(1) =~= b);
        assert(split_pat_spec(s, pat) == seq![Seq::<char>::empty()] + split_pat_spec(b, pat));
        assert(split_pat_spec(a, pat) == seq![Seq::<char>::empty()]) by {
            assert(a.len() == 0);
        }
    } else {
        let t = a.drop_first() + seq![sep] + b;
        assert(s[0] == a[0]);
        assert(s.drop_first() =~= t);
        lemma_split_concat(a.drop_first(), b, sep);
        lemma_split_pat_nonempty(a.drop_first(), pat);
        if a[0] == sep {
            assert(starts_with_at(s, pat, 0));
            assert(s.skip(1) =~= t);
            assert(split_pat_spec(s, pat) == seq![Seq::<char>::empty()] + split_pat_spec(t, pat));
            assert(starts_with_at(a, pat, 0));
            assert(a.skip(1) =~= a.drop_first());
            assert(split_pat_spec(a, pat) == seq![Seq::<char>::empty()] + split_pat_spec(
                a.drop_first(),
                pat,
            ));
            assert(seq![Seq::<char>::empty()] + (split_pat_spec(a.drop_first(), pat)
                + split_pat_spec(b, pat)) =~= (seq![Seq::<char>::empty()] + split_pat_spec(
                a.drop_first(),
                pat,
            )) + split_pat_spec(b, pat));
        } else {
            assert(!starts_with_at(s, pat, 0)) by {
                if starts_with_at(s, pat, 0) {
                    assert(s[0] == pat[0]);
                }
            }
            assert(!starts_with_at(a, pat, 0)) by {
                if starts_with_at(a, pat, 0) {
                    assert(a[0] == pat[0]);
                }
            }
            let rt = split_pat_spec(t, pat);
            let ra = split_pat_spec(a.drop_first(), pat);
            let rb = split_pat_spec(b, pat);
            assert(split_pat_spec(s, pat) == rt.update(0, seq![s[0]] + rt[0]));
            assert(split_pat_spec(a, pat) == ra.update(0, seq![a[0]] + ra[0]));
            assert(rt == ra + rb);
            assert(rt[0] == ra[0]);
            assert((ra + rb).update(0, seq![a[0]] + ra[0]) =~= ra.update(0, seq![a[0]] + ra[0])
                + rb);
        }
    }
}

/// Law (decimal round trip): the decimal rendering of a non-negative
/// number is all digits, non-empty, and denotes the number itself.
pub proof fn lemma_dec_rep_val(n: int)
    requires
        n >= 0,
    ensures
        all_digits(dec_rep(n)),
        dec_val(dec_rep(n)) == n,
        dec_rep(n).len() >= 1,
    decreases n,
{
    if n < 10 {
        let c = dec_digit(n);
        assert(c as int == 48 + n);
        assert(is_digit(c));
        assert(dec_rep(n) == seq![c]);
        assert(all_digits(seq![c]));
        assert(dec_val(seq![c]) == dec_val(seq![c].drop_last()) * 10 + digit_val(c));
        assert(seq![c].drop_last() =~= Seq::<char>::empty());
    } else {
        lemma_dec_rep_val(n / 10);
        let d = dec_digit(n % 10);
        assert(d as int == 48 + n % 10);
        assert(is_digit(d));
        let r = dec_rep(n / 10).push(d);
        assert(all_digits(r)) by {
            assert(forall|i: int|
                0 <= i < r.len() - 1 ==> r[i] == dec_rep(n / 10)[i]);
            assert(r[r.len() - 1] == d);
        }
        assert(r.drop_last() =~= dec_rep(n / 10));
        assert(dec_val(r) == (n / 10) * 10 + (n % 10));
    }
}

/// Law (signed decimal round trip): the rendering of any value in range
/// parses back to exactly that value.
pub proof fn lemma_i64_rep_val(v: int)
    requires
        i64::MIN <= v <= i64::MAX,
    ensures
        i64_parse_spec(i64_rep(v)) == Some(v),
        forall|i: int| 0 <= i < i64_rep(v).len() ==> i64_rep(v)[i] != '\t' && i64_rep(v)[i]
            != '\n',
        i64_rep(v).len() >= 1,
{
    if v >= 0 {
        lemma_dec_rep_val(v);
        let s = dec_rep(v);
        assert(is_digit(s[0]));
        assert(s[0] != '+' && s[0] != '-');
        assert(forall|i: int| 0 <= i < s.len() ==> is_digit(#[trigger] s[i]) && s[i] != '\t'
            && s[i] != '\n');
    } else {
        lemma_dec_rep_val(-v);
        let d = dec_rep(-v);
        let s = seq!['-'] + d;
        assert(i64_rep(v) == s);
        assert(s[0] == '-');
        assert(s.drop_first() =~= d);
        assert(all_digits(d));
        assert(dec_val(d) == -v);
        assert(i64_parse_spec(s) == Some(v));
        assert(forall|i: int| 0 <= i < s.len() - 1 ==> s[i + 1] == d[i]);
        assert(forall|i: int| 1 <= i < s.len() ==> is_digit(#[trigger] s[i]));
        assert(forall|i: int| 0 <= i < s.len() ==> #[trigger] s[i] != '\t' && s[i] != '\n');
    }
}

/// The escaped form can also be read off the front: the first character's
/// escape, then the rest.
pub proof fn lemma_escape_front(s: Seq<char>)
    requires
        s.len() > 0,
    ensures
        escape_seq(s) == escape_char(s[0]) + escape_seq(s.drop_first()),
    decreases s.len(),
{
    if s.len() == 1 {
        assert(s.drop_last() =~= Seq::<char>::empty());
        assert(s.drop_first() =~= Seq::<char>::empty());
        assert(Seq::<char>::empty() + escape_char(s[0]) =~= escape_char(s[0]) + Seq::<
            char,
        >::empty());
    } else {
        lemma_escape_front(s.drop_last());
        assert(s.drop_last()[0] == s[0]);
        assert(s.drop_last().drop_first() =~= s.drop_first().drop_last());
        assert(s.drop_first().last() == s.last());
        assert((escape_char(s[0]) + escape_seq(s.drop_first().drop_last())) + escape_char(
            s.last(),
        ) =~= escape_char(s[0]) + (escape_seq(s.drop_first().drop_last()) + escape_char(
            s.last(),
        )));
    }
}

/// Law (escape round trip): reading the escapes back undoes escaping
/// exactly, for any text that does not already contain the literal escape
/// sequences themselves. (A text that does — a title holding a literal
/// `%09`, say — cannot be told apart from an escaped tab once stored.)
pub proof fn lemma_unescape_escape(s: Seq<char>)
    requires
        forall|i: int| !starts_with_at(s, seq!['%', '0', '9'], i),
        forall|i: int| !starts_with_at(s, seq!['%', '0', 'D', '%', '0', 'A'], i),
    ensures
        unescape_seq(escape_seq(s)) == s,
    decreases s.len(),
{
    if s.len() == 0 {
        assert(escape_seq(s) =~= Seq::<char>::empty());
    } else {
        let c = s[0];
        let d1 = s.drop_first();
        lemma_escape_front(s);
        let e = escape_seq(s);
        let e1 = escape_seq(d1);
        assert(forall|i: int| 0 <= i < d1.len() ==> d1[i] == s[i + 1]);
        assert forall|i: int| !starts_with_at(d1, seq!['%', '0', '9'], i) by {
            if starts_with_at(d1, seq!['%', '0', '9'], i) {
                assert(starts_with_at(s, seq!['%', '0', '9'], i + 1));
            }
        }
        assert forall|i: int| !starts_with_at(d1, seq!['%', '0', 'D', '%', '0', 'A'], i) by {
            if starts_with_at(d1, seq!['%', '0', 'D', '%', '0', 'A'], i) {
                assert(starts_with_at(s, seq!['%', '0', 'D', '%', '0', 'A'], i + 1));
            }
        }
        lemma_unescape_escape(d1);
        if c == '\t' {
            assert(e =~= seq!['%', '0', '9'] + e1);
            assert(e.skip(3) =~= e1);
            assert(unescape_seq(e) == seq!['\t'] + unescape_seq(e1));
            assert(seq!['\t'] + d1 =~= s);
        } else if c == '\n' {
            assert(e =~= seq!['%', '0', 'D', '%', '0', 'A'] + e1);
            assert(e.skip(6) =~= e1);
            assert(e[2] == 'D');
            assert(!(e.len() >= 3 && e[0] == '%' && e[1] == '0' && e[2] == '9'));
            assert(unescape_seq(e) == seq!['\n'] + unescape_seq(e1));
            assert(seq!['\n'] + d1 =~= s);
        } else {
            assert(e =~= seq![c] + e1);
            // neither escape sequence can start at the head: its characters
            // would have to be literal characters of `s`, which the
            // precondition rules out
            assert(!(e.len() >= 3 && e[0] == '%' && e[1] == '0' && e[2] == '9')) by {
                if e.len() >= 3 && e[0] == '%' && e[1] == '0' && e[2] == '9' {
                    lemma_head_tab_pattern(s);
                }
            }
            assert(!(e.len() >= 6 && e[0] == '%' && e[1] == '0' && e[2] == 'D' && e[3] == '%'
                && e[4] == '0' && e[5] == 'A')) by {
                if e.len() >= 6 && e[0] == '%' && e[1] == '0' && e[2] == 'D' && e[3] == '%'
                    && e[4] == '0' && e[5] == 'A' {
                    lemma_head_newline_pattern(s);
                }
            }
            assert(e.skip(1) =~= e1);
            assert(unescape_seq(e) == seq![c] + unescape_seq(e1));
            assert(seq![c] + d1 =~= s);
        }
    }
}

/// With an ordinary head character, the escaped form starts with `%09`
/// only when the text itself does.
proof fn lemma_head_tab_pattern(s: Seq<char>)
    requires
        s.len() > 0,
        s[0] != '\t',
        s[0] != '\n',
        escape_seq(s).len() >= 3,
        escape_seq(s)[0] == '%',
        escape_seq(s)[1] == '0',
    ensures
        starts_with_at(s, seq!['%', '0', '9'], 0) || escape_seq(s)[2] != '9',
{
    let e = escape_seq(s);
    lemma_escape_front(s);
    let d1 = s.drop_first();
    let e1 = escape_seq(d1);
    assert(e =~= seq![s[0]] + e1);
    assert(s[0] == '%');
    assert(d1.len() > 0) by {
        if d1.len() == 0 {
            assert(e1 =~= Seq::<char>::empty());
            assert(e.len() == 1);
        }
    }
    lemma_escape_front(d1);
    let d2 = d1.drop_first();
    let e2 = escape_seq(d2);
    assert(e1 == escape_char(d1[0]) + e2);
    assert(e[1] == e1[0]);
    assert(e1[0] == escape_char(d1[0])[0]);
    assert(d1[0] == '0') by {
        if d1[0] == '\t' || d1[0] == '\n' {
            assert(escape_char(d1[0])[0] == '%');
        }
    }
    assert(e1 =~= seq!['0'] + e2);
    assert(d2.len() > 0) by {
        if d2.len() == 0 {
            assert(e2 =~= Seq::<char>::empty());
            assert(e.len() == 2);
        }
    }
    lemma_escape_front(d2);
    assert(e[2] == e2[0]);
    assert(e2[0] == escape_char(d2[0])[0]);
    if d2[0] == '\t' || d2[0] == '\n' {
        assert(escape_char(d2[0])[0] == '%');
        assert(e[2] != '9');
    } else {
        assert(e[2] == d2[0]);
        if d2[0] == '9' {
            assert(s[1] == d1[0]);
            assert(s[2] == d2[0]);
            assert(starts_with_at(s, seq!['%', '0', '9'], 0));
        } else {
            assert(e[2] != '9');
        }
    }
}

/// With an ordinary head character, the escaped form starts with
/// `%0D%0A` only when the text itself does.
proof fn lemma_head_newline_pattern(s: Seq<char>)
    requires
        s.len() > 0,
        s[0] != '\t',
        s[0] != '\n',
        escape_seq(s).len() >= 6,
        escape_seq(s)[0] == '%',
        escape_seq(s)[1] == '0',
        escape_seq(s)[2] == 'D',
        escape_seq(s)[3] == '%',
        escape_seq(s)[4] == '0',
    ensures
        starts_with_at(s, seq!['%', '0', 'D', '%', '0', 'A'], 0) || escape_seq(s)[5] != 'A',
{
    let e = escape_seq(s);
    lemma_escape_front(s);
    let d1 = s.drop_first();
    let e1 = escape_seq(d1);
    assert(e =~= seq![s[0]] + e1);
    assert(s[0] == '%');
    assert(d1.len() > 0) by {
        if d1.len() == 0 {
            assert(e1 =~= Seq::<char>::empty());
            assert(e.len() == 1);
        }
    }
    lemma_escape_front(d1);
    let d2 = d1.drop_first();
    let e2 = escape_seq(d2);
    assert(e1 == escape_char(d1[0]) + e2);
    assert(e[1] == e1[0]);
    assert(e1[0] == escape_char(d1[0])[0]);
    assert(d1[0] == '0') by {
        if d1[0] == '\t' || d1[0] == '\n' {
            assert(escape_char(d1[0])[0] == '%');
        }
    }
    assert(e1 =~= seq!['0'] + e2);
    assert(d2.len() > 0) by {
        if d2.len() == 0 {
            assert(e2 =~= Seq::<char>::empty());
            assert(e.len() == 2);
        }
    }
    lemma_escape_front(d2);
    let d3 = d2.drop_first();
    let e3 = escape_seq(d3);
    assert(e2 == escape_char(d2[0]) + e3);
    assert(e[2] == e2[0]);
    assert(e2[0] == escape_char(d2[0])[0]);
    assert(d2[0] == 'D') by {
        if d2[0] == '\t' || d2[0] == '\n' {
            assert(escape_char(d2[0])[0] == '%');
        }
    }
    assert(e2 =~= seq!['D'] + e3);
    assert(d3.len() > 0) by {
        if d3.len() == 0 {
            assert(e3 =~= Seq::<char>::empty());
            assert(e.len() == 3);
        }
    }
    lemma_escape_front(d3);
    let d4 = d3.drop_first();
    let e4 = escape_seq(d4);
    assert(e3 == escape_char(d3[0]) + e4);
    assert(e[3] == e3[0]);
    assert(e[4] == e3[1]);
    assert(e[5] == e3[2]);
    if d3[0] == '\t' {
        // its escape is the three characters of the tab sequence, whose
        // third is not the required final character
        assert(e3 =~= seq!['%', '0', '9'] + e4);
        assert(e[5] == '9');
        assert(e[5] != 'A');
    } else if d3[0] == '\n' {
        assert(e3 =~= seq!['%', '0', 'D', '%', '0', 'A'] + e4);
        assert(e[5] == 'D');
        assert(e[5] != 'A');
    } else {
        assert(e3 =~= seq![d3[0]] + e4);
        assert(d3[0] == '%');
        assert(d4.len() > 0) by {
            if d4.len() == 0 {
                assert(e4 =~= Seq::<char>::empty());
                assert(e.len() == 4);
            }
        }
        lemma_escape_front(d4);
        let d5 = d4.drop_first();
        let e5 = escape_seq(d5);
        assert(e4 == escape_char(d4[0]) + e5);
        assert(e[4] == e4[0]);
        assert(e4[0] == escape_char(d4[0])[0]);
        assert(d4[0] == '0') by {
            if d4[0] == '\t' || d4[0] == '\n' {
                assert(escape_char(d4[0])[0] == '%');
            }
        }
        assert(e4 =~= seq!['0'] + e5);
        assert(d5.len() > 0) by {
            if d5.len() == 0 {
                assert(e5 =~= Seq::<char>::empty());
                assert(e.len() == 5);
            }
        }
        lemma_escape_front(d5);
        assert(e[5] == e5[0]);
        assert(e5[0] == escape_char(d5[0])[0]);
        if d5[0] == '\t' || d5[0] == '\n' {
            assert(escape_char(d5[0])[0] == '%');
            assert(e[5] != 'A');
        } else {
            assert(e[5] == d5[0]);
            if d5[0] == 'A' {
                assert(s[1] == d1[0]);
                assert(s[2] == d2[0]);
                assert(s[3] == d3[0]);
                assert(s[4] == d4[0]);
                assert(s[5] == d5[0]);
                assert(starts_with_at(s, seq!['%', '0', 'D', '%', '0', 'A'], 0));
            } else {
                assert(e[5] != 'A');
            }
        }
    }
}

} // verus!
