//! Character and string utilities for the expression language: whitespace
//! classification, tokenization, ASCII lower-casing, decimal number parsing,
//! and trimming.
//!
//! Throughout the library, "whitespace" means the six ASCII whitespace
//! characters; separators in date expressions and preference lines are made
//! of these.

use vstd::prelude::*;

verus! {

/// The separator characters of the expression language: ASCII whitespace.
pub open spec fn is_space_char(c: char) -> bool {
    c == ' ' || c == '\t' || c == '\n' || c == '\r' || c == '\x0b' || c == '\x0c'
}

/// Runtime test for [`is_space_char`].
pub fn is_space(c: char) -> (r: bool)
    ensures
        r == is_space_char(c),
{
    c == ' ' || c == '\t' || c == '\n' || c == '\r' || c == '\x0b' || c == '\x0c'
}

/// A decimal digit.
pub open spec fn is_digit_char(c: char) -> bool {
    '0' <= c && c <= '9'
}

/// The numeric value of a decimal digit.
pub open spec fn digit_value(c: char) -> int {
    c as u32 - 48
}

/// Runtime test for [`is_digit_char`].
pub fn is_digit(c: char) -> (r: bool)
    ensures
        r == is_digit_char(c),
{
    '0' <= c && c <= '9'
}

/// Runtime evaluation of [`digit_value`].
pub fn digit_of(c: char) -> (r: u32)
    requires
        is_digit_char(c),
    ensures
        r == digit_value(c),
        r <= 9,
{
    c as u32 - 48
}

/// ASCII lower-casing of one character; characters outside `A`..`Z` are kept.
pub open spec fn lower_char_spec(c: char) -> char {
    match c {
        'A' => 'a',
        'B' => 'b',
        'C' => 'c',
        'D' => 'd',
        'E' => 'e',
        'F' => 'f',
        'G' => 'g',
        'H' => 'h',
        'I' => 'i',
        'J' => 'j',
        'K' => 'k',
        'L' => 'l',
        'M' => 'm',
        'N' => 'n',
        'O' => 'o',
        'P' => 'p',
        'Q' => 'q',
        'R' => 'r',
        'S' => 's',
        'T' => 't',
        'U' => 'u',
        'V' => 'v',
        'W' => 'w',
        'X' => 'x',
        'Y' => 'y',
        'Z' => 'z',
        _ => c,
    }
}

/// Runtime evaluation of [`lower_char_spec`].
pub fn lower_char(c: char) -> (r: char)
    ensures
        r == lower_char_spec(c),
{
    match c {
        'A' => 'a',
        'B' => 'b',
        'C' => 'c',
        'D' => 'd',
        'E' => 'e',
        'F' => 'f',
        'G' => 'g',
        'H' => 'h',
        'I' => 'i',
        'J' => 'j',
        'K' => 'k',
        'L' => 'l',
        'M' => 'm',
        'N' => 'n',
        'O' => 'o',
        'P' => 'p',
        'Q' => 'q',
        'R' => 'r',
        'S' => 's',
        'T' => 't',
        'U' => 'u',
        'V' => 'v',
        'W' => 'w',
        'X' => 'x',
        'Y' => 'y',
        'Z' => 'z',
        _ => c,
    }
}

/// ASCII lower-casing of a whole character sequence.
pub open spec fn lower_seq(s: Seq<char>) -> Seq<char> {
    Seq::new(s.len(), |i: int| lower_char_spec(s[i]))
}

/// Lower-casing a sequence twice is the same as doing it once.
pub proof fn lemma_lower_seq_idempotent(s: Seq<char>)
    ensures
        lower_seq(lower_seq(s)) == lower_seq(s),
{
    assert(lower_seq(lower_seq(s)) =~= lower_seq(s));
}

/// Whether some character of `s` equals `c`.
pub open spec fn seq_contains_char(s: Seq<char>, c: char) -> bool {
    exists|i: int| 0 <= i < s.len() && s[i] == c
}

/// Runtime test for [`seq_contains_char`].
pub fn contains_char(s: &str, c: char) -> (r: bool)
    ensures
        r == seq_contains_char(s@, c),
{
    let n = s.unicode_len();
    let mut i: usize = 0;
    while i < n
        invariant
            i <= n,
            n == s@.len(),
            forall|k: int| 0 <= k < i ==> s@[k] != c,
        decreases n - i,
    {
        if s.get_char(i) == c {
            return true;
        }
        i = i + 1;
    }
    false
}

/// `p` is an initial segment of `s`.
pub open spec fn is_prefix(p: Seq<char>, s: Seq<char>) -> bool {
    p.len() <= s.len() && (forall|k: int| 0 <= k < p.len() ==> p[k] == s[k])
}

/// Index of the first whitespace character of `s`, or `s.len()` if there is
/// none.
pub open spec fn first_space(s: Seq<char>) -> int
    decreases s.len(),
{
    if s.len() == 0 {
        0
    } else if is_space_char(s[0]) {
        0
    } else {
        1 + first_space(s.drop_first())
    }
}

/// Index of the first non-whitespace character of `s`, or `s.len()` if there
/// is none.
pub open spec fn first_non_space(s: Seq<char>) -> int
    decreases s.len(),
{
    if s.len() == 0 {
        0
    } else if !is_space_char(s[0]) {
        0
    } else {
        1 + first_non_space(s.drop_first())
    }
}

pub proof fn lemma_first_space(s: Seq<char>)
    ensures
        0 <= first_space(s) <= s.len(),
        forall|k: int| 0 <= k < first_space(s) ==> !is_space_char(s[k]),
        first_space(s) < s.len() ==> is_space_char(s[first_space(s)]),
    decreases s.len(),
{
    if s.len() == 0 {
    } else if is_space_char(s[0]) {
    } else {
        lemma_first_space(s.drop_first());
        assert forall|k: int| 0 <= k < first_space(s) implies !is_space_char(s[k]) by {
            if k > 0 {
                assert(s.drop_first()[k - 1] == s[k]);
            }
        }
        if first_space(s) < s.len() {
            assert(s.drop_first()[first_space(s) - 1] == s[first_space(s)]);
        }
    }
}

/// If no whitespace appears before `i` and `i` is the end or a whitespace
/// position, then `i` is exactly `first_space(s)`.
pub proof fn lemma_first_space_at(s: Seq<char>, i: int)
    requires
        0 <= i <= s.len(),
        forall|k: int| 0 <= k < i ==> !is_space_char(s[k]),
        i < s.len() ==> is_space_char(s[i]),
    ensures
        first_space(s) == i,
    decreases s.len(),
{
    if i == 0 {
    } else {
        assert(!is_space_char(s[0]));
        assert forall|k: int| 0 <= k < i - 1 implies !is_space_char(s.drop_first()[k]) by {
            assert(s.drop_first()[k] == s[k + 1]);
        }
        if i - 1 < s.drop_first().len() {
            assert(s.drop_first()[i - 1] == s[i]);
        }
        lemma_first_space_at(s.drop_first(), i - 1);
    }
}

pub proof fn lemma_first_non_space(s: Seq<char>)
    ensures
        0 <= first_non_space(s) <= s.len(),
        forall|k: int| 0 <= k < first_non_space(s) ==> is_space_char(s[k]),
        first_non_space(s) < s.len() ==> !is_space_char(s[first_non_space(s)]),
    decreases s.len(),
{
    if s.len() == 0 {
    } else if !is_space_char(s[0]) {
    } else {
        lemma_first_non_space(s.drop_first());
        assert forall|k: int| 0 <= k < first_non_space(s) implies is_space_char(s[k]) by {
            if k > 0 {
                assert(s.drop_first()[k - 1] == s[k]);
            }
        }
        if first_non_space(s) < s.len() {
            assert(s.drop_first()[first_non_space(s) - 1] == s[first_non_space(s)]);
        }
    }
}

pub proof fn lemma_first_non_space_at(s: Seq<char>, i: int)
    requires
        0 <= i <= s.len(),
        forall|k: int| 0 <= k < i ==> is_space_char(s[k]),
        i < s.len() ==> !is_space_char(s[i]),
    ensures
        first_non_space(s) == i,
    decreases s.len(),
{
    if i == 0 {
    } else {
        assert(is_space_char(s[0]));
        assert forall|k: int| 0 <= k < i - 1 implies is_space_char(s.drop_first()[k]) by {
            assert(s.drop_first()[k] == s[k + 1]);
        }
        if i - 1 < s.drop_first().len() {
            assert(s.drop_first()[i - 1] == s[i]);
        }
        lemma_first_non_space_at(s.drop_first(), i - 1);
    }
}

/// The token list of `s`: the pieces of `s` that stand between maximal
/// whitespace runs. A leading run yields an empty first token, a trailing
/// run an empty last token, and the empty string yields one empty token.
pub open spec fn split_ws(s: Seq<char>) -> Seq<Seq<char>>
    decreases s.len(),
    via split_ws_decreases
{
    let i = first_space(s);
    if i >= s.len() {
        seq![s]
    } else {
        let j = i + 1 + first_non_space(s.subrange(i + 1, s.len() as int));
        seq![s.subrange(0, i)] + split_ws(s.subrange(j, s.len() as int))
    }
}

#[via_fn]
proof fn split_ws_decreases(s: Seq<char>) {
    lemma_first_space(s);
    if first_space(s) < s.len() {
        lemma_first_non_space(s.subrange(first_space(s) + 1, s.len() as int));
    }
}

/// Splits `s` into its whitespace-separated tokens, as [`split_ws`] says.
pub fn split_str(s: &str) -> (r: Vec<String>)
    ensures
        r.deep_view() == split_ws(s@),
    decreases s@.len(),
{
    let n = s.unicode_len();
    let mut i: usize = 0;
    while i < n && !is_space(s.get_char(i))
        invariant
            i <= n,
            n == s@.len(),
            forall|k: int| 0 <= k < i ==> !is_space_char(s@[k]),
        decreases n - i,
    {
        i = i + 1;
    }
    proof {
        lemma_first_space_at(s@, i as int);
    }
    if i == n {
        let mut r: Vec<String> = Vec::new();
        r.push(String::from_str(s));
        proof {
            assert(r.deep_view() =~= seq![s@]);
        }
        return r;
    }
    let mut j: usize = i + 1;
    while j < n && is_space(s.get_char(j))
        invariant
            i < j <= n,
            n == s@.len(),
            forall|k: int| i + 1 <= k < j ==> is_space_char(s@[k]),
        decreases n - j,
    {
        j = j + 1;
    }
    proof {
        let tail0 = s@.subrange(i + 1, n as int);
        assert forall|k: int| 0 <= k < j - (i + 1) implies is_space_char(tail0[k]) by {
            assert(tail0[k] == s@[k + i + 1]);
        }
        if j < n {
            assert(tail0[j - (i + 1)] == s@[j as int]);
        }
        lemma_first_non_space_at(tail0, j - (i + 1));
    }
    let head = s.substring_char(0, i);
    let tail = s.substring_char(j, n);
    let mut rest = split_str(tail);
    let mut r: Vec<String> = Vec::new();
    r.push(String::from_str(head));
    r.append(&mut rest);
    proof {
        assert(r.deep_view() =~= seq![s@.subrange(0, i as int)] + split_ws(
            s@.subrange(j as int, n as int),
        ));
    }
    r
}

/// Every character of `s` is a decimal digit.
pub open spec fn all_digits(s: Seq<char>) -> bool {
    forall|i: int| 0 <= i < s.len() ==> is_digit_char(s[i])
}

/// The number written by a sequence of decimal digits, most significant
/// first.
pub open spec fn digits_value(s: Seq<char>) -> int
    decreases s.len(),
{
    if s.len() == 0 {
        0
    } else {
        digits_value(s.drop_last()) * 10 + digit_value(s.last())
    }
}

/// The digits of a number literal: everything after an optional leading `+`.
pub open spec fn uint_body(s: Seq<char>) -> Seq<char> {
    if s.len() > 0 && s[0] == '+' {
        s.subrange(1, s.len() as int)
    } else {
        s
    }
}

/// `s` is a non-negative decimal integer literal (an optional `+`, then at
/// least one digit) whose value is at most `max`.
pub open spec fn parses_as_uint(s: Seq<char>, max: int) -> bool {
    let b = uint_body(s);
    b.len() > 0 && all_digits(b) && digits_value(b) <= max
}

/// The value of a non-negative decimal integer literal.
pub open spec fn uint_value(s: Seq<char>) -> int {
    digits_value(uint_body(s))
}

pub proof fn lemma_digits_value_non_negative(s: Seq<char>)
    requires
        all_digits(s),
    ensures
        digits_value(s) >= 0,
    decreases s.len(),
{
    if s.len() > 0 {
        assert(all_digits(s.drop_last()));
        lemma_digits_value_non_negative(s.drop_last());
    }
}

/// A longer run of digits never writes a smaller number: the value of a
/// prefix is a lower bound for the value of the whole.
pub proof fn lemma_digits_value_prefix_bound(s: Seq<char>, i: int)
    requires
        all_digits(s),
        0 <= i <= s.len(),
    ensures
        digits_value(s) >= digits_value(s.subrange(0, i)),
    decreases s.len() - i,
{
    if i == s.len() {
        assert(s.subrange(0, i) =~= s);
    } else {
        lemma_digits_value_prefix_bound(s, i + 1);
        let t = s.subrange(0, i + 1);
        assert(t.drop_last() =~= s.subrange(0, i));
        assert(all_digits(s.subrange(0, i)));
        lemma_digits_value_non_negative(s.subrange(0, i));
        assert(digits_value(t) == digits_value(s.subrange(0, i)) * 10 + digit_value(t.last()));
    }
}

/// Parses `s` as a decimal `u32` the way the expression language reads
/// numbers: an optional leading `+`, then one or more digits, and a value
/// that fits.
pub fn parse_u32(s: &str) -> (r: Option<u32>)
    ensures
        r is Some <==> parses_as_uint(s@, u32::MAX as int),
        r matches Some(v) ==> v == uint_value(s@),
{
    let n = s.unicode_len();
    let start: usize = if n > 0 && s.get_char(0) == '+' {
        1
    } else {
        0
    };
    let ghost b = uint_body(s@);
    proof {
        assert(b =~= s@.subrange(start as int, n as int));
    }
    if start == n {
        return None;
    }
    let mut acc: u64 = 0;
    let mut i: usize = start;
    while i < n
        invariant
            start <= i <= n,
            n == s@.len(),
            b == s@.subrange(start as int, n as int),
            b == uint_body(s@),
            start < n,
            forall|k: int| 0 <= k < i - start ==> is_digit_char(b[k]),
            acc == digits_value(b.subrange(0, i - start)),
            acc <= u32::MAX,
        decreases n - i,
    {
        let c = s.get_char(i);
        proof {
            assert(b[i - start] == s@[i as int]);
        }
        if !is_digit(c) {
            return None;
        }
        let d = digit_of(c);
        acc = acc * 10 + (d as u64);
        proof {
            let t = b.subrange(0, i + 1 - start);
            assert(t.drop_last() =~= b.subrange(0, i - start));
            assert(acc == digits_value(t));
        }
        if acc > u32::MAX as u64 {
            proof {
                if all_digits(b) {
                    lemma_digits_value_prefix_bound(b, i + 1 - start);
                }
            }
            return None;
        }
        i = i + 1;
    }
    proof {
        assert(b.subrange(0, n - start) =~= b);
    }
    Some(acc as u32)
}

/// Whether `p`, lower-cased, is an initial segment of `s`.
pub fn is_prefix_lower(p: &str, s: &str) -> (r: bool)
    ensures
        r == is_prefix(lower_seq(p@), s@),
{
    let np = p.unicode_len();
    let ns = s.unicode_len();
    if np > ns {
        return false;
    }
    let mut k: usize = 0;
    while k < np
        invariant
            k <= np <= ns,
            np == p@.len(),
            ns == s@.len(),
            forall|t: int| 0 <= t < k ==> lower_seq(p@)[t] == s@[t],
        decreases np - k,
    {
        if lower_char(p.get_char(k)) != s.get_char(k) {
            proof {
                assert(lower_seq(p@)[k as int] != s@[k as int]);
            }
            return false;
        }
        k = k + 1;
    }
    true
}

/// One past the index of the last non-whitespace character of `s`, or `0` if
/// `s` is all whitespace.
pub open spec fn last_non_space_end(s: Seq<char>) -> int
    decreases s.len(),
{
    if s.len() == 0 {
        0
    } else if !is_space_char(s.last()) {
        s.len() as int
    } else {
        last_non_space_end(s.drop_last())
    }
}

pub proof fn lemma_last_non_space_end_at(s: Seq<char>, e: int)
    requires
        0 <= e <= s.len(),
        forall|k: int| e <= k < s.len() ==> is_space_char(s[k]),
        e > 0 ==> !is_space_char(s[e - 1]),
    ensures
        last_non_space_end(s) == e,
    decreases s.len(),
{
    if s.len() == 0 {
    } else if e == s.len() {
    } else {
        assert(is_space_char(s.last()));
        assert forall|k: int| e <= k < s.drop_last().len() implies is_space_char(
            s.drop_last()[k],
        ) by {
            assert(s.drop_last()[k] == s[k]);
        }
        if e > 0 {
            assert(s.drop_last()[e - 1] == s[e - 1]);
        }
        lemma_last_non_space_end_at(s.drop_last(), e);
    }
}

/// `s` without leading and trailing whitespace.
pub open spec fn trim_spec(s: Seq<char>) -> Seq<char> {
    if first_non_space(s) == s.len() {
        Seq::empty()
    } else {
        s.subrange(first_non_space(s), last_non_space_end(s))
    }
}

/// Removes leading and trailing whitespace, as [`trim_spec`] says.
pub fn trim_str(s: &str) -> (r: String)
    ensures
        r@ == trim_spec(s@),
{
    let n = s.unicode_len();
    let mut a: usize = 0;
    while a < n && is_space(s.get_char(a))
        invariant
            a <= n,
            n == s@.len(),
            forall|k: int| 0 <= k < a ==> is_space_char(s@[k]),
        decreases n - a,
    {
        a = a + 1;
    }
    proof {
        lemma_first_non_space_at(s@, a as int);
    }
    if a == n {
        return String::new();
    }
    let mut e: usize = n;
    while e > 0 && is_space(s.get_char(e - 1))
        invariant
            e <= n,
            n == s@.len(),
            forall|k: int| e <= k < n ==> is_space_char(s@[k]),
        decreases e,
    {
        e = e - 1;
    }
    proof {
        lemma_last_non_space_end_at(s@, e as int);
        assert(!is_space_char(s@[a as int]));
        assert(a < e);
    }
    String::from_str(s.substring_char(a, e))
}

/// Parses `s` as a decimal `u16`, as term operands are read.
pub fn parse_u16(s: &str) -> (r: Option<u16>)
    ensures
        r is Some <==> parses_as_uint(s@, u16::MAX as int),
        r matches Some(v) ==> v == uint_value(s@),
{
    match parse_u32(s) {
        Some(v) => {
            if v <= 65535 {
                Some(v as u16)
            } else {
                None
            }
        },
        None => {
            proof {
                if parses_as_uint(s@, u16::MAX as int) {
                    assert(parses_as_uint(s@, u32::MAX as int));
                }
            }
            None
        },
    }
}

} // verus!
