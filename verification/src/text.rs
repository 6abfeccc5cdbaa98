//! Character-level helpers over strings: conversion to and from character
//! vectors, trimming, splitting on a separator and decimal parsing.
//!
//! Every function is stated over the `Seq<char>` view of the strings involved.

use vstd::prelude::*;
use vstd::string::*;

verus! {

/// Whether `c` is whitespace: one of the code points that carry the Unicode
/// `White_Space` property, namely U+0009 to U+000D, U+0020, U+0085, U+00A0,
/// U+1680, U+2000 to U+200A, U+2028, U+2029, U+202F, U+205F and U+3000.
pub open spec fn is_whitespace_char(c: char) -> bool {
    let n = c as u32;
    ||| 0x0009 <= n <= 0x000d
    ||| n == 0x0020
    ||| n == 0x0085
    ||| n == 0x00a0
    ||| n == 0x1680
    ||| 0x2000 <= n <= 0x200a
    ||| n == 0x2028
    ||| n == 0x2029
    ||| n == 0x202f
    ||| n == 0x205f
    ||| n == 0x3000
}

/// Whether `c` is whitespace.
pub fn char_is_whitespace(c: char) -> (b: bool)
    ensures
        b == is_whitespace_char(c),
{
    let n = c as u32;
    (0x0009 <= n && n <= 0x000d) || n == 0x0020 || n == 0x0085 || n == 0x00a0 || n == 0x1680 || (
    0x2000 <= n && n <= 0x200a) || n == 0x2028 || n == 0x2029 || n == 0x202f || n == 0x205f || n
        == 0x3000
}

/// `String::push` of the standard library. Trusted: the character is appended
/// and nothing else changes.
#[verifier::external_body]
pub(crate) fn push_char(s: &mut String, c: char)
    ensures
        final(s)@ == old(s)@.push(c),
{
    s.push(c)
}

/// The views of a sequence of strings.
pub open spec fn views(v: Seq<String>) -> Seq<Seq<char>> {
    Seq::new(v.len(), |i: int| v[i]@)
}

/// The characters of `s`, in order.
pub fn chars_of(s: &str) -> (v: Vec<char>)
    ensures
        v@ == s@,
{
    let n = s.unicode_len();
    let mut v: Vec<char> = Vec::new();
    let mut i: usize = 0;
    while i < n
        invariant
            n == s@.len(),
            i <= n,
            v@ == s@.subrange(0, i as int),
        decreases n - i,
    {
        let c = s.get_char(i);
        v.push(c);
        i = i + 1;
    }
    v
}

/// The string made of the characters `v[from..to]`.
pub(crate) fn string_of(v: &Vec<char>, from: usize, to: usize) -> (s: String)
    requires
        from <= to <= v.len(),
    ensures
        s@ == v@.subrange(from as int, to as int),
{
    let mut s = String::new();
    let mut i: usize = from;
    while i < to
        invariant
            from <= i <= to <= v.len(),
            s@ == v@.subrange(from as int, i as int),
        decreases to - i,
    {
        push_char(&mut s, v[i]);
        i = i + 1;
    }
    s
}

/// Whether two string slices hold the same characters.
pub fn same_text(a: &str, b: &str) -> (r: bool)
    ensures
        r == (a@ == b@),
{
    a.to_owned() == b.to_owned()
}

/// How many whitespace characters `s` starts with.
pub open spec fn leading_whitespace(s: Seq<char>) -> nat
    decreases s.len(),
{
    if s.len() > 0 && is_whitespace_char(s.first()) {
        1 + leading_whitespace(s.drop_first())
    } else {
        0
    }
}

/// How many whitespace characters `s` ends with.
pub open spec fn trailing_whitespace(s: Seq<char>) -> nat
    decreases s.len(),
{
    if s.len() > 0 && is_whitespace_char(s.last()) {
        1 + trailing_whitespace(s.drop_last())
    } else {
        0
    }
}

/// `s` without its leading and trailing whitespace.
pub open spec fn trimmed(s: Seq<char>) -> Seq<char> {
    if leading_whitespace(s) >= s.len() {
        Seq::empty()
    } else {
        s.subrange(leading_whitespace(s) as int, s.len() - trailing_whitespace(s))
    }
}

proof fn lemma_leading_whitespace(s: Seq<char>, k: int)
    requires
        0 <= k <= s.len(),
        forall|j: int| 0 <= j < k ==> is_whitespace_char(#[trigger] s[j]),
        k == s.len() || !is_whitespace_char(s[k]),
    ensures
        leading_whitespace(s) == k,
    decreases k,
{
    if k > 0 {
        let rest = s.drop_first();
        assert forall|j: int| 0 <= j < k - 1 implies is_whitespace_char(#[trigger] rest[j]) by {
            assert(rest[j] == s[j + 1]);
        }
        lemma_leading_whitespace(rest, k - 1);
    }
}

proof fn lemma_trailing_whitespace(s: Seq<char>, k: int)
    requires
        0 <= k <= s.len(),
        forall|j: int| k <= j < s.len() ==> is_whitespace_char(#[trigger] s[j]),
        k == 0 || !is_whitespace_char(s[k - 1]),
    ensures
        trailing_whitespace(s) == s.len() - k,
    decreases s.len() - k,
{
    if k < s.len() {
        let rest = s.drop_last();
        assert forall|j: int| k <= j < rest.len() implies is_whitespace_char(#[trigger] rest[j]) by {
            assert(rest[j] == s[j]);
        }
        lemma_trailing_whitespace(rest, k);
    }
}

/// `s` without its leading and trailing whitespace, as a new string.
pub fn trim(s: &str) -> (t: String)
    ensures
        t@ == trimmed(s@),
{
    let v = chars_of(s);
    let n = v.len();
    let mut start: usize = 0;
    while start < n && char_is_whitespace(v[start])
        invariant
            n == v.len(),
            start <= n,
            forall|j: int| 0 <= j < start ==> is_whitespace_char(#[trigger] v@[j]),
        decreases n - start,
    {
        start = start + 1;
    }
    proof {
        lemma_leading_whitespace(v@, start as int);
    }
    if start == n {
        return String::new();
    }
    let mut end: usize = n;
    while end > start && char_is_whitespace(v[end - 1])
        invariant
            n == v.len(),
            start <= end <= n,
            forall|j: int| end <= j < n ==> is_whitespace_char(#[trigger] v@[j]),
        decreases end,
    {
        end = end - 1;
    }
    proof {
        lemma_trailing_whitespace(v@, end as int);
    }
    string_of(&v, start, end)
}

/// The pieces of `s` between occurrences of `sep`: one more piece than there
/// are separators, so the empty string has the one piece `""`.
pub open spec fn split_on(s: Seq<char>, sep: char) -> Seq<Seq<char>>
    decreases s.len(),
{
    if s.len() == 0 {
        seq![Seq::empty()]
    } else {
        let before = split_on(s.drop_last(), sep);
        if s.last() == sep {
            before.push(Seq::empty())
        } else {
            before.drop_last().push(before.last().push(s.last()))
        }
    }
}

/// The pieces of `s` between occurrences of `sep`.
pub fn split(s: &str, sep: char) -> (pieces: Vec<String>)
    ensures
        views(pieces@) == split_on(s@, sep),
{
    let v = chars_of(s);
    let n = v.len();
    let mut pieces: Vec<String> = Vec::new();
    let mut current = String::new();
    let mut i: usize = 0;
    while i < n
        invariant
            n == v.len(),
            i <= n,
            views(pieces@).push(current@) == split_on(v@.subrange(0, i as int), sep),
        decreases n - i,
    {
        let c = v[i];
        proof {
            let next = v@.subrange(0, i + 1);
            assert(next.drop_last() == v@.subrange(0, i as int));
            assert(next.last() == c);
            let before = views(pieces@).push(current@);
            assert(before.drop_last() == views(pieces@));
            assert(before.last() == current@);
        }
        if c == sep {
            let ghost old_pieces = pieces@;
            pieces.push(current);
            current = String::new();
            assert(views(pieces@) == views(old_pieces).push(pieces@.last()@));
        } else {
            push_char(&mut current, c);
        }
        i = i + 1;
    }
    let ghost old_pieces = pieces@;
    pieces.push(current);
    assert(views(pieces@) == views(old_pieces).push(pieces@.last()@));
    assert(v@.subrange(0, n as int) == v@);
    pieces
}

/// Why a string is not a decimal number that fits the target type.
#[derive(Clone, Copy, Debug, PartialEq, Eq, Structural)]
pub enum IntErrorKind {
    /// The string is empty.
    Empty,
    /// A character is no decimal digit, or a sign stands alone.
    InvalidDigit,
    /// The number is larger than the target type holds.
    PosOverflow,
}

impl IntErrorKind {
    /// The message of this error, as a view.
    pub open spec fn text(self) -> Seq<char> {
        match self {
            IntErrorKind::Empty => "cannot parse integer from empty string"@,
            IntErrorKind::InvalidDigit => "invalid digit found in string"@,
            IntErrorKind::PosOverflow => "number too large to fit in target type"@,
        }
    }

    /// The message of this error.
    pub fn message(&self) -> (m: String)
        ensures
            m@ == self.text(),
    {
        match self {
            IntErrorKind::Empty => String::from_str("cannot parse integer from empty string"),
            IntErrorKind::InvalidDigit => String::from_str("invalid digit found in string"),
            IntErrorKind::PosOverflow => String::from_str("number too large to fit in target type"),
        }
    }
}

/// Whether `c` is one of `0` to `9`.
pub open spec fn is_decimal_digit(c: char) -> bool {
    '0' <= c <= '9'
}

/// The number that the digit string `s` writes in base ten.
pub open spec fn decimal_value(s: Seq<char>) -> nat
    decreases s.len(),
{
    if s.len() == 0 {
        0
    } else {
        (decimal_value(s.drop_last()) * 10 + (s.last() as int - '0' as int)) as nat
    }
}

/// Reads `s` from position `from` on as decimal digits: the first character
/// that is no digit, or the first digit that takes the number past 65535,
/// decides the error.
pub open spec fn scan_u16(s: Seq<char>, from: int) -> Result<u16, IntErrorKind>
    decreases s.len() - from,
{
    scan_u16_from(s, from, from)
}

/// [`scan_u16`] with the digits `s[from..at]` already read.
pub open spec fn scan_u16_from(s: Seq<char>, from: int, at: int) -> Result<u16, IntErrorKind>
    decreases s.len() - at,
{
    if at >= s.len() {
        Ok(decimal_value(s.subrange(from, s.len() as int)) as u16)
    } else if !is_decimal_digit(s[at]) {
        Err(IntErrorKind::InvalidDigit)
    } else if decimal_value(s.subrange(from, at + 1)) > 65535 {
        Err(IntErrorKind::PosOverflow)
    } else {
        scan_u16_from(s, from, at + 1)
    }
}

/// What `s` is as an unsigned 16-bit decimal number: an optional `+`, then
/// one or more digits whose value is at most 65535.
pub open spec fn parse_u16_spec(s: Seq<char>) -> Result<u16, IntErrorKind> {
    if s.len() == 0 {
        Err(IntErrorKind::Empty)
    } else if s.len() == 1 && (s[0] == '+' || s[0] == '-') {
        Err(IntErrorKind::InvalidDigit)
    } else if s[0] == '+' {
        scan_u16(s, 1)
    } else {
        scan_u16(s, 0)
    }
}

/// Parses `s` as an unsigned 16-bit decimal number.
pub fn parse_u16(s: &str) -> (r: Result<u16, IntErrorKind>)
    ensures
        r == parse_u16_spec(s@),
{
    let v = chars_of(s);
    let n = v.len();
    if n == 0 {
        return Err(IntErrorKind::Empty);
    }
    if n == 1 && (v[0] == '+' || v[0] == '-') {
        return Err(IntErrorKind::InvalidDigit);
    }
    let from: usize = if v[0] == '+' {
        1
    } else {
        0
    };
    let mut value: u32 = 0;
    let mut i: usize = from;
    assert(v@.subrange(from as int, from as int) =~= Seq::<char>::empty());
    while i < n
        invariant
            n == v.len(),
            from <= i <= n,
            value == decimal_value(v@.subrange(from as int, i as int)),
            value <= 65535,
            parse_u16_spec(s@) == scan_u16_from(v@, from as int, i as int),
        decreases n - i,
    {
        let c = v[i];
        if !(c >= '0' && c <= '9') {
            return Err(IntErrorKind::InvalidDigit);
        }
        let digit: u32 = (c as u32) - ('0' as u32);
        proof {
            let next = v@.subrange(from as int, i + 1);
            assert(next.drop_last() == v@.subrange(from as int, i as int));
            assert(next.last() == c);
        }
        let next_value: u32 = value * 10 + digit;
        if next_value > 65535 {
            return Err(IntErrorKind::PosOverflow);
        }
        value = next_value;
        i = i + 1;
    }
    Ok(value as u16)
}

} // verus!
