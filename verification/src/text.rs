//! Character-level helpers shared by the scanners: conversion between strings
//! and character vectors, whitespace and word classes, case-insensitive
//! literal matching and searching.

use vstd::prelude::*;

verus! {

/// The characters of `s`, in order.
pub fn chars_of(s: &str) -> (res: Vec<char>)
    ensures
        res@ == s@,
{
    let mut res: Vec<char> = Vec::new();
    for c in it: s.chars()
        invariant
            res@ == it.seq().take(it.index() as int),
            it.seq() == s@,
    {
        res.push(c);
    }
    res
}

/// Collects characters into a `String` (std's `FromIterator<char>` for `String`).
#[verifier::external_body]
pub fn string_from_chars(chars: &[char]) -> (res: String)
    ensures
        res@ == chars@,
{
    chars.iter().collect()
}

/// Appends all characters of `src` to `dst`.
pub fn push_all(dst: &mut Vec<char>, src: &[char])
    ensures
        final(dst)@ == old(dst)@ + src@,
{
    dst.extend_from_slice(src);
}

/// The Unicode `White_Space` property, which is both what `\s` means in a
/// Unicode regular expression and what `char::is_whitespace` tests.
pub open spec fn is_white_space(c: char) -> bool {
    ||| ('\u{9}' <= c && c <= '\u{d}')
    ||| c == ' '
    ||| c == '\u{85}'
    ||| c == '\u{a0}'
    ||| c == '\u{1680}'
    ||| ('\u{2000}' <= c && c <= '\u{200a}')
    ||| c == '\u{2028}'
    ||| c == '\u{2029}'
    ||| c == '\u{202f}'
    ||| c == '\u{205f}'
    ||| c == '\u{3000}'
}

pub fn white_space(c: char) -> (res: bool)
    ensures
        res == is_white_space(c),
{
    ('\u{9}' <= c && c <= '\u{d}') || c == ' ' || c == '\u{85}' || c == '\u{a0}' || c
        == '\u{1680}' || ('\u{2000}' <= c && c <= '\u{200a}') || c == '\u{2028}' || c
        == '\u{2029}' || c == '\u{202f}' || c == '\u{205f}' || c == '\u{3000}'
}

/// Whether `c`, outside ASCII, is a Unicode word character in the sense of
/// the `\b` and `\w` classes of the regular-expression syntax
/// (regex-syntax's classification).
pub uninterp spec fn word_char(c: char) -> bool;

/// Whether `c` is a word character: an ASCII letter, digit or `_` in ASCII,
/// and what regex-syntax's classification says beyond it.
pub open spec fn word_class(c: char) -> bool {
    if (c as u32) < 128 {
        ('0' <= c && c <= '9') || ('A' <= c && c <= 'Z') || ('a' <= c && c <= 'z') || c == '_'
    } else {
        word_char(c)
    }
}

/// regex-syntax's `is_word_character`: whether `c` is a Unicode word
/// character (Alphabetic, Join_Control, Decimal_Number, Mark or
/// Connector_Punctuation). As its source shows, in ASCII these are the
/// letters, the digits and `_`; beyond ASCII the contract only names the
/// classification.
#[verifier::external_body]
pub fn is_word_char(c: char) -> (res: bool)
    ensures
        (c as u32) < 128 ==> res == (('0' <= c && c <= '9') || ('A' <= c && c <= 'Z') || ('a' <= c
            && c <= 'z') || c == '_'),
        (c as u32) >= 128 ==> res == word_char(c),
{
    regex_syntax::is_word_character(c)
}

/// `c` with case ignored as Unicode simple case folding does for ASCII
/// letters: upper-case ASCII letters become lower-case, LONG S becomes `s`
/// and KELVIN SIGN becomes `k`.
pub open spec fn fold_char(c: char) -> char {
    if 'A' <= c && c <= 'Z' {
        ((c as int) + 32) as char
    } else if c == '\u{17f}' {
        's'
    } else if c == '\u{212a}' {
        'k'
    } else {
        c
    }
}

/// Whether `c` matches `lit` when case is ignored.
pub open spec fn ci_char_eq(c: char, lit: char) -> bool {
    fold_char(c) == fold_char(lit)
}

pub fn fold(c: char) -> (res: char)
    ensures
        res == fold_char(c),
{
    if 'A' <= c && c <= 'Z' {
        let b = (c as u32 + 32) as u8;
        b as char
    } else if c == '\u{17f}' {
        's'
    } else if c == '\u{212a}' {
        'k'
    } else {
        c
    }
}

pub fn ci_char(c: char, lit: char) -> (res: bool)
    ensures
        res == ci_char_eq(c, lit),
{
    fold(c) == fold(lit)
}

/// `lit` occurs at position `i` of `s`, ignoring case.
pub open spec fn ci_at(s: Seq<char>, i: int, lit: Seq<char>) -> bool {
    &&& 0 <= i
    &&& i + lit.len() <= s.len()
    &&& forall|j: int| 0 <= j < lit.len() ==> ci_char_eq(s[i + j], #[trigger] lit[j])
}

/// `lit` occurs at position `i` of `s`, exactly.
pub open spec fn exact_at(s: Seq<char>, i: int, lit: Seq<char>) -> bool {
    &&& 0 <= i
    &&& i + lit.len() <= s.len()
    &&& s.subrange(i, i + lit.len()) == lit
}

pub fn ci_match(s: &[char], i: usize, lit: &[char]) -> (res: bool)
    ensures
        res == ci_at(s@, i as int, lit@),
{
    if i > s.len() || lit.len() > s.len() - i {
        return false;
    }
    let mut j: usize = 0;
    while j < lit.len()
        invariant
            i + lit@.len() <= s@.len(),
            s@.len() == s.len(),
            j <= lit@.len(),
            forall|k: int| 0 <= k < j ==> ci_char_eq(s@[i + k], #[trigger] lit@[k]),
        decreases lit@.len() - j,
    {
        if !ci_char(s[i + j], lit[j]) {
            return false;
        }
        j += 1;
    }
    true
}

pub fn exact_match(s: &[char], i: usize, lit: &[char]) -> (res: bool)
    ensures
        res == exact_at(s@, i as int, lit@),
{
    if i > s.len() || lit.len() > s.len() - i {
        return false;
    }
    let mut j: usize = 0;
    while j < lit.len()
        invariant
            i + lit@.len() <= s@.len(),
            s@.len() == s.len(),
            j <= lit@.len(),
            forall|k: int| 0 <= k < j ==> s@[i + k] == #[trigger] lit@[k],
        decreases lit@.len() - j,
    {
        if s[i + j] != lit[j] {
            assert(s@.subrange(i as int, i + lit@.len())[j as int] != lit@[j as int]);
            return false;
        }
        j += 1;
    }
    assert(s@.subrange(i as int, i + lit@.len()) =~= lit@);
    true
}

/// The first position at or after `from` where `lit` occurs, ignoring case.
pub open spec fn first_ci_from(s: Seq<char>, from: int, lit: Seq<char>) -> Option<int>
    decreases s.len() - from,
{
    if from < 0 || from >= s.len() {
        None
    } else if ci_at(s, from, lit) {
        Some(from)
    } else {
        first_ci_from(s, from + 1, lit)
    }
}

/// The first position at or after `from` where `lit` occurs exactly.
pub open spec fn first_exact_from(s: Seq<char>, from: int, lit: Seq<char>) -> Option<int>
    decreases s.len() - from,
{
    if from < 0 || from >= s.len() {
        None
    } else if exact_at(s, from, lit) {
        Some(from)
    } else {
        first_exact_from(s, from + 1, lit)
    }
}

/// The first position at or after `from` holding `c`.
pub open spec fn first_char_from(s: Seq<char>, from: int, c: char) -> Option<int>
    decreases s.len() - from,
{
    if from < 0 || from >= s.len() {
        None
    } else if s[from] == c {
        Some(from)
    } else {
        first_char_from(s, from + 1, c)
    }
}

/// The last position before `end` where `lit` occurs exactly.
pub open spec fn last_exact_before(s: Seq<char>, end: int, lit: Seq<char>) -> Option<int>
    decreases end,
{
    if end <= 0 {
        None
    } else if exact_at(s, end - 1, lit) {
        Some(end - 1)
    } else {
        last_exact_before(s, end - 1, lit)
    }
}

pub proof fn lemma_first_ci_from_bounds(s: Seq<char>, from: int, lit: Seq<char>)
    ensures
        first_ci_from(s, from, lit) matches Some(k) ==> from <= k && ci_at(s, k, lit) && k
            + lit.len() <= s.len() && k < s.len(),
    decreases s.len() - from,
{
    if 0 <= from < s.len() && !ci_at(s, from, lit) {
        lemma_first_ci_from_bounds(s, from + 1, lit);
    }
}

pub proof fn lemma_first_exact_from_bounds(s: Seq<char>, from: int, lit: Seq<char>)
    ensures
        first_exact_from(s, from, lit) matches Some(k) ==> from <= k && exact_at(s, k, lit) && k
            + lit.len() <= s.len() && k < s.len(),
    decreases s.len() - from,
{
    if 0 <= from < s.len() && !exact_at(s, from, lit) {
        lemma_first_exact_from_bounds(s, from + 1, lit);
    }
}

pub proof fn lemma_first_char_from_bounds(s: Seq<char>, from: int, c: char)
    ensures
        first_char_from(s, from, c) matches Some(k) ==> from <= k < s.len() && s[k] == c,
    decreases s.len() - from,
{
    if 0 <= from < s.len() && s[from] != c {
        lemma_first_char_from_bounds(s, from + 1, c);
    }
}

pub proof fn lemma_last_exact_before_bounds(s: Seq<char>, end: int, lit: Seq<char>)
    ensures
        last_exact_before(s, end, lit) matches Some(k) ==> 0 <= k < end && exact_at(s, k, lit),
    decreases end,
{
    if end > 0 && !exact_at(s, end - 1, lit) {
        lemma_last_exact_before_bounds(s, end - 1, lit);
    }
}

pub fn find_ci(s: &[char], from: usize, lit: &[char]) -> (res: Option<usize>)
    ensures
        match res {
            Some(k) => first_ci_from(s@, from as int, lit@) == Some(k as int),
            None => first_ci_from(s@, from as int, lit@) is None,
        },
{
    let mut i = from;
    while i < s.len()
        invariant
            from <= i,
            first_ci_from(s@, from as int, lit@) == first_ci_from(s@, i as int, lit@),
        decreases s@.len() - i,
    {
        if ci_match(s, i, lit) {
            return Some(i);
        }
        i += 1;
    }
    None
}

pub fn find_exact(s: &[char], from: usize, lit: &[char]) -> (res: Option<usize>)
    ensures
        match res {
            Some(k) => first_exact_from(s@, from as int, lit@) == Some(k as int),
            None => first_exact_from(s@, from as int, lit@) is None,
        },
{
    let mut i = from;
    while i < s.len()
        invariant
            from <= i,
            first_exact_from(s@, from as int, lit@) == first_exact_from(s@, i as int, lit@),
        decreases s@.len() - i,
    {
        if exact_match(s, i, lit) {
            return Some(i);
        }
        i += 1;
    }
    None
}

pub fn find_char(s: &[char], from: usize, c: char) -> (res: Option<usize>)
    ensures
        match res {
            Some(k) => first_char_from(s@, from as int, c) == Some(k as int),
            None => first_char_from(s@, from as int, c) is None,
        },
{
    let mut i = from;
    while i < s.len()
        invariant
            from <= i,
            first_char_from(s@, from as int, c) == first_char_from(s@, i as int, c),
        decreases s@.len() - i,
    {
        if s[i] == c {
            return Some(i);
        }
        i += 1;
    }
    None
}

pub fn rfind_exact(s: &[char], lit: &[char]) -> (res: Option<usize>)
    ensures
        match res {
            Some(k) => last_exact_before(s@, s@.len() as int, lit@) == Some(k as int),
            None => last_exact_before(s@, s@.len() as int, lit@) is None,
        },
{
    let mut end = s.len();
    while end > 0
        invariant
            end <= s@.len(),
            last_exact_before(s@, s@.len() as int, lit@) == last_exact_before(
                s@,
                end as int,
                lit@,
            ),
        decreases end,
    {
        if exact_match(s, end - 1, lit) {
            return Some(end - 1);
        }
        end -= 1;
    }
    None
}

/// The first position at or after `from` that does not hold white space
/// (`s.len()` when there is none).
pub open spec fn skip_ws(s: Seq<char>, from: int) -> int
    decreases s.len() - from,
{
    if from < 0 || from >= s.len() {
        from
    } else if is_white_space(s[from]) {
        skip_ws(s, from + 1)
    } else {
        from
    }
}

pub proof fn lemma_skip_ws_bounds(s: Seq<char>, from: int)
    requires
        0 <= from,
    ensures
        from <= skip_ws(s, from),
        from <= s.len() ==> skip_ws(s, from) <= s.len(),
        skip_ws(s, from) < s.len() ==> !is_white_space(s[skip_ws(s, from)]),
    decreases s.len() - from,
{
    if from < s.len() && is_white_space(s[from]) {
        lemma_skip_ws_bounds(s, from + 1);
    }
}

pub fn skip_white_space(s: &[char], from: usize) -> (res: usize)
    requires
        from <= s@.len(),
    ensures
        res as int == skip_ws(s@, from as int),
{
    let mut i = from;
    while i < s.len() && white_space(s[i])
        invariant
            from <= i <= s@.len(),
            skip_ws(s@, from as int) == skip_ws(s@, i as int),
        decreases s@.len() - i,
    {
        i += 1;
    }
    i
}

/// The characters of `s` from `from` (inclusive) to `to` (exclusive).
pub fn slice_to_vec(s: &[char], from: usize, to: usize) -> (res: Vec<char>)
    requires
        from <= to <= s@.len(),
    ensures
        res@ == s@.subrange(from as int, to as int),
{
    let mut res: Vec<char> = Vec::new();
    res.extend_from_slice(&s[from..to]);
    res
}

/// The UTF-8 encoding of `a + b` is that of `a` followed by that of `b`.
pub proof fn lemma_encode_utf8_concat(a: Seq<char>, b: Seq<char>)
    ensures
        vstd::utf8::encode_utf8(a + b) == vstd::utf8::encode_utf8(a) + vstd::utf8::encode_utf8(b),
    decreases a.len(),
{
    if a.len() == 0 {
        assert(a + b =~= b);
        assert(vstd::utf8::encode_utf8(a) =~= Seq::<u8>::empty());
        assert(Seq::<u8>::empty() + vstd::utf8::encode_utf8(b) =~= vstd::utf8::encode_utf8(b));
    } else {
        lemma_encode_utf8_concat(a.drop_first(), b);
        assert((a + b).drop_first() =~= a.drop_first() + b);
        assert((a + b)[0] == a[0]);
        let e0 = vstd::utf8::encode_scalar(a[0] as u32);
        assert(vstd::utf8::encode_utf8(a + b) == e0 + vstd::utf8::encode_utf8(a.drop_first() + b));
        assert(vstd::utf8::encode_utf8(a) == e0 + vstd::utf8::encode_utf8(a.drop_first()));
        assert(e0 + (vstd::utf8::encode_utf8(a.drop_first()) + vstd::utf8::encode_utf8(b)) =~= (e0
            + vstd::utf8::encode_utf8(a.drop_first())) + vstd::utf8::encode_utf8(b));
    }
}

/// The byte offset, in the UTF-8 text of `s`, of the character at index `i`.
pub open spec fn byte_offset(s: Seq<char>, i: int) -> int {
    vstd::utf8::encode_utf8(s.take(i)).len() as int
}

/// The byte offset of the character at index `i` of `s`.
pub fn byte_offset_of(s: &[char], i: usize) -> (res: usize)
    requires
        i <= s@.len(),
        vstd::utf8::encode_utf8(s@).len() <= usize::MAX,
    ensures
        res as int == byte_offset(s@, i as int),
{
    let prefix = string_from_chars(&s[0..i]);
    proof {
        assert(s@ =~= s@.take(i as int) + s@.skip(i as int));
        lemma_encode_utf8_concat(s@.take(i as int), s@.skip(i as int));
        assert(prefix@ =~= s@.take(i as int));
    }
    prefix.as_str().len()
}

} // verus!
