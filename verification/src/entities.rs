//! XML character escaping and unescaping of text content and attribute values.

use vstd::prelude::*;

verus! {

/// The escaped form of one character: the five predefined XML entities for
/// `&`, `<`, `>`, `"` and `'`, the character itself otherwise.
pub open spec fn escape_char(c: char) -> Seq<char> {
    if c == '&' {
        seq!['&', 'a', 'm', 'p', ';']
    } else if c == '<' {
        seq!['&', 'l', 't', ';']
    } else if c == '>' {
        seq!['&', 'g', 't', ';']
    } else if c == '"' {
        seq!['&', 'q', 'u', 'o', 't', ';']
    } else if c == '\'' {
        seq!['&', 'a', 'p', 'o', 's', ';']
    } else {
        seq![c]
    }
}

/// `s` with every character replaced by its escaped form.
pub open spec fn escaped(s: Seq<char>) -> Seq<char>
    decreases s.len(),
{
    if s.len() == 0 {
        Seq::empty()
    } else {
        escape_char(s[0]) + escaped(s.skip(1))
    }
}

/// `t` begins with `lit`.
pub open spec fn starts_with(t: Seq<char>, lit: Seq<char>) -> bool {
    lit.len() <= t.len() && t.subrange(0, lit.len() as int) == lit
}

pub open spec fn is_dec_digit(c: char) -> bool {
    '0' <= c && c <= '9'
}

pub open spec fn is_hex_digit(c: char) -> bool {
    ('0' <= c && c <= '9') || ('a' <= c && c <= 'f') || ('A' <= c && c <= 'F')
}

pub open spec fn is_digit_in(c: char, hex: bool) -> bool {
    if hex {
        is_hex_digit(c)
    } else {
        is_dec_digit(c)
    }
}

pub open spec fn digit_value(c: char) -> int {
    if '0' <= c && c <= '9' {
        c as int - '0' as int
    } else if 'a' <= c && c <= 'f' {
        c as int - 'a' as int + 10
    } else {
        c as int - 'A' as int + 10
    }
}

/// One past the largest code point: numeric values are clamped to it while
/// they are read, so that every value at or above it stands for "too large".
pub open spec fn code_limit() -> int {
    0x110000
}

/// The end of the run of digits of `t` that starts at `from`.
pub open spec fn digits_end(t: Seq<char>, from: int, hex: bool) -> int
    decreases t.len() - from,
{
    if from < 0 || from >= t.len() {
        from
    } else if is_digit_in(t[from], hex) {
        digits_end(t, from + 1, hex)
    } else {
        from
    }
}

/// The value of the digits `t[from..to]`, clamped to `code_limit()`.
pub open spec fn digits_value(t: Seq<char>, from: int, to: int, hex: bool) -> int
    decreases to - from,
{
    if to <= from {
        0
    } else {
        let v = digits_value(t, from, to - 1, hex) * (if hex {
            16int
        } else {
            10int
        }) + digit_value(t[to - 1]);
        if v >= code_limit() {
            code_limit()
        } else {
            v
        }
    }
}

/// A Unicode scalar value: a code point that is not a surrogate.
pub open spec fn is_scalar_value(v: int) -> bool {
    0 <= v < 0xD800 || (0xE000 <= v < code_limit())
}

/// A character reference `&#NNN;` or `&#xHHH;` at the start of `t`: the
/// character and the length of the reference.
pub open spec fn numeric_entity(t: Seq<char>) -> Option<(char, int)> {
    if t.len() >= 3 && t[0] == '&' && t[1] == '#' {
        let hex = t[2] == 'x' || t[2] == 'X';
        let start: int = if hex {
            3
        } else {
            2
        };
        let end = digits_end(t, start, hex);
        let v = digits_value(t, start, end, hex);
        if start < end && end < t.len() && t[end] == ';' && is_scalar_value(v) {
            Some((v as char, end + 1))
        } else {
            None
        }
    } else {
        None
    }
}

/// The entity at the start of `t`: one of the five predefined entities or a
/// numeric character reference, with its length.
pub open spec fn entity_at(t: Seq<char>) -> Option<(char, int)> {
    if starts_with(t, seq!['&', 'a', 'm', 'p', ';']) {
        Some(('&', 5))
    } else if starts_with(t, seq!['&', 'l', 't', ';']) {
        Some(('<', 4))
    } else if starts_with(t, seq!['&', 'g', 't', ';']) {
        Some(('>', 4))
    } else if starts_with(t, seq!['&', 'q', 'u', 'o', 't', ';']) {
        Some(('"', 6))
    } else if starts_with(t, seq!['&', 'a', 'p', 'o', 's', ';']) {
        Some(('\'', 6))
    } else {
        numeric_entity(t)
    }
}

pub proof fn lemma_digits_end_bounds(t: Seq<char>, from: int, hex: bool)
    requires
        0 <= from <= t.len(),
    ensures
        from <= digits_end(t, from, hex) <= t.len(),
        forall|k: int| from <= k < digits_end(t, from, hex) ==> is_digit_in(t[k], hex),
        digits_end(t, from, hex) < t.len() ==> !is_digit_in(t[digits_end(t, from, hex)], hex),
    decreases t.len() - from,
{
    if from < t.len() && is_digit_in(t[from], hex) {
        lemma_digits_end_bounds(t, from + 1, hex);
    }
}

pub proof fn lemma_entity_len(t: Seq<char>)
    ensures
        entity_at(t) matches Some((c, n)) ==> 1 <= n <= t.len(),
{
    if t.len() >= 3 && t[0] == '&' && t[1] == '#' {
        let hex = t[2] == 'x' || t[2] == 'X';
        let start: int = if hex {
            3
        } else {
            2
        };
        lemma_digits_end_bounds(t, start, hex);
    }
}

/// `t` with entities replaced by the characters they stand for; an `&` that
/// begins no entity stays as it is.
pub open spec fn unescaped(t: Seq<char>) -> Seq<char>
    decreases t.len(),
{
    if t.len() == 0 {
        Seq::empty()
    } else if t[0] == '&' {
        match entity_at(t) {
            Some((c, n)) => {
                proof {
                    lemma_entity_len(t);
                }
                seq![c] + unescaped(t.skip(n))
            },
            None => seq!['&'] + unescaped(t.skip(1)),
        }
    } else {
        seq![t[0]] + unescaped(t.skip(1))
    }
}

/// std's `char::from_u32`: the character with code point `v`, when `v` is a
/// Unicode scalar value, and `None` otherwise.
#[verifier::external_body]
fn char_from_code(v: u32) -> (res: Option<char>)
    ensures
        is_scalar_value(v as int) ==> res == Some(v as char),
        !is_scalar_value(v as int) ==> res is None,
{
    char::from_u32(v)
}

fn is_digit_exec(c: char, hex: bool) -> (res: bool)
    ensures
        res == is_digit_in(c, hex),
{
    if hex {
        ('0' <= c && c <= '9') || ('a' <= c && c <= 'f') || ('A' <= c && c <= 'F')
    } else {
        '0' <= c && c <= '9'
    }
}

fn digit_value_exec(c: char, hex: bool) -> (res: u32)
    requires
        is_digit_in(c, hex),
    ensures
        res as int == digit_value(c),
        res < 16,
{
    let u = c as u32;
    if '0' <= c && c <= '9' {
        u - ('0' as u32)
    } else if 'a' <= c && c <= 'f' {
        u - ('a' as u32) + 10
    } else {
        u - ('A' as u32) + 10
    }
}

proof fn lemma_digits_end_shift(s: Seq<char>, i: int, from: int, hex: bool)
    requires
        0 <= i <= s.len(),
        0 <= from,
    ensures
        digits_end(s.skip(i), from, hex) == digits_end(s, i + from, hex) - i,
    decreases s.len() - i - from,
{
    if from < s.len() - i && is_digit_in(s[i + from], hex) {
        lemma_digits_end_shift(s, i, from + 1, hex);
    }
}

proof fn lemma_digits_value_shift(s: Seq<char>, i: int, from: int, to: int, hex: bool)
    requires
        0 <= i <= s.len(),
        0 <= from,
        to <= s.len() - i,
    ensures
        digits_value(s.skip(i), from, to, hex) == digits_value(s, i + from, i + to, hex),
    decreases to - from,
{
    if from < to {
        lemma_digits_value_shift(s, i, from, to - 1, hex);
    }
}

/// Reads the numeric character reference that begins at `s[i]`.
fn numeric_entity_at(s: &[char], i: usize) -> (res: Option<(char, usize)>)
    requires
        i < s@.len(),
    ensures
        match res {
            Some((c, n)) => numeric_entity(s@.skip(i as int)) == Some((c, n as int)),
            None => numeric_entity(s@.skip(i as int)) is None,
        },
{
    let ghost t = s@.skip(i as int);
    if s.len() - i < 3 || s[i] != '&' || s[i + 1] != '#' {
        return None;
    }
    let hex = s[i + 2] == 'x' || s[i + 2] == 'X';
    let start: usize = if hex {
        3
    } else {
        2
    };
    let mut k: usize = i + start;
    let mut v: u32 = 0;
    proof {
        lemma_digits_end_shift(s@, i as int, start as int, hex);
    }
    while k < s.len() && is_digit_exec(s[k], hex)
        invariant
            i + start <= k <= s@.len(),
            s@.len() == s.len(),
            t == s@.skip(i as int),
            digits_end(t, start as int, hex) == digits_end(s@, k as int, hex) - i,
            v as int == digits_value(s@, i + start, k as int, hex),
            v <= code_limit(),
        decreases s@.len() - k,
    {
        let d = digit_value_exec(s[k], hex);
        let base: u32 = if hex {
            16
        } else {
            10
        };
        assert((v as u64) * (base as u64) <= 0x110000u64 * 16) by (nonlinear_arith)
            requires
                v <= 0x110000,
                base <= 16,
        ;
        let w: u64 = (v as u64) * (base as u64) + (d as u64);
        v = if w >= 0x110000 {
            0x110000
        } else {
            w as u32
        };
        k += 1;
    }
    proof {
        lemma_digits_value_shift(s@, i as int, start as int, (k - i) as int, hex);
    }
    if k == i + start || k >= s.len() || s[k] != ';' {
        return None;
    }
    match char_from_code(v) {
        Some(c) => Some((c, k + 1 - i)),
        None => None,
    }
}

fn literal_at(s: &[char], i: usize, lit: &[char]) -> (res: bool)
    requires
        i <= s@.len(),
    ensures
        res == starts_with(s@.skip(i as int), lit@),
{
    let r = crate::text::exact_match(s, i, lit);
    proof {
        if r {
            assert(s@.skip(i as int).subrange(0, lit@.len() as int) =~= s@.subrange(
                i as int,
                i + lit@.len(),
            ));
        } else if lit@.len() <= s@.skip(i as int).len() {
            assert(s@.skip(i as int).subrange(0, lit@.len() as int) =~= s@.subrange(
                i as int,
                i + lit@.len(),
            ));
        }
    }
    r
}

/// Reads the entity that begins at `s[i]`.
fn entity_at_exec(s: &[char], i: usize) -> (res: Option<(char, usize)>)
    requires
        i < s@.len(),
    ensures
        match res {
            Some((c, n)) => entity_at(s@.skip(i as int)) == Some((c, n as int)),
            None => entity_at(s@.skip(i as int)) is None,
        },
{
    if literal_at(s, i, &['&', 'a', 'm', 'p', ';']) {
        Some(('&', 5))
    } else if literal_at(s, i, &['&', 'l', 't', ';']) {
        Some(('<', 4))
    } else if literal_at(s, i, &['&', 'g', 't', ';']) {
        Some(('>', 4))
    } else if literal_at(s, i, &['&', 'q', 'u', 'o', 't', ';']) {
        Some(('"', 6))
    } else if literal_at(s, i, &['&', 'a', 'p', 'o', 's', ';']) {
        Some(('\'', 6))
    } else {
        numeric_entity_at(s, i)
    }
}

pub fn escape_chars(s: &[char]) -> (res: Vec<char>)
    ensures
        res@ == escaped(s@),
{
    let mut out: Vec<char> = Vec::new();
    let mut i: usize = 0;
    assert(s@.skip(0) =~= s@);
    while i < s.len()
        invariant
            i <= s@.len(),
            out@ + escaped(s@.skip(i as int)) == escaped(s@),
        decreases s@.len() - i,
    {
        let c = s[i];
        let ghost rest = s@.skip(i as int);
        assert(rest.skip(1) =~= s@.skip(i + 1));
        if c == '&' {
            crate::text::push_all(&mut out, &['&', 'a', 'm', 'p', ';']);
        } else if c == '<' {
            crate::text::push_all(&mut out, &['&', 'l', 't', ';']);
        } else if c == '>' {
            crate::text::push_all(&mut out, &['&', 'g', 't', ';']);
        } else if c == '"' {
            crate::text::push_all(&mut out, &['&', 'q', 'u', 'o', 't', ';']);
        } else if c == '\'' {
            crate::text::push_all(&mut out, &['&', 'a', 'p', 'o', 's', ';']);
        } else {
            out.push(c);
        }
        assert(out@ + escaped(s@.skip(i + 1)) =~= escaped(s@));
        i += 1;
    }
    assert(s@.skip(i as int) =~= Seq::<char>::empty());
    assert(out@ =~= escaped(s@));
    out
}

pub fn unescape_chars(s: &[char]) -> (res: Vec<char>)
    ensures
        res@ == unescaped(s@),
{
    let mut out: Vec<char> = Vec::new();
    let mut i: usize = 0;
    assert(s@.skip(0) =~= s@);
    while i < s.len()
        invariant
            i <= s@.len(),
            out@ + unescaped(s@.skip(i as int)) == unescaped(s@),
        decreases s@.len() - i,
    {
        let ghost rest = s@.skip(i as int);
        let c = s[i];
        if c == '&' {
            match entity_at_exec(s, i) {
                Some((d, n)) => {
                    proof {
                        lemma_entity_len(rest);
                        assert(rest.skip(n as int) =~= s@.skip(i + n));
                    }
                    out.push(d);
                    assert(out@ + unescaped(s@.skip(i + n)) =~= unescaped(s@));
                    i += n;
                },
                None => {
                    assert(rest.skip(1) =~= s@.skip(i + 1));
                    out.push('&');
                    assert(out@ + unescaped(s@.skip(i + 1)) =~= unescaped(s@));
                    i += 1;
                },
            }
        } else {
            assert(rest.skip(1) =~= s@.skip(i + 1));
            out.push(c);
            assert(out@ + unescaped(s@.skip(i + 1)) =~= unescaped(s@));
            i += 1;
        }
    }
    assert(s@.skip(i as int) =~= Seq::<char>::empty());
    assert(out@ =~= unescaped(s@));
    out
}

/// Escapes `&`, `<`, `>`, `"` and `'` as XML entities.
pub fn xml_escape(s: &str) -> (res: String)
    ensures
        res@ == escaped(s@),
{
    let chars = crate::text::chars_of(s);
    let out = escape_chars(&chars);
    crate::text::string_from_chars(&out)
}

/// Replaces the five predefined XML entities and numeric character
/// references by the characters they stand for.
pub fn xml_unescape(s: &str) -> (res: String)
    ensures
        res@ == unescaped(s@),
{
    let chars = crate::text::chars_of(s);
    let out = unescape_chars(&chars);
    crate::text::string_from_chars(&out)
}

/// Unescaping undoes escaping: for every text `s`,
/// `xml_unescape(xml_escape(s)) == s`.
pub proof fn law_unescape_escape(s: Seq<char>)
    ensures
        unescaped(escaped(s)) == s,
    decreases s.len(),
{
    if s.len() > 0 {
        let c = s[0];
        let rest = s.skip(1);
        law_unescape_escape(rest);
        let e = escape_char(c);
        let t = e + escaped(rest);
        assert(escaped(s) == t);
        assert(t.skip(e.len() as int) =~= escaped(rest));
        if c == '&' || c == '<' || c == '>' || c == '"' || c == '\'' {
            assert(t.subrange(0, e.len() as int) =~= e);
            assert(t[0] == '&');
            if c == '&' {
                assert(starts_with(t, seq!['&', 'a', 'm', 'p', ';']));
            } else if c == '<' {
                assert(!starts_with(t, seq!['&', 'a', 'm', 'p', ';'])) by {
                    assert(t[1] != seq!['&', 'a', 'm', 'p', ';'][1]);
                }
                assert(starts_with(t, seq!['&', 'l', 't', ';']));
            } else if c == '>' {
                assert(!starts_with(t, seq!['&', 'a', 'm', 'p', ';'])) by {
                    assert(t[1] != seq!['&', 'a', 'm', 'p', ';'][1]);
                }
                assert(!starts_with(t, seq!['&', 'l', 't', ';'])) by {
                    assert(t[1] != seq!['&', 'l', 't', ';'][1]);
                }
                assert(starts_with(t, seq!['&', 'g', 't', ';']));
            } else if c == '"' {
                assert(!starts_with(t, seq!['&', 'a', 'm', 'p', ';'])) by {
                    assert(t[1] != seq!['&', 'a', 'm', 'p', ';'][1]);
                }
                assert(!starts_with(t, seq!['&', 'l', 't', ';'])) by {
                    assert(t[1] != seq!['&', 'l', 't', ';'][1]);
                }
                assert(!starts_with(t, seq!['&', 'g', 't', ';'])) by {
                    assert(t[1] != seq!['&', 'g', 't', ';'][1]);
                }
                assert(starts_with(t, seq!['&', 'q', 'u', 'o', 't', ';']));
            } else {
                assert(!starts_with(t, seq!['&', 'a', 'm', 'p', ';'])) by {
                    assert(t[2] != seq!['&', 'a', 'm', 'p', ';'][2]);
                }
                assert(!starts_with(t, seq!['&', 'l', 't', ';'])) by {
                    assert(t[1] != seq!['&', 'l', 't', ';'][1]);
                }
                assert(!starts_with(t, seq!['&', 'g', 't', ';'])) by {
                    assert(t[1] != seq!['&', 'g', 't', ';'][1]);
                }
                assert(!starts_with(t, seq!['&', 'q', 'u', 'o', 't', ';'])) by {
                    assert(t[1] != seq!['&', 'q', 'u', 'o', 't', ';'][1]);
                }
                assert(starts_with(t, seq!['&', 'a', 'p', 'o', 's', ';']));
            }
        } else {
            assert(t[0] == c);
            assert(t.skip(1) =~= escaped(rest));
        }
        assert(unescaped(t) =~= s);
    }
}

} // verus!
