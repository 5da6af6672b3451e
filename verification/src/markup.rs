//! The patterns by which `.resx` markup is recognised without parsing the
//! whole XML document: `<data>` blocks, `<value>` and `<comment>` elements,
//! the `name` attribute, the indentation of `<data>` lines and the culture
//! suffix of a file name.
//!
//! Tag names and the attribute name match in any case. `\b` below means a
//! word boundary in the Unicode sense (see [`word_class`]).

use vstd::prelude::*;
use crate::encoding::is_quote;
use crate::text::{
    ci_at, ci_char, ci_char_eq, ci_match, exact_at, exact_match, find_char, find_ci,
    first_char_from, first_ci_from, first_exact_from, is_white_space, is_word_char,
    lemma_first_char_from_bounds, lemma_first_ci_from_bounds, lemma_skip_ws_bounds,
    skip_white_space, skip_ws, white_space, word_class,
};

verus! {

/// A word boundary after position `j - 1`, which holds a word character.
pub open spec fn boundary_after(s: Seq<char>, j: int) -> bool {
    j >= s.len() || !word_class(s[j])
}

fn boundary_after_exec(s: &[char], j: usize) -> (res: bool)
    ensures
        res == boundary_after(s@, j as int),
{
    j >= s.len() || !is_word_char(s[j])
}

/// An element `<tag\b ...>text</tag>` at position `i` (`open` is `<tag`,
/// `close` is `</tag>`): the position of the first `>` and of the closing tag.
pub open spec fn element_at(s: Seq<char>, i: int, open: Seq<char>, close: Seq<char>) -> Option<(int, int)> {
    if ci_at(s, i, open) && boundary_after(s, i + open.len()) {
        match first_char_from(s, i + open.len(), '>') {
            Some(g) => match first_ci_from(s, g + 1, close) {
                Some(c) => Some((g, c)),
                None => None,
            },
            None => None,
        }
    } else {
        None
    }
}

pub proof fn lemma_element_bounds(s: Seq<char>, i: int, open: Seq<char>, close: Seq<char>)
    requires
        open.len() > 0,
        close.len() > 0,
    ensures
        element_at(s, i, open, close) matches Some((g, c)) ==> i + open.len() <= g < c && c
            + close.len() <= s.len() && 0 <= i && ci_at(s, i, open) && s[g] == '>' && ci_at(
            s,
            c,
            close,
        ),
{
    if ci_at(s, i, open) && boundary_after(s, i + open.len()) {
        lemma_first_char_from_bounds(s, i + open.len(), '>');
        match first_char_from(s, i + open.len(), '>') {
            Some(g) => {
                lemma_first_ci_from_bounds(s, g + 1, close);
            },
            None => {},
        }
    }
}

/// The text ranges of all elements `open ... close` found at or after `pos`,
/// each search going on after the previous element.
pub open spec fn elements_from(s: Seq<char>, pos: int, open: Seq<char>, close: Seq<char>) -> Seq<(int, int)>
    decreases s.len() - pos,
{
    if pos < 0 || pos >= s.len() || open.len() == 0 || close.len() == 0 {
        Seq::empty()
    } else {
        match element_at(s, pos, open, close) {
            Some((g, c)) => {
                proof {
                    lemma_element_bounds(s, pos, open, close);
                }
                seq![(g + 1, c)] + elements_from(s, c + close.len(), open, close)
            },
            None => elements_from(s, pos + 1, open, close),
        }
    }
}

/// The text range of the first element `open ... close` at or after `pos`.
pub open spec fn first_element(s: Seq<char>, pos: int, open: Seq<char>, close: Seq<char>) -> Option<(int, int)>
    decreases s.len() - pos,
{
    if pos < 0 || pos >= s.len() {
        None
    } else {
        match element_at(s, pos, open, close) {
            Some((g, c)) => Some((g + 1, c)),
            None => first_element(s, pos + 1, open, close),
        }
    }
}

pub fn element_at_exec(s: &[char], i: usize, open: &[char], close: &[char]) -> (res: Option<(usize, usize)>)
    requires
        open@.len() > 0,
        close@.len() > 0,
    ensures
        match res {
            Some((g, c)) => element_at(s@, i as int, open@, close@) == Some((g as int, c as int)),
            None => element_at(s@, i as int, open@, close@) is None,
        },
{
    if !ci_match(s, i, open) {
        return None;
    }
    assert(s@.len() == s.len());
    if !boundary_after_exec(s, i + open.len()) {
        return None;
    }
    match find_char(s, i + open.len(), '>') {
        Some(g) => {
            proof {
                lemma_first_char_from_bounds(s@, i + open@.len(), '>');
            }
            match find_ci(s, g + 1, close) {
                Some(c) => Some((g, c)),
                None => None,
            }
        },
        None => None,
    }
}

/// The text ranges of all `open ... close` elements of `s`.
pub fn find_elements(s: &[char], open: &[char], close: &[char]) -> (res: Vec<(usize, usize)>)
    requires
        open@.len() > 0,
        close@.len() > 0,
    ensures
        res@.len() == elements_from(s@, 0, open@, close@).len(),
        forall|k: int|
            0 <= k < res@.len() ==> (res@[k].0 as int, res@[k].1 as int) == #[trigger] elements_from(
                s@,
                0,
                open@,
                close@,
            )[k],
{
    let mut res: Vec<(usize, usize)> = Vec::new();
    let mut pos: usize = 0;
    let ghost total = elements_from(s@, 0, open@, close@);
    while pos < s.len()
        invariant
            open@.len() > 0,
            close@.len() > 0,
            pos <= s@.len(),
            s@.len() == s.len(),
            total == elements_from(s@, 0, open@, close@),
            res@.len() + elements_from(s@, pos as int, open@, close@).len() == total.len(),
            forall|k: int|
                0 <= k < res@.len() ==> (res@[k].0 as int, res@[k].1 as int) == #[trigger] total[k],
            forall|k: int|
                0 <= k < elements_from(s@, pos as int, open@, close@).len() ==> #[trigger] elements_from(
                    s@,
                    pos as int,
                    open@,
                    close@,
                )[k] == total[res@.len() + k],
        decreases s@.len() - pos,
    {
        match element_at_exec(s, pos, open, close) {
            Some((g, c)) => {
                proof {
                    lemma_element_bounds(s@, pos as int, open@, close@);
                    let rest = elements_from(s@, c + close@.len(), open@, close@);
                    assert(elements_from(s@, pos as int, open@, close@) == seq![(g + 1, c as int)]
                        + rest);
                    assert forall|k: int| 0 <= k < rest.len() implies #[trigger] rest[k]
                        == total[res@.len() + 1 + k] by {
                        assert(rest[k] == elements_from(s@, pos as int, open@, close@)[k + 1]);
                    }
                    assert(elements_from(s@, pos as int, open@, close@)[0] == (g + 1, c as int));
                }
                res.push((g + 1, c));
                pos = c + close.len();
            },
            None => {
                pos += 1;
            },
        }
    }
    res
}

/// The text range of the first `open ... close` element of `s`.
pub fn find_first_element(s: &[char], open: &[char], close: &[char]) -> (res: Option<(usize, usize)>)
    requires
        open@.len() > 0,
        close@.len() > 0,
    ensures
        match res {
            Some((a, b)) => first_element(s@, 0, open@, close@) == Some((a as int, b as int)) && a
                <= b <= s@.len(),
            None => first_element(s@, 0, open@, close@) is None,
        },
{
    let mut pos: usize = 0;
    while pos < s.len()
        invariant
            open@.len() > 0,
            close@.len() > 0,
            first_element(s@, 0, open@, close@) == first_element(s@, pos as int, open@, close@),
        decreases s@.len() - pos,
    {
        match element_at_exec(s, pos, open, close) {
            Some((g, c)) => {
                proof {
                    lemma_element_bounds(s@, pos as int, open@, close@);
                }
                return Some((g + 1, c));
            },
            None => {},
        }
        pos += 1;
    }
    None
}

pub open spec fn data_open() -> Seq<char> {
    seq!['<', 'd', 'a', 't', 'a']
}

pub open spec fn data_close() -> Seq<char> {
    seq!['<', '/', 'd', 'a', 't', 'a', '>']
}

pub open spec fn value_open() -> Seq<char> {
    seq!['<', 'v', 'a', 'l', 'u', 'e']
}

pub open spec fn value_close() -> Seq<char> {
    seq!['<', '/', 'v', 'a', 'l', 'u', 'e', '>']
}

pub open spec fn comment_open() -> Seq<char> {
    seq!['<', 'c', 'o', 'm', 'm', 'e', 'n', 't']
}

pub open spec fn comment_close() -> Seq<char> {
    seq!['<', '/', 'c', 'o', 'm', 'm', 'e', 'n', 't', '>']
}

pub fn data_open_lit() -> (res: [char; 5])
    ensures
        res@ == data_open(),
{
    ['<', 'd', 'a', 't', 'a']
}

pub fn data_close_lit() -> (res: [char; 7])
    ensures
        res@ == data_close(),
{
    ['<', '/', 'd', 'a', 't', 'a', '>']
}

pub fn value_open_lit() -> (res: [char; 6])
    ensures
        res@ == value_open(),
{
    ['<', 'v', 'a', 'l', 'u', 'e']
}

pub fn value_close_lit() -> (res: [char; 8])
    ensures
        res@ == value_close(),
{
    ['<', '/', 'v', 'a', 'l', 'u', 'e', '>']
}

pub fn comment_open_lit() -> (res: [char; 8])
    ensures
        res@ == comment_open(),
{
    ['<', 'c', 'o', 'm', 'm', 'e', 'n', 't']
}

pub fn comment_close_lit() -> (res: [char; 10])
    ensures
        res@ == comment_close(),
{
    ['<', '/', 'c', 'o', 'm', 'm', 'e', 'n', 't', '>']
}

// ---------------------------------------------------------------------
// An attribute assignment: `\bname\s*=\s*"..."` or the same with `'`.

/// Whether position `q` of `s` is a word boundary.
pub open spec fn boundary_at(s: Seq<char>, q: int) -> bool {
    (0 < q <= s.len() && word_class(s[q - 1])) != (0 <= q < s.len() && word_class(s[q]))
}

fn boundary_at_exec(s: &[char], q: usize) -> (res: bool)
    ensures
        res == boundary_at(s@, q as int),
{
    let before = 0 < q && q <= s.len() && is_word_char(s[q - 1]);
    let after = q < s.len() && is_word_char(s[q]);
    before != after
}

/// `attr = "..."` (or with `'`) at `q`, the attribute name matching in any
/// case: the range of the quoted value.
pub open spec fn assign_at(s: Seq<char>, q: int, attr: Seq<char>) -> Option<(int, int)> {
    if boundary_at(s, q) && ci_at(s, q, attr) {
        let a = skip_ws(s, q + attr.len());
        if a < s.len() && s[a] == '=' {
            let b = skip_ws(s, a + 1);
            if b < s.len() && is_quote(s[b]) {
                match first_char_from(s, b + 1, s[b]) {
                    Some(k) => Some((b + 1, k)),
                    None => None,
                }
            } else {
                None
            }
        } else {
            None
        }
    } else {
        None
    }
}

/// The quote that opens the value of the assignment at `q`.
pub open spec fn assign_quote(s: Seq<char>, q: int, attr: Seq<char>) -> char {
    s[skip_ws(s, skip_ws(s, q + attr.len()) + 1)]
}

pub proof fn lemma_assign_bounds(s: Seq<char>, q: int, attr: Seq<char>)
    ensures
        assign_at(s, q, attr) matches Some((a, b)) ==> 0 <= q && q + attr.len() < a <= b < s.len()
            && s[a - 1] == assign_quote(s, q, attr) && s[b] == assign_quote(s, q, attr),
{
    if boundary_at(s, q) && ci_at(s, q, attr) {
        lemma_skip_ws_bounds(s, q + attr.len());
        let a = skip_ws(s, q + attr.len());
        if a < s.len() && s[a] == '=' {
            lemma_skip_ws_bounds(s, a + 1);
            let b = skip_ws(s, a + 1);
            if b < s.len() && is_quote(s[b]) {
                lemma_first_char_from_bounds(s, b + 1, s[b]);
            }
        }
    }
}

fn assign_exec(s: &[char], q: usize, attr: &[char]) -> (res: Option<(usize, usize)>)
    ensures
        match res {
            Some((a, b)) => assign_at(s@, q as int, attr@) == Some((a as int, b as int)),
            None => assign_at(s@, q as int, attr@) is None,
        },
{
    if !boundary_at_exec(s, q) {
        return None;
    }
    if !ci_match(s, q, attr) {
        return None;
    }
    assert(s@.len() == s.len());
    let a = skip_white_space(s, q + attr.len());
    if a >= s.len() || s[a] != '=' {
        return None;
    }
    let b = skip_white_space(s, a + 1);
    if b >= s.len() || !(s[b] == '"' || s[b] == '\'') {
        return None;
    }
    match find_char(s, b + 1, s[b]) {
        Some(k) => Some((b + 1, k)),
        None => None,
    }
}

/// The value range of the first `attr` assignment at or after `pos`.
pub open spec fn first_assign(s: Seq<char>, pos: int, attr: Seq<char>) -> Option<(int, int)>
    decreases s.len() - pos,
{
    if pos < 0 || pos >= s.len() {
        None
    } else {
        match assign_at(s, pos, attr) {
            Some(r) => Some(r),
            None => first_assign(s, pos + 1, attr),
        }
    }
}

/// The range of the raw value of the attribute `attr` in the attribute
/// text `attrs`.
pub fn find_attr_value(attrs: &[char], attr: &[char]) -> (res: Option<(usize, usize)>)
    ensures
        match res {
            Some((a, b)) => first_assign(attrs@, 0, attr@) == Some((a as int, b as int)) && a <= b
                <= attrs@.len(),
            None => first_assign(attrs@, 0, attr@) is None,
        },
{
    let mut pos: usize = 0;
    while pos < attrs.len()
        invariant
            first_assign(attrs@, 0, attr@) == first_assign(attrs@, pos as int, attr@),
        decreases attrs@.len() - pos,
    {
        match assign_exec(attrs, pos, attr) {
            Some(r) => {
                proof {
                    lemma_assign_bounds(attrs@, pos as int, attr@);
                }
                return Some(r);
            },
            None => {},
        }
        pos += 1;
    }
    None
}

/// The attribute name `name`.
pub open spec fn name_attr() -> Seq<char> {
    seq!['n', 'a', 'm', 'e']
}

pub fn name_attr_lit() -> (res: [char; 4])
    ensures
        res@ == name_attr(),
{
    ['n', 'a', 'm', 'e']
}

/// The last position in `[lo, hi)` with a `name` assignment whose value is
/// quoted with `quote`.
pub open spec fn last_name_assign(s: Seq<char>, lo: int, hi: int, quote: char) -> Option<(int, int)>
    decreases hi - lo,
{
    if hi <= lo {
        None
    } else {
        match assign_at(s, hi - 1, name_attr()) {
            Some(r) if assign_quote(s, hi - 1, name_attr()) == quote => Some(r),
            _ => last_name_assign(s, lo, hi - 1, quote),
        }
    }
}

/// The `name` value of a `<data ...>` tag that starts at `i`: inside the tag
/// (before its first `>`), the last double-quoted assignment, else the last
/// single-quoted one.
pub open spec fn data_name_at(s: Seq<char>, i: int) -> Option<(int, int)> {
    if ci_at(s, i, data_open()) && boundary_after(s, i + 5) {
        let limit = match first_char_from(s, i + 5, '>') {
            Some(g) => g,
            None => s.len() as int,
        };
        match last_name_assign(s, i + 5, limit, '"') {
            Some(r) => Some(r),
            None => last_name_assign(s, i + 5, limit, '\''),
        }
    } else {
        None
    }
}

/// The range of the `name` value of the first `<data ...>` tag at or after
/// `pos` that has one.
pub open spec fn first_data_name(s: Seq<char>, pos: int) -> Option<(int, int)>
    decreases s.len() - pos,
{
    if pos < 0 || pos >= s.len() {
        None
    } else {
        match data_name_at(s, pos) {
            Some(r) => Some(r),
            None => first_data_name(s, pos + 1),
        }
    }
}

fn last_name_assign_exec(s: &[char], lo: usize, hi: usize, quote: char) -> (res: Option<(usize, usize)>)
    requires
        hi <= s@.len(),
    ensures
        match res {
            Some((a, b)) => last_name_assign(s@, lo as int, hi as int, quote) == Some(
                (a as int, b as int),
            ) && a <= b <= s@.len(),
            None => last_name_assign(s@, lo as int, hi as int, quote) is None,
        },
{
    let name_lit = name_attr_lit();
    let mut h = hi;
    while h > lo
        invariant
            name_lit@ == name_attr(),
            h <= hi,
            last_name_assign(s@, lo as int, hi as int, quote) == last_name_assign(
                s@,
                lo as int,
                h as int,
                quote,
            ),
        decreases h,
    {
        match assign_exec(s, h - 1, &name_lit) {
            Some((a, b)) => {
                proof {
                    lemma_assign_bounds(s@, h - 1, name_attr());
                }
                if s[a - 1] == quote {
                    return Some((a, b));
                }
            },
            None => {},
        }
        h -= 1;
    }
    None
}

fn data_name_exec(s: &[char], i: usize) -> (res: Option<(usize, usize)>)
    ensures
        match res {
            Some((a, b)) => data_name_at(s@, i as int) == Some((a as int, b as int)) && a <= b
                <= s@.len(),
            None => data_name_at(s@, i as int) is None,
        },
{
    let open = data_open_lit();
    if !ci_match(s, i, &open) {
        return None;
    }
    assert(s@.len() == s.len());
    if !boundary_after_exec(s, i + 5) {
        return None;
    }
    let limit = match find_char(s, i + 5, '>') {
        Some(g) => g,
        None => s.len(),
    };
    proof {
        lemma_first_char_from_bounds(s@, i + 5, '>');
    }
    match last_name_assign_exec(s, i + 5, limit, '"') {
        Some(r) => Some(r),
        None => last_name_assign_exec(s, i + 5, limit, '\''),
    }
}

/// The range of the `name` value in the first `<data ...>` tag of `block`.
pub fn find_data_name(block: &[char]) -> (res: Option<(usize, usize)>)
    ensures
        match res {
            Some((a, b)) => first_data_name(block@, 0) == Some((a as int, b as int)) && a <= b
                <= block@.len(),
            None => first_data_name(block@, 0) is None,
        },
{
    let mut pos: usize = 0;
    while pos < block.len()
        invariant
            first_data_name(block@, 0) == first_data_name(block@, pos as int),
        decreases block@.len() - pos,
    {
        match data_name_exec(block, pos) {
            Some(r) => {
                return Some(r);
            },
            None => {},
        }
        pos += 1;
    }
    None
}

// ---------------------------------------------------------------------
// Indentation: the blanks at the start of the first line that begins with
// `<data\b` after them (case matters here).

/// The end of the run of spaces and tabs that starts at `from`.
pub open spec fn blank_end(s: Seq<char>, from: int) -> int
    decreases s.len() - from,
{
    if from < 0 || from >= s.len() {
        from
    } else if s[from] == ' ' || s[from] == '\t' {
        blank_end(s, from + 1)
    } else {
        from
    }
}

pub proof fn lemma_blank_end_bounds(s: Seq<char>, from: int)
    requires
        0 <= from <= s.len(),
    ensures
        from <= blank_end(s, from) <= s.len(),
    decreases s.len() - from,
{
    if from < s.len() && (s[from] == ' ' || s[from] == '\t') {
        lemma_blank_end_bounds(s, from + 1);
    }
}

/// An indented `<data` line starting at `p`: the end of its indentation.
pub open spec fn indent_at(s: Seq<char>, p: int) -> Option<int> {
    if 0 <= p <= s.len() && (p == 0 || s[p - 1] == '\n') {
        let r = blank_end(s, p);
        if exact_at(s, r, data_open()) && boundary_after(s, r + 5) {
            Some(r)
        } else {
            None
        }
    } else {
        None
    }
}

/// The first indented `<data` line at or after `p`: its start and the end of
/// its indentation.
pub open spec fn first_indent(s: Seq<char>, p: int) -> Option<(int, int)>
    decreases s.len() + 1 - p,
{
    if p < 0 || p > s.len() {
        None
    } else {
        match indent_at(s, p) {
            Some(r) => Some((p, r)),
            None => first_indent(s, p + 1),
        }
    }
}

/// The indentation of the first `<data` line of `s`.
pub open spec fn data_indent_of(s: Seq<char>) -> Option<Seq<char>> {
    match first_indent(s, 0) {
        Some((p, r)) => Some(s.subrange(p, r)),
        None => None,
    }
}

fn indent_check(s: &[char], p: usize) -> (res: Option<usize>)
    requires
        p <= s@.len(),
    ensures
        match res {
            Some(r) => indent_at(s@, p as int) == Some(r as int) && p <= r <= s@.len(),
            None => indent_at(s@, p as int) is None,
        },
{
    if !(p == 0 || s[p - 1] == '\n') {
        return None;
    }
    let open = data_open_lit();
    let mut r = p;
    while r < s.len() && (s[r] == ' ' || s[r] == '\t')
        invariant
            p <= r <= s@.len(),
            blank_end(s@, p as int) == blank_end(s@, r as int),
        decreases s@.len() - r,
    {
        r += 1;
    }
    assert(s@.len() == s.len());
    if exact_match(s, r, &open) && boundary_after_exec(s, r + 5) {
        Some(r)
    } else {
        None
    }
}

pub fn find_data_indent(s: &[char]) -> (res: Option<(usize, usize)>)
    ensures
        match res {
            Some((p, r)) => first_indent(s@, 0) == Some((p as int, r as int)) && p <= r <= s@.len(),
            None => first_indent(s@, 0) is None,
        },
{
    let mut p: usize = 0;
    while p < s.len()
        invariant
            p <= s@.len(),
            first_indent(s@, 0) == first_indent(s@, p as int),
        decreases s@.len() - p,
    {
        match indent_check(s, p) {
            Some(r) => {
                return Some((p, r));
            },
            None => {},
        }
        p += 1;
    }
    match indent_check(s, p) {
        Some(r) => Some((p, r)),
        None => {
            assert(first_indent(s@, p + 1) is None);
            None
        },
    }
}

// ---------------------------------------------------------------------
// Culture suffix of a file name: `.<culture>.resx` at the end, the culture
// being 2 or 3 letters followed by `-` subtags of 2 to 8 letters or digits
// (letters in any case).

pub open spec fn is_ci_letter(c: char) -> bool {
    ('a' <= c && c <= 'z') || ('A' <= c && c <= 'Z') || c == '\u{17f}' || c == '\u{212a}'
}

pub open spec fn is_ci_alnum(c: char) -> bool {
    is_ci_letter(c) || ('0' <= c && c <= '9')
}

fn ci_letter(c: char) -> (res: bool)
    ensures
        res == is_ci_letter(c),
{
    ('a' <= c && c <= 'z') || ('A' <= c && c <= 'Z') || c == '\u{17f}' || c == '\u{212a}'
}

fn ci_alnum(c: char) -> (res: bool)
    ensures
        res == is_ci_alnum(c),
{
    ci_letter(c) || ('0' <= c && c <= '9')
}

/// The end of the run of characters from `from` on that satisfy `letters`
/// (letters only) or else letters and digits.
pub open spec fn run_end(s: Seq<char>, from: int, letters: bool) -> int
    decreases s.len() - from,
{
    if from < 0 || from >= s.len() {
        from
    } else if (if letters {
        is_ci_letter(s[from])
    } else {
        is_ci_alnum(s[from])
    }) {
        run_end(s, from + 1, letters)
    } else {
        from
    }
}

pub proof fn lemma_run_end_bounds(s: Seq<char>, from: int, letters: bool)
    requires
        0 <= from <= s.len(),
    ensures
        from <= run_end(s, from, letters) <= s.len(),
    decreases s.len() - from,
{
    if from < s.len() && (if letters {
        is_ci_letter(s[from])
    } else {
        is_ci_alnum(s[from])
    }) {
        lemma_run_end_bounds(s, from + 1, letters);
    }
}

/// From `i` on (where `g[i]` is `-`), `g` is a run of `-` subtags of 2 to 8
/// letters or digits.
pub open spec fn subtags_ok(g: Seq<char>, i: int) -> bool
    decreases g.len() - i,
{
    if i < 0 || i >= g.len() {
        i == g.len()
    } else if g[i] == '-' {
        let e = run_end(g, i + 1, false);
        proof {
            lemma_run_end_bounds(g, i + 1, false);
        }
        2 <= e - (i + 1) <= 8 && (e == g.len() || (g[e] == '-' && subtags_ok(g, e)))
    } else {
        false
    }
}

/// `g` is a culture name: 2 or 3 letters, then `-` subtags.
pub open spec fn culture_ok(g: Seq<char>) -> bool {
    let e = run_end(g, 0, true);
    2 <= e <= 3 && (e == g.len() || (g[e] == '-' && subtags_ok(g, e)))
}

pub open spec fn resx_suffix() -> Seq<char> {
    seq!['.', 'r', 'e', 's', 'x']
}

/// A culture suffix whose `.` is at `p`: the culture's range.
pub open spec fn culture_at(f: Seq<char>, p: int) -> Option<(int, int)> {
    let n = f.len() as int;
    if 0 <= p && p + 1 <= n - 5 && f[p] == '.' && ci_at(f, n - 5, resx_suffix()) && culture_ok(
        f.subrange(p + 1, n - 5),
    ) {
        Some((p + 1, n - 5))
    } else {
        None
    }
}

/// The culture range of the first culture suffix whose `.` is at or after `p`.
pub open spec fn first_culture(f: Seq<char>, p: int) -> Option<(int, int)>
    decreases f.len() - p,
{
    if p < 0 || p >= f.len() {
        None
    } else {
        match culture_at(f, p) {
            Some(r) => Some(r),
            None => first_culture(f, p + 1),
        }
    }
}

/// The culture that a file name ends with, e.g. `fr` for `Resources.fr.resx`.
pub open spec fn culture_of_name(f: Seq<char>) -> Option<Seq<char>> {
    match first_culture(f, 0) {
        Some((a, b)) => Some(f.subrange(a, b)),
        None => None,
    }
}

fn class_member(c: char, letters: bool) -> (res: bool)
    ensures
        res == (if letters {
            is_ci_letter(c)
        } else {
            is_ci_alnum(c)
        }),
{
    if letters {
        ci_letter(c)
    } else {
        ci_alnum(c)
    }
}

fn run_end_exec(g: &[char], from: usize, letters: bool) -> (res: usize)
    requires
        from <= g@.len(),
    ensures
        res as int == run_end(g@, from as int, letters),
{
    let mut i = from;
    while i < g.len() && class_member(g[i], letters)
        invariant
            from <= i <= g@.len(),
            run_end(g@, from as int, letters) == run_end(g@, i as int, letters),
        decreases g@.len() - i,
    {
        i += 1;
    }
    i
}

fn culture_ok_exec(g: &[char]) -> (res: bool)
    ensures
        res == culture_ok(g@),
{
    let e = run_end_exec(g, 0, true);
    proof {
        lemma_run_end_bounds(g@, 0, true);
    }
    if !(2 <= e && e <= 3) {
        return false;
    }
    if e == g.len() {
        return true;
    }
    if g[e] != '-' {
        return false;
    }
    let mut i = e;
    while i < g.len()
        invariant
            e <= i <= g@.len(),
            2 <= e <= 3,
            g@[e as int] == '-',
            i < g@.len() ==> g@[i as int] == '-',
            culture_ok(g@) == subtags_ok(g@, i as int),
        decreases g@.len() - i,
    {
        let f = run_end_exec(g, i + 1, false);
        proof {
            lemma_run_end_bounds(g@, i + 1, false);
        }
        if !(2 <= f - (i + 1) && f - (i + 1) <= 8) {
            return false;
        }
        if f == g.len() {
            return true;
        }
        if g[f] != '-' {
            return false;
        }
        i = f;
    }
    true
}

/// The culture range of the culture suffix of the file name `f`.
pub fn find_culture(f: &[char]) -> (res: Option<(usize, usize)>)
    ensures
        match res {
            Some((a, b)) => first_culture(f@, 0) == Some((a as int, b as int)) && a <= b <= f@.len(),
            None => first_culture(f@, 0) is None,
        },
{
    let n = f.len();
    if n < 5 {
        proof {
            assert forall|p: int| 0 <= p <= n implies first_culture(f@, p) is None by {
                lemma_no_culture(f@, p);
            }
        }
        return None;
    }
    let suffix: [char; 5] = ['.', 'r', 'e', 's', 'x'];
    assert(suffix@ == resx_suffix());
    let has_suffix = ci_match(f, n - 5, &suffix);
    let mut p: usize = 0;
    while p < n
        invariant
            n == f@.len(),
            n >= 5,
            has_suffix == ci_at(f@, n - 5, resx_suffix()),
            first_culture(f@, 0) == first_culture(f@, p as int),
        decreases n - p,
    {
        if has_suffix && p + 1 <= n - 5 && f[p] == '.' {
            let g = &f[p + 1..n - 5];
            if culture_ok_exec(g) {
                return Some((p + 1, n - 5));
            }
        }
        p += 1;
    }
    None
}

proof fn lemma_no_culture(f: Seq<char>, p: int)
    requires
        f.len() < 5,
    ensures
        first_culture(f, p) is None,
    decreases f.len() - p,
{
    if 0 <= p < f.len() {
        lemma_no_culture(f, p + 1);
    }
}

} // verus!
