//! Setting the same entry a second time changes nothing.

use vstd::prelude::*;
use crate::entities::escaped;
use crate::markup::{
    comment_close, comment_open, boundary_after, data_close, data_open, element_at, first_element, lemma_element_bounds,
    value_close, value_open,
};
use crate::resx::{block_indent_of, comment_upserted, named_block_from, newline_of, update_result, upserted, EntryView};
use crate::markup::{blank_end, data_indent_of, first_indent};
use crate::report::ReportStatus;
use crate::text::{ci_at, ci_char_eq, first_char_from, first_ci_from, fold_char};

verus! {

/// `s` and `t` hold the same characters below `l`.
pub open spec fn agree_below(s: Seq<char>, t: Seq<char>, l: int) -> bool {
    &&& l <= s.len()
    &&& l <= t.len()
    &&& forall|i: int| 0 <= i < l ==> s[i] == t[i]
}

#[verifier::spinoff_prover]
#[verifier::rlimit(60)]
proof fn lemma_ci_at_agree(s: Seq<char>, t: Seq<char>, p: int, lit: Seq<char>, l: int)
    requires
        agree_below(s, t, l),
        0 <= p,
        p + lit.len() <= l,
    ensures
        ci_at(s, p, lit) == ci_at(t, p, lit),
{
    if ci_at(s, p, lit) {
        assert forall|j: int| 0 <= j < lit.len() implies ci_char_eq(t[p + j], #[trigger] lit[j]) by {
            assert(s[p + j] == t[p + j]);
        }
    }
    if ci_at(t, p, lit) {
        assert forall|j: int| 0 <= j < lit.len() implies ci_char_eq(s[p + j], #[trigger] lit[j]) by {
            assert(s[p + j] == t[p + j]);
        }
    }
}

#[verifier::spinoff_prover]
#[verifier::rlimit(60)]
proof fn lemma_first_char_agree(s: Seq<char>, t: Seq<char>, from: int, k: int, l: int)
    requires
        agree_below(s, t, l),
        0 <= from,
        first_char_from(s, from, '>') == Some(k),
        k < l,
    ensures
        first_char_from(t, from, '>') == Some(k),
    decreases k - from,
{
    crate::text::lemma_first_char_from_bounds(s, from, '>');
    if s[from] != '>' {
        lemma_first_char_agree(s, t, from + 1, k, l);
    }
}

#[verifier::spinoff_prover]
#[verifier::rlimit(60)]
proof fn lemma_first_ci_agree(s: Seq<char>, t: Seq<char>, from: int, lit: Seq<char>, k: int, l: int)
    requires
        agree_below(s, t, l),
        0 <= from,
        first_ci_from(s, from, lit) == Some(k),
        k + lit.len() <= l,
        lit.len() > 0,
    ensures
        first_ci_from(t, from, lit) == Some(k),
    decreases k - from,
{
    crate::text::lemma_first_ci_from_bounds(s, from, lit);
    lemma_ci_at_agree(s, t, from, lit, l);
    if !ci_at(s, from, lit) {
        lemma_first_ci_agree(s, t, from + 1, lit, k, l);
    }
}

#[verifier::spinoff_prover]
#[verifier::rlimit(60)]
proof fn lemma_first_ci_before(s: Seq<char>, from: int, lit: Seq<char>, k: int, p: int)
    requires
        0 <= from <= p < k,
        first_ci_from(s, from, lit) == Some(k),
    ensures
        !ci_at(s, p, lit),
    decreases p - from,
{
    if from < p {
        if ci_at(s, from, lit) {
            assert(false);
        }
        lemma_first_ci_before(s, from + 1, lit, k, p);
    }
}

#[verifier::spinoff_prover]
#[verifier::rlimit(60)]
proof fn lemma_first_ci_found(s: Seq<char>, from: int, lit: Seq<char>, k: int)
    requires
        0 <= from <= k,
        ci_at(s, k, lit),
        lit.len() > 0,
        forall|i: int| from <= i < k ==> !ci_at(s, i, lit),
    ensures
        first_ci_from(s, from, lit) == Some(k),
    decreases k - from,
{
    if from < k {
        lemma_first_ci_found(s, from + 1, lit, k);
    }
}

#[verifier::spinoff_prover]
#[verifier::rlimit(60)]
proof fn lemma_first_char_upto(s: Seq<char>, from: int, k: int)
    requires
        0 <= from <= k < s.len(),
        s[k] == '>',
    ensures
        first_char_from(s, from, '>') matches Some(j) && from <= j <= k,
    decreases k - from,
{
    if s[from] != '>' {
        lemma_first_char_upto(s, from + 1, k);
    }
}

#[verifier::spinoff_prover]
#[verifier::rlimit(60)]
proof fn lemma_first_ci_exists(s: Seq<char>, from: int, lit: Seq<char>, k: int)
    requires
        0 <= from <= k,
        ci_at(s, k, lit),
        lit.len() > 0,
    ensures
        first_ci_from(s, from, lit) is Some,
    decreases k - from,
{
    if from < k && !ci_at(s, from, lit) {
        lemma_first_ci_exists(s, from + 1, lit, k);
    }
}

#[verifier::spinoff_prover]
#[verifier::rlimit(60)]
proof fn lemma_named_block_at_least(s: Seq<char>, pos: int, name: Seq<char>)
    ensures
        named_block_from(s, pos, name) matches Some((a, b, n)) ==> pos <= a,
    decreases s.len() - pos,
{
    if 0 <= pos < s.len() {
        match element_at(s, pos, data_open(), data_close()) {
            Some((g, c)) => {
                lemma_element_bounds(s, pos, data_open(), data_close());
                lemma_named_block_at_least(s, c + 7, name);
            },
            None => {
                lemma_named_block_at_least(s, pos + 1, name);
            },
        }
    }
}

/// The text `s` with `s[a..b]` replaced by `esc`.
pub open spec fn spliced(s: Seq<char>, a: int, b: int, esc: Seq<char>) -> Seq<char> {
    s.subrange(0, a) + esc + s.subrange(b, s.len() as int)
}

/// No `</d` (the start of `</data>`, in any case) begins at `esc[i]`.
pub open spec fn opens_no_close(esc: Seq<char>, i: int) -> bool {
    ||| esc[i] != '<'
    ||| (i + 1 < esc.len() && esc[i + 1] != '/')
    ||| (i + 2 < esc.len() && esc[i + 2] != 'd' && esc[i + 2] != 'D')
}

/// The situation of a `<data>` block at `st` (its `>` at `g`, its
/// `</data>` at `c`) whose text `s[a..b]`, right after a `>`, is replaced
/// by a text in which no `</data>` begins.
pub open spec fn splice_in_block(s: Seq<char>, st: int, g: int, c: int, a: int, b: int, esc: Seq<char>) -> bool {
    &&& 0 <= st
    &&& st + 5 <= g < a <= b <= c
    &&& c + 7 <= s.len()
    &&& s[a - 1] == '>'
    &&& element_at(s, st, data_open(), data_close()) == Some((g, c))
    &&& forall|i: int| 0 <= i < esc.len() ==> #[trigger] opens_no_close(esc, i)
}

#[verifier::spinoff_prover]
#[verifier::rlimit(60)]
proof fn lemma_not_open_angle(x: char)
    requires
        x != '<',
    ensures
        !ci_char_eq(x, '<'),
{
}

/// In the spliced text the block at `st` still ends at its `</data>`,
/// moved by the change of length.
#[verifier::spinoff_prover]
#[verifier::rlimit(60)]
proof fn lemma_block_moved(s: Seq<char>, st: int, g: int, c: int, a: int, b: int, esc: Seq<char>)
    requires
        splice_in_block(s, st, g, c, a, b, esc),
    ensures
        element_at(spliced(s, a, b, esc), st, data_open(), data_close()) == Some(
            (g, c + esc.len() - (b - a)),
        ),
{
    let t = spliced(s, a, b, esc);
    let d = esc.len() - (b - a);
    let dc = data_close();
    let dopen = data_open();
    assert(agree_below(s, t, a));
    lemma_ci_at_agree(s, t, st, dopen, a);
    assert(s[st + 5] == t[st + 5]);
    assert(boundary_after(s, st + 5) == boundary_after(t, st + 5));
    lemma_element_bounds(s, st, dopen, dc);
    lemma_first_char_agree(s, t, st + 5, g, a);
    assert(forall|q: int| b <= q < s.len() ==> #[trigger] t[q + d] == s[q]);
    assert(forall|q: int| a <= q < a + esc.len() ==> #[trigger] t[q] == esc[q - a]);
    assert(t.len() == s.len() + d);
    assert(ci_at(t, c + d, dc)) by {
        assert forall|j: int| 0 <= j < dc.len() implies ci_char_eq(t[c + d + j], #[trigger] dc[j]) by {
            assert(t[(c + j) + d] == s[c + j]);
        }
    }
    assert forall|p: int| g + 1 <= p < c + d implies !ci_at(t, p, dc) by {
        if p + 7 <= a {
            lemma_ci_at_agree(s, t, p, dc, a);
            lemma_first_ci_before(s, g + 1, dc, c, p);
        } else if p < a {
            let j = a - 1 - p;
            assert(0 <= j < 6);
            assert(t[p + j] == '>');
            assert(!ci_char_eq(t[p + j], dc[j]));
        } else if p < a + esc.len() {
            let i = p - a;
            assert(opens_no_close(esc, i));
            assert(t[p + 0] == esc[i]);
            if esc[i] != '<' {
                lemma_not_open_angle(t[p + 0]);
                assert(!ci_char_eq(t[p + 0], dc[0]));
            } else if i + 1 < esc.len() && esc[i + 1] != '/' {
                assert(t[p + 1] == esc[i + 1]);
                assert(!ci_char_eq(t[p + 1], dc[1]));
            } else {
                assert(t[p + 2] == esc[i + 2]);
                assert(!ci_char_eq(t[p + 2], dc[2]));
            }
        } else {
            let q = p - d;
            assert(b <= q < c);
            lemma_first_ci_before(s, g + 1, dc, c, q);
            if ci_at(t, p, dc) {
                assert forall|j: int| 0 <= j < dc.len() implies ci_char_eq(s[q + j], #[trigger] dc[j]) by {
                    assert(t[(q + j) + d] == s[q + j]);
                }
                assert(ci_at(s, q, dc));
            }
        }
    }
    lemma_first_ci_found(t, g + 1, dc, c + d);
}

/// The first block named `name` found from `pos` on is still found, at the
/// same place, after a splice inside it.
#[verifier::spinoff_prover]
#[verifier::rlimit(60)]
proof fn lemma_named_block_moved(
    s: Seq<char>,
    st: int,
    g: int,
    c: int,
    a: int,
    b: int,
    esc: Seq<char>,
    name: Seq<char>,
    n: Seq<char>,
    pos: int,
)
    requires
        splice_in_block(s, st, g, c, a, b, esc),
        0 <= pos <= st,
        named_block_from(s, pos, name) == Some((st, c + 7, n)),
    ensures
        named_block_from(spliced(s, a, b, esc), pos, name) == Some(
            (st, c + 7 + esc.len() - (b - a), n),
        ),
    decreases st - pos,
{
    let t = spliced(s, a, b, esc);
    let dopen = data_open();
    let dc = data_close();
    assert(agree_below(s, t, a));
    lemma_element_bounds(s, st, dopen, dc);
    if pos == st {
        lemma_named_block_at_least(s, c + 7, name);
        lemma_block_moved(s, st, g, c, a, b, esc);
        assert(t.subrange(st + 5, g) =~= s.subrange(st + 5, g));

    } else {
        match element_at(s, pos, dopen, dc) {
            Some((g2, c2)) => {
                lemma_element_bounds(s, pos, dopen, dc);
                lemma_named_block_at_least(s, c2 + 7, name);
                assert(c2 + 7 <= st);
                lemma_ci_at_agree(s, t, pos, dopen, a);
                assert(s[pos + 5] == t[pos + 5]);
                crate::text::lemma_first_char_from_bounds(s, pos + 5, '>');
                lemma_first_char_agree(s, t, pos + 5, g2, a);
                lemma_first_ci_agree(s, t, g2 + 1, dc, c2, a);
                assert(element_at(t, pos, dopen, dc) == Some((g2, c2)));
                assert(t.subrange(pos + 5, g2) =~= s.subrange(pos + 5, g2));
                lemma_named_block_moved(s, st, g, c, a, b, esc, name, n, c2 + 7);
            },
            None => {
                lemma_ci_at_agree(s, t, pos, dopen, a);
                assert(s[pos + 5] == t[pos + 5]);
                if ci_at(s, pos, dopen) && boundary_after(s, pos + 5) {
                    lemma_first_char_upto(s, pos + 5, g);
                    let g2 = first_char_from(s, pos + 5, '>')->0;
                    lemma_first_ci_exists(s, g2 + 1, dc, c);
                    assert(false);
                }
                assert(element_at(t, pos, dopen, dc) is None);
                lemma_named_block_moved(s, st, g, c, a, b, esc, name, n, pos + 1);
            },
        }
    }
}

#[verifier::spinoff_prover]
#[verifier::rlimit(60)]
proof fn lemma_named_block_found(s: Seq<char>, pos: int, name: Seq<char>)
    ensures
        named_block_from(s, pos, name) matches Some((a, b, n)) ==> (element_at(
            s,
            a,
            data_open(),
            data_close(),
        ) matches Some((g, c)) && b == c + 7 && n == name),
    decreases s.len() - pos,
{
    if 0 <= pos < s.len() {
        match element_at(s, pos, data_open(), data_close()) {
            Some((g, c)) => {
                lemma_element_bounds(s, pos, data_open(), data_close());
                lemma_named_block_found(s, c + 7, name);
            },
            None => {
                lemma_named_block_found(s, pos + 1, name);
            },
        }
    }
}

#[verifier::spinoff_prover]
#[verifier::rlimit(60)]
proof fn lemma_first_value_witness(s: Seq<char>, pos: int) -> (p: int)
    requires
        0 <= pos,
        first_element(s, pos, value_open(), value_close()) is Some,
    ensures
        pos <= p < s.len(),
        element_at(s, p, value_open(), value_close()) matches Some((g, c)) && first_element(
            s,
            pos,
            value_open(),
            value_close(),
        ) == Some((g + 1, c)),
    decreases s.len() - pos,
{
    if element_at(s, pos, value_open(), value_close()) is Some {
        pos
    } else {
        lemma_first_value_witness(s, pos + 1)
    }
}

#[verifier::spinoff_prover]
#[verifier::rlimit(60)]
proof fn lemma_first_update(
    path: Seq<char>,
    culture: Option<Seq<char>>,
    encoding_name: Seq<char>,
    content: Seq<char>,
    e: EntryView,
    st: int,
    en: int,
    n: Seq<char>,
) -> (r: (int, int, int, int))
    requires
        e.comment is None,
        named_block_from(content, 0, e.name) == Some((st, en, n)),
        update_result(path, culture, encoding_name, content, e, st, en, n) is Ok,
    ensures
        en == r.1 + 7,
        splice_in_block(content, st, r.0, r.1, st + r.2, st + r.3, escaped(e.value)),
        first_element(content.subrange(st, en), 0, value_open(), value_close()) == Some((r.2, r.3)),
        update_result(path, culture, encoding_name, content, e, st, en, n)->Ok_0.0 == spliced(
            content,
            st + r.2,
            st + r.3,
            escaped(e.value),
        ),
{
    lemma_named_block_found(content, 0, e.name);
    lemma_named_block_at_least(content, 0, e.name);
    let (gb, cb) = element_at(content, st, data_open(), data_close())->0;
    lemma_element_bounds(content, st, data_open(), data_close());
    let block = content.subrange(st, en);
    let (a, b) = first_element(block, 0, value_open(), value_close())->0;
    let pv = lemma_first_value_witness(block, 0);
    lemma_element_bounds(block, pv, value_open(), value_close());
    assert(content[st + (a - 1)] == '>');
    lemma_first_char_upto(content, st + 5, st + a - 1);
    let esc = escaped(e.value);
    crate::laws::law_escaped_has_no_markup(e.value);
    assert forall|i: int| 0 <= i < esc.len() implies esc[i] != '<' by {
        assert(esc[i] != '<');
    }
    let first = update_result(path, culture, encoding_name, content, e, st, en, n)->Ok_0.0;
    assert(first =~= spliced(content, st + a, st + b, esc));
    (gb, cb, a, b)
}

#[verifier::spinoff_prover]
#[verifier::rlimit(60)]
proof fn lemma_second_update(
    path: Seq<char>,
    culture: Option<Seq<char>>,
    encoding_name: Seq<char>,
    first: Seq<char>,
    block: Seq<char>,
    e: EntryView,
    st: int,
    a: int,
    b: int,
    n: Seq<char>,
)
    requires
        e.comment is None,
        first_element(block, 0, value_open(), value_close()) == Some((a, b)),
        0 <= st,
        st + block.len() - (b - a) + escaped(e.value).len() <= first.len(),
        first.subrange(st, st + block.len() - (b - a) + escaped(e.value).len()) == block.subrange(0, a)
            + escaped(e.value) + block.subrange(b, block.len() as int),
    ensures
        update_result(
            path,
            culture,
            encoding_name,
            first,
            e,
            st,
            st + block.len() - (b - a) + escaped(e.value).len(),
            n,
        ) matches Ok((again, row, changed)) && again == first && !changed && row.status
            == ReportStatus::Unchanged,
{
    let esc = escaped(e.value);
    let en2 = st + block.len() - (b - a) + esc.len();
    let nb = block.subrange(0, a) + esc + block.subrange(b, block.len() as int);
    crate::laws::law_set_value_reads_back(block, e.value);
    let pv = lemma_first_value_witness(block, 0);
    lemma_element_bounds(block, pv, value_open(), value_close());
    let replaced = nb.subrange(0, a) + esc + nb.subrange(a + esc.len(), nb.len() as int);
    assert(replaced =~= nb);
    assert(first.subrange(0, st) + replaced + first.subrange(en2, first.len() as int) =~= first);
}

/// A tag pair that the element grammar can be given: both start with `<`,
/// and no character but the last of the closing tag is `>`.
pub open spec fn tags_ok(open: Seq<char>, close: Seq<char>) -> bool {
    &&& open.len() >= 1
    &&& open[0] == '<'
    &&& forall|j: int| 0 <= j < open.len() ==> open[j] != '>'
    &&& close.len() >= 1
    &&& close[0] == '<'
    &&& forall|j: int| 0 <= j < close.len() - 1 ==> close[j] != '>'
}

#[verifier::spinoff_prover]
#[verifier::rlimit(60)]
proof fn lemma_not_gt(x: char)
    requires
        x != '>',
    ensures
        !ci_char_eq('>', x),
{
}

/// `t[i + d] == s[i]` from `b` on.
pub open spec fn shifted_from(s: Seq<char>, t: Seq<char>, b: int, d: int) -> bool {
    &&& 0 <= b <= s.len()
    &&& 0 <= b + d
    &&& t.len() == s.len() + d
    &&& forall|i: int| b <= i < s.len() ==> #[trigger] t[i + d] == s[i]
}

#[verifier::spinoff_prover]
#[verifier::rlimit(60)]
proof fn lemma_ci_at_shift(s: Seq<char>, t: Seq<char>, b: int, d: int, p: int, lit: Seq<char>)
    requires
        shifted_from(s, t, b, d),
        b <= p,
    ensures
        ci_at(t, p + d, lit) == ci_at(s, p, lit),
{
    if ci_at(s, p, lit) {
        assert forall|j: int| 0 <= j < lit.len() implies ci_char_eq(t[p + d + j], #[trigger] lit[j]) by {
            assert(t[(p + j) + d] == s[p + j]);
        }
    }
    if ci_at(t, p + d, lit) {
        assert forall|j: int| 0 <= j < lit.len() implies ci_char_eq(s[p + j], #[trigger] lit[j]) by {
            assert(t[(p + j) + d] == s[p + j]);
        }
    }
}

#[verifier::spinoff_prover]
#[verifier::rlimit(60)]
proof fn lemma_first_char_shift(s: Seq<char>, t: Seq<char>, b: int, d: int, f: int)
    requires
        shifted_from(s, t, b, d),
        b <= f,
    ensures
        first_char_from(t, f + d, '>') == (match first_char_from(s, f, '>') {
            Some(k) => Some(k + d),
            None => None,
        }),
    decreases s.len() - f,
{
    if f < s.len() {
        assert(t[f + d] == s[f]);
        if s[f] != '>' {
            lemma_first_char_shift(s, t, b, d, f + 1);
        }
    }
}

#[verifier::spinoff_prover]
#[verifier::rlimit(60)]
proof fn lemma_first_ci_shift(s: Seq<char>, t: Seq<char>, b: int, d: int, f: int, lit: Seq<char>)
    requires
        shifted_from(s, t, b, d),
        b <= f,
    ensures
        first_ci_from(t, f + d, lit) == (match first_ci_from(s, f, lit) {
            Some(k) => Some(k + d),
            None => None,
        }),
    decreases s.len() - f,
{
    if f < s.len() {
        lemma_ci_at_shift(s, t, b, d, f, lit);
        if !ci_at(s, f, lit) {
            lemma_first_ci_shift(s, t, b, d, f + 1, lit);
        }
    }
}

#[verifier::spinoff_prover]
#[verifier::rlimit(60)]
proof fn lemma_element_shift(
    s: Seq<char>,
    t: Seq<char>,
    b: int,
    d: int,
    q: int,
    open: Seq<char>,
    close: Seq<char>,
)
    requires
        shifted_from(s, t, b, d),
        b <= q,
    ensures
        element_at(t, q + d, open, close) == (match element_at(s, q, open, close) {
            Some((g, c)) => Some((g + d, c + d)),
            None => None,
        }),
{
    lemma_ci_at_shift(s, t, b, d, q, open);
    let j = q + open.len();
    if j < s.len() {
        assert(t[j + d] == s[j]);
    }
    assert(boundary_after(t, j + d) == boundary_after(s, j));
    lemma_first_char_shift(s, t, b, d, j);
    match first_char_from(s, j, '>') {
        Some(g) => {
            crate::text::lemma_first_char_from_bounds(s, j, '>');
            lemma_first_ci_shift(s, t, b, d, g + 1, close);
        },
        None => {},
    }
}

/// Where an element starts at `p`, no earlier position at or after `pos`
/// (with no element) even has the opening tag.
#[verifier::spinoff_prover]
#[verifier::rlimit(60)]
proof fn lemma_open_fails_before(s: Seq<char>, q: int, p: int, open: Seq<char>, close: Seq<char>)
    requires
        0 <= q < p,
        tags_ok(open, close),
        element_at(s, q, open, close) is None,
        element_at(s, p, open, close) is Some,
    ensures
        !(ci_at(s, q, open) && boundary_after(s, q + open.len())),
{
    lemma_element_bounds(s, p, open, close);
    let (g, c) = element_at(s, p, open, close)->0;
    if ci_at(s, q, open) && boundary_after(s, q + open.len()) {
        lemma_first_char_upto(s, q + open.len(), g);
        let g2 = first_char_from(s, q + open.len(), '>')->0;
        lemma_first_ci_exists(s, g2 + 1, close, c);
        assert(false);
    }
}

#[verifier::spinoff_prover]
#[verifier::rlimit(60)]
proof fn lemma_first_element_witness(s: Seq<char>, pos: int, open: Seq<char>, close: Seq<char>) -> (p: int)
    requires
        0 <= pos,
        first_element(s, pos, open, close) is Some,
    ensures
        pos <= p < s.len(),
        element_at(s, p, open, close) matches Some((g, c)) && first_element(s, pos, open, close)
            == Some((g + 1, c)),
        forall|q: int| pos <= q < p ==> element_at(s, q, open, close) is None,
    decreases s.len() - pos,
{
    if element_at(s, pos, open, close) is Some {
        pos
    } else {
        lemma_first_element_witness(s, pos + 1, open, close)
    }
}

#[verifier::spinoff_prover]
#[verifier::rlimit(60)]
proof fn lemma_first_element_at(s: Seq<char>, pos: int, p: int, open: Seq<char>, close: Seq<char>)
    requires
        0 <= pos <= p < s.len(),
        element_at(s, p, open, close) is Some,
        forall|q: int| pos <= q < p ==> element_at(s, q, open, close) is None,
    ensures
        first_element(s, pos, open, close) == Some(
            (
                (element_at(s, p, open, close)->0).0 + 1,
                (element_at(s, p, open, close)->0).1,
            ),
        ),
    decreases p - pos,
{
    if pos < p {
        lemma_first_element_at(s, pos + 1, p, open, close);
    }
}

/// An element whose closing tag ends below `l` is found the same in a text
/// that agrees below `l`.
#[verifier::spinoff_prover]
#[verifier::rlimit(60)]
proof fn lemma_element_agree(s: Seq<char>, t: Seq<char>, q: int, open: Seq<char>, close: Seq<char>, l: int)
    requires
        agree_below(s, t, l),
        tags_ok(open, close),
        element_at(s, q, open, close) matches Some((g, c)) && c + close.len() <= l,
    ensures
        element_at(t, q, open, close) == element_at(s, q, open, close),
{
    lemma_element_bounds(s, q, open, close);
    let (g, c) = element_at(s, q, open, close)->0;
    lemma_ci_at_agree(s, t, q, open, l);
    assert(s[q + open.len()] == t[q + open.len()]);
    lemma_first_char_agree(s, t, q + open.len(), g, l);
    lemma_first_ci_agree(s, t, g + 1, close, c, l);
}

/// The first element is found the same in a text that agrees with `s`
/// below the end of its closing tag.
#[verifier::spinoff_prover]
#[verifier::rlimit(60)]
proof fn lemma_first_element_agree(s: Seq<char>, t: Seq<char>, open: Seq<char>, close: Seq<char>, l: int)
    requires
        agree_below(s, t, l),
        tags_ok(open, close),
        first_element(s, 0, open, close) matches Some((x, c)) && c + close.len() <= l,
    ensures
        first_element(t, 0, open, close) == first_element(s, 0, open, close),
{
    let p = lemma_first_element_witness(s, 0, open, close);
    lemma_element_bounds(s, p, open, close);
    lemma_element_agree(s, t, p, open, close, l);
    assert forall|q: int| 0 <= q < p implies element_at(t, q, open, close) is None by {
        lemma_open_fails_before(s, q, p, open, close);
        lemma_ci_at_agree(s, t, q, open, l);
        assert(s[q + open.len()] == t[q + open.len()]);
    }
    lemma_first_element_at(t, 0, p, open, close);
}

/// Splicing the text of an element (from right after a `>` inside it)
/// keeps the element, its closing tag moved.
#[verifier::spinoff_prover]
#[verifier::rlimit(60)]
proof fn lemma_element_spliced(
    s: Seq<char>,
    q: int,
    a: int,
    b: int,
    esc: Seq<char>,
    open: Seq<char>,
    close: Seq<char>,
)
    requires
        tags_ok(open, close),
        element_at(s, q, open, close) matches Some((g, c)) && g < a <= b <= c,
        s[a - 1] == '>',
        forall|i: int| 0 <= i < esc.len() ==> esc[i] != '<',
    ensures
        element_at(spliced(s, a, b, esc), q, open, close) == (match element_at(s, q, open, close) {
            Some((g, c)) => Some((g, c + esc.len() - (b - a))),
            None => None,
        }),
{
    lemma_element_bounds(s, q, open, close);
    let (g, c) = element_at(s, q, open, close)->0;
    let t = spliced(s, a, b, esc);
    let d = esc.len() - (b - a);
    assert(agree_below(s, t, a));
    lemma_ci_at_agree(s, t, q, open, a);
    assert(s[q + open.len()] == t[q + open.len()]);
    lemma_first_char_agree(s, t, q + open.len(), g, a);
    assert(shifted_from(s, t, b, d));
    assert(forall|i: int| a <= i < a + esc.len() ==> #[trigger] t[i] == esc[i - a]);
    lemma_ci_at_shift(s, t, b, d, c, close);
    assert forall|p: int| g + 1 <= p < c + d implies !ci_at(t, p, close) by {
        if p + close.len() <= a {
            lemma_ci_at_agree(s, t, p, close, a);
            lemma_first_ci_before(s, g + 1, close, c, p);
        } else if p < a {
            let j = a - 1 - p;
            assert(t[p + j] == '>');
            assert(close[j] != '>');
            lemma_not_gt(close[j]);
        } else if p < a + esc.len() {
            assert(t[p + 0] == esc[p - a]);
            lemma_not_open_angle(t[p + 0]);
        } else {
            lemma_ci_at_shift(s, t, b, d, p - d, close);
            lemma_first_ci_before(s, g + 1, close, c, p - d);
        }
    }
    lemma_first_ci_found(t, g + 1, close, c + d);
}

/// Splicing the text of the first element gives the first element holding
/// exactly the new text.
#[verifier::spinoff_prover]
#[verifier::rlimit(60)]
proof fn lemma_first_element_own_splice(s: Seq<char>, esc: Seq<char>, open: Seq<char>, close: Seq<char>)
    requires
        tags_ok(open, close),
        first_element(s, 0, open, close) is Some,
        forall|i: int| 0 <= i < esc.len() ==> esc[i] != '<',
    ensures
        ({
            let (x, y) = first_element(s, 0, open, close)->0;
            first_element(spliced(s, x, y, esc), 0, open, close) == Some((x, x + esc.len()))
        }),
{
    let p = lemma_first_element_witness(s, 0, open, close);
    lemma_element_bounds(s, p, open, close);
    let (g, c) = element_at(s, p, open, close)->0;
    let t = spliced(s, g + 1, c, esc);
    lemma_element_spliced(s, p, g + 1, c, esc, open, close);
    assert(agree_below(s, t, g + 1));
    assert forall|q: int| 0 <= q < p implies element_at(t, q, open, close) is None by {
        lemma_open_fails_before(s, q, p, open, close);
        lemma_ci_at_agree(s, t, q, open, g + 1);
        assert(s[q + open.len()] == t[q + open.len()]);
    }
    lemma_first_element_at(t, 0, p, open, close);
}

/// Splicing text before every element of a kind moves the first one by the
/// change of length.
#[verifier::spinoff_prover]
#[verifier::rlimit(60)]
proof fn lemma_first_element_after_splice(
    s: Seq<char>,
    a: int,
    b: int,
    esc: Seq<char>,
    open: Seq<char>,
    close: Seq<char>,
)
    requires
        tags_ok(open, close),
        0 < a <= b <= s.len(),
        s[a - 1] == '>',
        forall|i: int| 0 <= i < esc.len() ==> esc[i] != '<',
        first_element(s, 0, open, close) is Some,
        forall|q: int| 0 <= q < b ==> element_at(s, q, open, close) is None,
    ensures
        ({
            let (x, y) = first_element(s, 0, open, close)->0;
            let d = esc.len() - (b - a);
            first_element(spliced(s, a, b, esc), 0, open, close) == Some((x + d, y + d))
        }),
{
    let p = lemma_first_element_witness(s, 0, open, close);
    lemma_element_bounds(s, p, open, close);
    let (g, c) = element_at(s, p, open, close)->0;
    let t = spliced(s, a, b, esc);
    let d = esc.len() - (b - a);
    assert(agree_below(s, t, a));
    assert(shifted_from(s, t, b, d));
    assert(forall|i: int| a <= i < a + esc.len() ==> #[trigger] t[i] == esc[i - a]);
    assert(p >= b);
    lemma_element_shift(s, t, b, d, p, open, close);
    assert forall|q: int| 0 <= q < p + d implies element_at(t, q, open, close) is None by {
        if q + open.len() < a {
            lemma_open_fails_before(s, q, p, open, close);
            lemma_ci_at_agree(s, t, q, open, a);
            assert(s[q + open.len()] == t[q + open.len()]);
        } else if q < a {
            let j = a - 1 - q;
            assert(t[q + j] == '>');
            assert(open[j] != '>');
            lemma_not_gt(open[j]);
        } else if q < a + esc.len() {
            assert(t[q + 0] == esc[q - a]);
            lemma_not_open_angle(t[q + 0]);
        } else {
            lemma_element_shift(s, t, b, d, q - d, open, close);
        }
    }
    lemma_first_element_at(t, 0, p + d, open, close);
}

#[verifier::spinoff_prover]
#[verifier::rlimit(60)]
proof fn lemma_tags_ok()
    ensures
        tags_ok(value_open(), value_close()),
        tags_ok(comment_open(), comment_close()),
{
    assert(tags_ok(value_open(), value_close()));
    assert(tags_ok(comment_open(), comment_close()));
}

#[verifier::spinoff_prover]
#[verifier::rlimit(60)]
proof fn lemma_escaped_no_open(v: Seq<char>)
    ensures
        forall|i: int| 0 <= i < escaped(v).len() ==> escaped(v)[i] != '<',
{
    crate::laws::law_escaped_has_no_markup(v);
    assert forall|i: int| 0 <= i < escaped(v).len() implies escaped(v)[i] != '<' by {
        assert(escaped(v)[i] != '<');
    }
}

#[verifier::spinoff_prover]
#[verifier::rlimit(60)]
proof fn lemma_block_comment_facts(block: Seq<char>, v: Seq<char>, cm: Seq<char>) -> (r: (int, int, int, int))
    requires
        first_element(block, 0, value_open(), value_close()) is Some,
        first_element(block, 0, comment_open(), comment_close()) is Some,
        forall|q: int|
            0 <= q < (first_element(block, 0, value_open(), value_close())->0).1 + 8 ==> element_at(
                block,
                q,
                comment_open(),
                comment_close(),
            ) is None,
    ensures
        ({
            let (a, b, x, y) = r;
            let esc = escaped(v);
            let d = esc.len() - (b - a);
            let nb = spliced(block, a, b, esc);
            &&& first_element(block, 0, value_open(), value_close()) == Some((a, b))
            &&& first_element(block, 0, comment_open(), comment_close()) == Some((x, y))
            &&& 6 < a <= b
            &&& b + 8 < x <= y
            &&& y + 10 <= block.len()
            &&& block[a - 1] == '>'
            &&& block[x - 1] == '>'
            &&& first_element(nb, 0, comment_open(), comment_close()) == Some((x + d, y + d))
            &&& first_element(nb, 0, value_open(), value_close()) == Some((a, a + esc.len()))
        }),
{
    lemma_tags_ok();
    let (a, b) = first_element(block, 0, value_open(), value_close())->0;
    let pv = lemma_first_value_witness(block, 0);
    lemma_element_bounds(block, pv, value_open(), value_close());
    let esc = escaped(v);
    lemma_escaped_no_open(v);
    let (x, y) = first_element(block, 0, comment_open(), comment_close())->0;
    let pc = lemma_first_element_witness(block, 0, comment_open(), comment_close());
    lemma_element_bounds(block, pc, comment_open(), comment_close());
    assert(pc >= b + 8);
    lemma_first_element_after_splice(block, a, b, esc, comment_open(), comment_close());
    lemma_first_element_own_splice(block, esc, value_open(), value_close());
    (a, b, x, y)
}

#[verifier::spinoff_prover]
#[verifier::rlimit(60)]
proof fn lemma_update_result_comment(
    path: Seq<char>,
    culture: Option<Seq<char>>,
    encoding_name: Seq<char>,
    content: Seq<char>,
    e: EntryView,
    st: int,
    en: int,
    n: Seq<char>,
    a: int,
    b: int,
    x: int,
    y: int,
)
    requires
        e.comment is Some,
        0 <= st <= en <= content.len(),
        first_element(content.subrange(st, en), 0, value_open(), value_close()) == Some((a, b)),
        0 <= a <= b <= en - st,
        first_element(
            spliced(content.subrange(st, en), a, b, escaped(e.value)),
            0,
            comment_open(),
            comment_close(),
        ) == Some((x, y)),
    ensures
        update_result(path, culture, encoding_name, content, e, st, en, n) is Ok,
        update_result(path, culture, encoding_name, content, e, st, en, n)->Ok_0.0 == content.subrange(
            0,
            st,
        ) + spliced(spliced(content.subrange(st, en), a, b, escaped(e.value)), x, y, escaped(e.comment->0))
            + content.subrange(en, content.len() as int),
{
}

/// The block after an update whose entry has a comment, when the block's
/// first `<comment>` element comes after its `<value>` element: the value
/// text and then the comment text are spliced.
#[verifier::spinoff_prover]
#[verifier::rlimit(60)]
proof fn lemma_first_update_comment(
    path: Seq<char>,
    culture: Option<Seq<char>>,
    encoding_name: Seq<char>,
    content: Seq<char>,
    e: EntryView,
    st: int,
    en: int,
    n: Seq<char>,
) -> (r: (int, int, int, int, int, int))
    requires
        e.comment is Some,
        named_block_from(content, 0, e.name) == Some((st, en, n)),
        update_result(path, culture, encoding_name, content, e, st, en, n) is Ok,
        ({
            let block = content.subrange(st, en);
            let b = (first_element(block, 0, value_open(), value_close())->0).1;
            &&& first_element(block, 0, comment_open(), comment_close()) is Some
            &&& forall|q: int| 0 <= q < b + 8 ==> element_at(block, q, comment_open(), comment_close()) is None
        }),
    ensures
        ({
            let (gb, cb, a, b, x, y) = r;
            let esc = escaped(e.value);
            let escc = escaped(e.comment->0);
            let d = esc.len() - (b - a);
            let block = content.subrange(st, en);
            let nb = spliced(block, a, b, esc);
            &&& en == cb + 7
            &&& first_element(nb, 0, comment_open(), comment_close()) == Some((x + d, y + d))
            &&& first_element(nb, 0, value_open(), value_close()) == Some((a, a + esc.len()))
            &&& a + esc.len() + 8 <= x + d
            &&& splice_in_block(content, st, gb, cb, st + a, st + b, esc)
            &&& splice_in_block(
                spliced(content, st + a, st + b, esc),
                st,
                gb,
                cb + d,
                st + x + d,
                st + y + d,
                escc,
            )
            &&& update_result(path, culture, encoding_name, content, e, st, en, n)->Ok_0.0 == spliced(
                spliced(content, st + a, st + b, esc),
                st + x + d,
                st + y + d,
                escc,
            )
        }),
{
    lemma_named_block_found(content, 0, e.name);
    lemma_named_block_at_least(content, 0, e.name);
    let (gb, cb) = element_at(content, st, data_open(), data_close())->0;
    lemma_element_bounds(content, st, data_open(), data_close());
    let block = content.subrange(st, en);
    let r4 = lemma_block_comment_facts(block, e.value, e.comment->0);
    let (a, b, x, y) = r4;
    assert(content[st + (a - 1)] == block[a - 1]);
    lemma_first_char_upto(content, st + 5, st + a - 1);
    let esc = escaped(e.value);
    let escc = escaped(e.comment->0);
    lemma_escaped_no_open(e.value);
    lemma_escaped_no_open(e.comment->0);
    let d = esc.len() - (b - a);
    assert(splice_in_block(content, st, gb, cb, st + a, st + b, esc));
    let mid = spliced(content, st + a, st + b, esc);
    lemma_block_moved(content, st, gb, cb, st + a, st + b, esc);
    assert(mid[st + x + d - 1] == block[x - 1]);
    assert(splice_in_block(mid, st, gb, cb + d, st + x + d, st + y + d, escc));
    lemma_update_result_comment(path, culture, encoding_name, content, e, st, en, n, a, b, x + d, y + d);
    let nb = spliced(block, a, b, esc);
    assert(content.subrange(0, st) + spliced(nb, x + d, y + d, escc) + content.subrange(
        en,
        content.len() as int,
    ) =~= spliced(mid, st + x + d, st + y + d, escc));
    (gb, cb, a, b, x, y)
}

#[verifier::spinoff_prover]
#[verifier::rlimit(60)]
proof fn lemma_block2_facts(nb: Seq<char>, esc: Seq<char>, escc: Seq<char>, a: int, xx: int, yy: int)
    requires
        first_element(nb, 0, value_open(), value_close()) == Some((a, a + esc.len())),
        nb.subrange(a, a + esc.len()) == esc,
        first_element(nb, 0, comment_open(), comment_close()) == Some((xx, yy)),
        a + esc.len() + 8 <= xx,
        forall|i: int| 0 <= i < escc.len() ==> escc[i] != '<',
    ensures
        ({
            let block2 = spliced(nb, xx, yy, escc);
            &&& first_element(block2, 0, value_open(), value_close()) == Some((a, a + esc.len()))
            &&& block2.subrange(a, a + esc.len()) == esc
            &&& first_element(block2, 0, comment_open(), comment_close()) == Some((xx, xx + escc.len()))
            &&& block2.subrange(xx, xx + escc.len()) == escc
        }),
{
    lemma_tags_ok();
    let block2 = spliced(nb, xx, yy, escc);
    let pc = lemma_first_element_witness(nb, 0, comment_open(), comment_close());
    lemma_element_bounds(nb, pc, comment_open(), comment_close());
    let pv = lemma_first_value_witness(nb, 0);
    lemma_element_bounds(nb, pv, value_open(), value_close());
    assert(agree_below(nb, block2, xx));
    lemma_first_element_agree(nb, block2, value_open(), value_close(), xx);
    assert forall|i: int| 0 <= i < esc.len() implies #[trigger] block2.subrange(a, a + esc.len())[i]
        == nb.subrange(a, a + esc.len())[i] by {
        assert(block2[a + i] == nb[a + i]);
    }
    assert(block2.subrange(a, a + esc.len()) =~= nb.subrange(a, a + esc.len()));
    lemma_first_element_own_splice(nb, escc, comment_open(), comment_close());
    assert(block2.subrange(xx, xx + escc.len()) =~= escc);
}

#[verifier::spinoff_prover]
#[verifier::rlimit(60)]
proof fn lemma_update_identity_comment(
    path: Seq<char>,
    culture: Option<Seq<char>>,
    encoding_name: Seq<char>,
    first: Seq<char>,
    e: EntryView,
    st: int,
    en: int,
    n: Seq<char>,
    a: int,
    xx: int,
)
    requires
        e.comment is Some,
        0 <= st <= en <= first.len(),
        first_element(first.subrange(st, en), 0, value_open(), value_close()) == Some(
            (a, a + escaped(e.value).len()),
        ),
        first.subrange(st, en).subrange(a, a + escaped(e.value).len()) == escaped(e.value),
        first_element(first.subrange(st, en), 0, comment_open(), comment_close()) == Some(
            (xx, xx + escaped(e.comment->0).len()),
        ),
        first.subrange(st, en).subrange(xx, xx + escaped(e.comment->0).len()) == escaped(e.comment->0),
        0 <= a,
        0 <= xx,
        a + escaped(e.value).len() <= en - st,
        xx + escaped(e.comment->0).len() <= en - st,
    ensures
        update_result(path, culture, encoding_name, first, e, st, en, n) matches Ok(
            (again, row, changed),
        ) && again == first && !changed && row.status == ReportStatus::Unchanged,
{
    let block2 = first.subrange(st, en);
    let esc = escaped(e.value);
    let escc = escaped(e.comment->0);
    let replaced = block2.subrange(0, a) + esc + block2.subrange(a + esc.len(), block2.len() as int);
    assert(replaced =~= block2);
    let again_block = replaced.subrange(0, xx) + escc + replaced.subrange(xx + escc.len(), replaced.len() as int);
    assert(again_block =~= block2);
    assert(first.subrange(0, st) + again_block + first.subrange(en, first.len() as int) =~= first);
}

#[verifier::spinoff_prover]
#[verifier::rlimit(60)]
proof fn lemma_again_without_comment(
    path: Seq<char>,
    culture: Option<Seq<char>>,
    encoding_name: Seq<char>,
    content: Seq<char>,
    e: EntryView,
    create_missing: bool,
)
    requires
        e.comment is None,
        named_block_from(content, 0, e.name) is Some,
        upserted(path, culture, encoding_name, content, e, create_missing) is Ok,
    ensures
        ({
            let first = upserted(path, culture, encoding_name, content, e, create_missing)->Ok_0.0;
            upserted(path, culture, encoding_name, first, e, create_missing) matches Ok(
                (again, row, changed),
            ) && again == first && !changed && row.status == ReportStatus::Unchanged
        }),
{
    let (st, en, n) = named_block_from(content, 0, e.name)->0;
    let r = lemma_first_update(path, culture, encoding_name, content, e, st, en, n);
    let (gb, cb, a, b) = r;
    let esc = escaped(e.value);
    let block = content.subrange(st, en);
    let first = upserted(path, culture, encoding_name, content, e, create_missing)->Ok_0.0;
    lemma_named_block_moved(content, st, gb, cb, st + a, st + b, esc, e.name, n, 0);
    let d = esc.len() - (b - a);
    assert(first.subrange(st, en + d) =~= block.subrange(0, a) + esc + block.subrange(
        b,
        block.len() as int,
    ));
    lemma_second_update(path, culture, encoding_name, first, block, e, st, a, b, n);
}

#[verifier::spinoff_prover]
#[verifier::rlimit(60)]
proof fn lemma_nested_splice_block(
    content: Seq<char>,
    st: int,
    en: int,
    a: int,
    b: int,
    esc: Seq<char>,
    xx: int,
    yy: int,
    escc: Seq<char>,
)
    requires
        0 <= st <= en <= content.len(),
        0 <= a <= b <= en - st,
        a + esc.len() <= xx <= yy <= en - st + esc.len() - (b - a),
    ensures
        ({
            let nb = spliced(content.subrange(st, en), a, b, esc);
            let block2 = spliced(nb, xx, yy, escc);
            let first = spliced(spliced(content, st + a, st + b, esc), st + xx, st + yy, escc);
            &&& st + block2.len() <= first.len()
            &&& first.subrange(st, st + block2.len()) == block2
            &&& nb.subrange(a, a + esc.len()) == esc
        }),
{
    let nb = spliced(content.subrange(st, en), a, b, esc);
    let block2 = spliced(nb, xx, yy, escc);
    let first = spliced(spliced(content, st + a, st + b, esc), st + xx, st + yy, escc);
    assert(first.subrange(st, st + block2.len()) =~= block2);
    assert(nb.subrange(a, a + esc.len()) =~= esc);
}

#[verifier::spinoff_prover]
#[verifier::rlimit(100)]
proof fn lemma_again_core(
    path: Seq<char>,
    culture: Option<Seq<char>>,
    encoding_name: Seq<char>,
    content: Seq<char>,
    e: EntryView,
    st: int,
    en: int,
    n: Seq<char>,
)
    requires
        e.comment is Some,
        named_block_from(content, 0, e.name) == Some((st, en, n)),
        update_result(path, culture, encoding_name, content, e, st, en, n) is Ok,
        ({
            let block = content.subrange(st, en);
            let b = (first_element(block, 0, value_open(), value_close())->0).1;
            &&& first_element(block, 0, comment_open(), comment_close()) is Some
            &&& forall|q: int| 0 <= q < b + 8 ==> element_at(block, q, comment_open(), comment_close()) is None
        }),
    ensures
        ({
            let first = update_result(path, culture, encoding_name, content, e, st, en, n)->Ok_0.0;
            named_block_from(first, 0, e.name) matches Some((st2, en2, n2)) && update_result(
                path,
                culture,
                encoding_name,
                first,
                e,
                st2,
                en2,
                n2,
            ) matches Ok((again, row, changed)) && again == first && !changed && row.status
                == ReportStatus::Unchanged
        }),
{
    let r = lemma_first_update_comment(path, culture, encoding_name, content, e, st, en, n);
    let (gb, cb, a, b, x, y) = r;
    let esc = escaped(e.value);
    let escc = escaped(e.comment->0);
    let d = esc.len() - (b - a);
    let block = content.subrange(st, en);
    let mid = spliced(content, st + a, st + b, esc);
    let first = spliced(mid, st + x + d, st + y + d, escc);
    lemma_named_block_moved(content, st, gb, cb, st + a, st + b, esc, e.name, n, 0);
    lemma_named_block_moved(mid, st, gb, cb + d, st + x + d, st + y + d, escc, e.name, n, 0);
    let nb = spliced(block, a, b, esc);
    let block2 = spliced(nb, x + d, y + d, escc);
    lemma_nested_splice_block(content, st, en, a, b, esc, x + d, y + d, escc);
    lemma_escaped_no_open(e.comment->0);
    lemma_block2_facts(nb, esc, escc, a, x + d, y + d);
    lemma_update_identity_comment(
        path,
        culture,
        encoding_name,
        first,
        e,
        st,
        st + block2.len(),
        n,
        a,
        x + d,
    );
}

#[verifier::spinoff_prover]
#[verifier::rlimit(60)]
proof fn lemma_no_open_no_element(s: Seq<char>, pos: int, open: Seq<char>, close: Seq<char>)
    requires
        0 <= pos,
        forall|q: int| 0 <= q < s.len() ==> !(ci_at(s, q, open) && boundary_after(s, q + open.len())),
    ensures
        first_element(s, pos, open, close) is None,
    decreases s.len() - pos,
{
    if pos < s.len() {
        lemma_no_open_no_element(s, pos + 1, open, close);
    }
}

/// Splicing text without `<` right after a `>` opens no element that was
/// not opened before.
#[verifier::spinoff_prover]
#[verifier::rlimit(60)]
proof fn lemma_no_open_spliced(s: Seq<char>, a: int, b: int, esc: Seq<char>, open: Seq<char>, close: Seq<char>)
    requires
        tags_ok(open, close),
        0 < a <= b <= s.len(),
        s[a - 1] == '>',
        forall|i: int| 0 <= i < esc.len() ==> esc[i] != '<',
        forall|q: int| 0 <= q < s.len() ==> !(ci_at(s, q, open) && boundary_after(s, q + open.len())),
    ensures
        ({
            let t = spliced(s, a, b, esc);
            forall|q: int| 0 <= q < t.len() ==> !(ci_at(t, q, open) && boundary_after(t, q + open.len()))
        }),
{
    let t = spliced(s, a, b, esc);
    let d = esc.len() - (b - a);
    assert(agree_below(s, t, a));
    assert(shifted_from(s, t, b, d));
    assert(forall|i: int| a <= i < a + esc.len() ==> #[trigger] t[i] == esc[i - a]);
    assert forall|q: int| 0 <= q < t.len() implies !(ci_at(t, q, open) && boundary_after(t, q + open.len())) by {
        if q + open.len() < a {
            lemma_ci_at_agree(s, t, q, open, a);
            assert(s[q + open.len()] == t[q + open.len()]);
        } else if q < a {
            let j = a - 1 - q;
            if ci_at(t, q, open) {
                assert(t[q + j] == '>');
                assert(open[j] != '>');
                lemma_not_gt(open[j]);
                assert(false);
            }
        } else if q < a + esc.len() {
            assert(t[q + 0] == esc[q - a]);
            lemma_not_open_angle(t[q + 0]);
        } else {
            lemma_ci_at_shift(s, t, b, d, q - d, open);
            let j = q - d + open.len();
            if j < s.len() {
                assert(t[j + d] == s[j]);
            }
            assert(boundary_after(t, j + d) == boundary_after(s, j));
        }
    }
}

/// The first closing tag moves with a splice, from right after a `>`,
/// of the text before it.
#[verifier::spinoff_prover]
#[verifier::rlimit(60)]
proof fn lemma_first_close_spliced(s: Seq<char>, a: int, b: int, esc: Seq<char>, open: Seq<char>, close: Seq<char>)
    requires
        tags_ok(open, close),
        0 < a <= b,
        s[a - 1] == '>',
        forall|i: int| 0 <= i < esc.len() ==> esc[i] != '<',
        first_ci_from(s, 0, close) == Some(b),
    ensures
        first_ci_from(spliced(s, a, b, esc), 0, close) == Some(b + esc.len() - (b - a)),
{
    crate::text::lemma_first_ci_from_bounds(s, 0, close);
    let t = spliced(s, a, b, esc);
    let d = esc.len() - (b - a);
    assert(agree_below(s, t, a));
    assert(shifted_from(s, t, b, d));
    assert(forall|i: int| a <= i < a + esc.len() ==> #[trigger] t[i] == esc[i - a]);
    lemma_ci_at_shift(s, t, b, d, b, close);
    assert forall|p: int| 0 <= p < b + d implies !ci_at(t, p, close) by {
        if p + close.len() <= a {
            lemma_ci_at_agree(s, t, p, close, a);
            lemma_first_ci_before(s, 0, close, b, p);
        } else if p < a {
            let j = a - 1 - p;
            if ci_at(t, p, close) {
                assert(t[p + j] == '>');
                assert(close[j] != '>');
                lemma_not_gt(close[j]);
                assert(false);
            }
        } else {
            assert(t[p + 0] == esc[p - a]);
            lemma_not_open_angle(t[p + 0]);
        }
    }
    lemma_first_ci_found(t, 0, close, b + d);
}

#[verifier::spinoff_prover]
#[verifier::rlimit(60)]
proof fn lemma_blank_chars(s: Seq<char>, from: int)
    requires
        0 <= from,
    ensures
        forall|k: int| from <= k < blank_end(s, from) ==> s[k] == ' ' || s[k] == '\t',
        from <= s.len() ==> blank_end(s, from) <= s.len(),
        from <= blank_end(s, from),
    decreases s.len() - from,
{
    if from < s.len() && (s[from] == ' ' || s[from] == '\t') {
        lemma_blank_chars(s, from + 1);
    }
}

#[verifier::spinoff_prover]
#[verifier::rlimit(60)]
proof fn lemma_first_indent_blank(s: Seq<char>, p: int)
    requires
        0 <= p,
    ensures
        first_indent(s, p) matches Some((q, r)) ==> 0 <= q <= r <= s.len() && forall|k: int|
            q <= k < r ==> s[k] == ' ' || s[k] == '\t',
    decreases s.len() + 1 - p,
{
    if p <= s.len() {
        lemma_blank_chars(s, p);
        lemma_first_indent_blank(s, p + 1);
    }
}

#[verifier::spinoff_prover]
#[verifier::rlimit(60)]
proof fn lemma_indent_blank(s: Seq<char>)
    ensures
        forall|k: int| 0 <= k < block_indent_of(s).len() ==> block_indent_of(s)[k] == ' '
            || block_indent_of(s)[k] == '\t',
{
    lemma_first_indent_blank(s, 0);
}

/// The comment line that a comment is inserted as, after the first
/// `</value>` of `block`.
pub open spec fn comment_line(block: Seq<char>, cm: Seq<char>) -> Seq<char> {
    newline_of(block) + block_indent_of(block) + seq![' ', ' '] + "<comment>"@ + escaped(cm)
        + "</comment>"@
}

#[verifier::spinoff_prover]
#[verifier::rlimit(60)]
proof fn lemma_gt_only(x: char)
    requires
        ci_char_eq(x, '>'),
    ensures
        x == '>',
{
}

#[verifier::spinoff_prover]
#[verifier::rlimit(60)]
proof fn lemma_newline_chars(s: Seq<char>)
    ensures
        forall|k: int| 0 <= k < newline_of(s).len() ==> newline_of(s)[k] == '\r' || newline_of(s)[k] == '\n',
{
}

#[verifier::spinoff_prover]
#[verifier::rlimit(60)]
proof fn lemma_comment_line_shape(nb: Seq<char>, cm: Seq<char>)
    ensures
        ({
            let ins = comment_line(nb, cm);
            let escc = escaped(cm);
            let pre: int = (newline_of(nb).len() + block_indent_of(nb).len() + 2) as int;
            &&& ins.len() == pre + 9 + escc.len() + 10
            &&& forall|i: int| 0 <= i < pre ==> ins[i] != '<'
            &&& forall|j: int| 0 <= j < 9 ==> #[trigger] ins[pre + j] == "<comment>"@[j]
            &&& forall|i: int| 0 <= i < escc.len() ==> #[trigger] ins[pre + 9 + i] == escc[i]
            &&& forall|j: int| 0 <= j < 10 ==> #[trigger] ins[pre + 9 + escc.len() + j] == "</comment>"@[j]
            &&& forall|i: int| 0 <= i < ins.len() ==> #[trigger] opens_no_close(ins, i)
        }),
{
    reveal_strlit("<comment>");
    reveal_strlit("</comment>");
    let escc = escaped(cm);
    lemma_escaped_no_open(cm);
    let nl = newline_of(nb);
    let ind = block_indent_of(nb);
    lemma_newline_chars(nb);
    lemma_indent_blank(nb);
    let ins = comment_line(nb, cm);
    let pre: int = (nl.len() + ind.len() + 2) as int;
    assert(forall|i: int| 0 <= i < nl.len() ==> ins[i] == nl[i]);
    assert(forall|i: int| 0 <= i < ind.len() ==> ins[nl.len() + i] == ind[i]);
    assert(ins[pre - 2] == ' ' && ins[pre - 1] == ' ');
    assert(forall|j: int| 0 <= j < 9 ==> #[trigger] ins[pre + j] == "<comment>"@[j]);
    assert(forall|i: int| 0 <= i < escc.len() ==> #[trigger] ins[pre + 9 + i] == escc[i]);
    assert(forall|j: int| 0 <= j < 10 ==> #[trigger] ins[pre + 9 + escc.len() + j] == "</comment>"@[j]);
    assert forall|i: int| 0 <= i < pre implies ins[i] != '<' by {
        if i < nl.len() {
        } else if i < nl.len() + ind.len() {
            assert(ins[nl.len() + (i - nl.len())] == ind[i - nl.len()]);
        }
    }
    assert forall|i: int| 0 <= i < ins.len() implies #[trigger] opens_no_close(ins, i) by {
        if i < pre {
        } else if i < pre + 9 {
            if i == pre {
                assert(ins[pre + 1] == "<comment>"@[1]);
            } else {
                assert(ins[pre + (i - pre)] == "<comment>"@[i - pre]);
            }
        } else if i < pre + 9 + escc.len() {
            assert(ins[pre + 9 + (i - pre - 9)] == escc[i - pre - 9]);
        } else {
            let j = i - (pre + 9 + escc.len());
            assert(ins[pre + 9 + escc.len() + j] == "</comment>"@[j]);
            if j == 0 {
                assert(ins[pre + 9 + escc.len() + 2] == "</comment>"@[2]);
            }
        }
    }
}

/// The comment element of the block after a comment line is inserted.
#[verifier::spinoff_prover]
#[verifier::rlimit(100)]
proof fn lemma_inserted_comment_found(nb: Seq<char>, cm: Seq<char>, m: int)
    requires
        8 <= m <= nb.len(),
        nb[m - 1] == '>',
        forall|q: int| 0 <= q < nb.len() ==> !(ci_at(nb, q, comment_open()) && boundary_after(nb, q + 8)),
    ensures
        ({
            let ins = comment_line(nb, cm);
            let block2 = spliced(nb, m, m, ins);
            let x2 = m + newline_of(nb).len() + block_indent_of(nb).len() + 2 + 9;
            let escc = escaped(cm);
            &&& first_element(block2, 0, comment_open(), comment_close()) == Some((x2, x2 + escc.len()))
            &&& block2.subrange(x2, x2 + escc.len()) == escc
            &&& x2 + escc.len() <= block2.len()
        }),
{
    lemma_tags_ok();
    reveal_strlit("<comment>");
    reveal_strlit("</comment>");
    lemma_comment_line_shape(nb, cm);
    lemma_escaped_no_open(cm);
    let escc = escaped(cm);
    let ins = comment_line(nb, cm);
    let pre: int = (newline_of(nb).len() + block_indent_of(nb).len() + 2) as int;
    let block2 = spliced(nb, m, m, ins);
    let x2 = m + pre + 9;
    let q0 = m + pre;
    assert(agree_below(nb, block2, m));
    assert(forall|j: int| 0 <= j < ins.len() ==> #[trigger] block2[m + j] == ins[j]);
    assert(ci_at(block2, q0, comment_open())) by {
        assert forall|j: int| 0 <= j < 8 implies ci_char_eq(block2[q0 + j], #[trigger] comment_open()[j]) by {
            assert(block2[m + (pre + j)] == ins[pre + j]);
        }
    }
    assert(block2[m + (pre + 8)] == ins[pre + 8]);
    assert(block2[q0 + 8] == '>');
    assert(boundary_after(block2, q0 + 8));
    assert(first_char_from(block2, q0 + 8, '>') == Some(q0 + 8));
    assert(ci_at(block2, x2 + escc.len(), comment_close())) by {
        assert forall|j: int| 0 <= j < 10 implies ci_char_eq(block2[x2 + escc.len() + j], #[trigger] comment_close()[j]) by {
            assert(block2[m + (pre + 9 + escc.len() + j)] == ins[pre + 9 + escc.len() + j]);
        }
    }
    assert forall|p: int| x2 <= p < x2 + escc.len() implies !ci_at(block2, p, comment_close()) by {
        assert(block2[m + (pre + 9 + (p - x2))] == ins[pre + 9 + (p - x2)]);
        assert(block2[p + 0] == escc[p - x2]);
        lemma_not_open_angle(block2[p + 0]);
    }
    lemma_first_ci_found(block2, x2, comment_close(), x2 + escc.len());
    assert(element_at(block2, q0, comment_open(), comment_close()) == Some((q0 + 8, x2 + escc.len())));
    assert forall|q: int| 0 <= q < q0 implies element_at(block2, q, comment_open(), comment_close()) is None by {
        if q + 8 < m {
            lemma_ci_at_agree(nb, block2, q, comment_open(), m);
            assert(nb[q + 8] == block2[q + 8]);
        } else if q < m {
            let j = m - 1 - q;
            if ci_at(block2, q, comment_open()) {
                assert(block2[q + j] == '>');
                lemma_not_gt(comment_open()[j]);
                assert(false);
            }
        } else {
            assert(block2[m + (q - m)] == ins[q - m]);
            lemma_not_open_angle(block2[q + 0]);
        }
    }
    lemma_first_element_at(block2, 0, q0, comment_open(), comment_close());
    assert(block2.subrange(x2, x2 + escc.len()) =~= escc) by {
        assert forall|i: int| 0 <= i < escc.len() implies block2[x2 + i] == escc[i] by {
            assert(block2[m + (pre + 9 + i)] == ins[pre + 9 + i]);
        }
    }
}

/// The block after a comment line is inserted after its value element,
/// when it opens no `<comment>` element anywhere.
#[verifier::spinoff_prover]
#[verifier::rlimit(100)]
proof fn lemma_insert_facts(nb: Seq<char>, esc: Seq<char>, cm: Seq<char>, a: int)
    requires
        first_element(nb, 0, value_open(), value_close()) == Some((a, a + esc.len())),
        nb.subrange(a, a + esc.len()) == esc,
        first_ci_from(nb, 0, value_close()) == Some(a + esc.len()),
        forall|q: int| 0 <= q < nb.len() ==> !(ci_at(nb, q, comment_open()) && boundary_after(nb, q + 8)),
    ensures
        ({
            let m = a + esc.len() + 8;
            let ins = comment_line(nb, cm);
            let block2 = spliced(nb, m, m, ins);
            let x2 = m + newline_of(nb).len() + block_indent_of(nb).len() + 2 + 9;
            let escc = escaped(cm);
            &&& m <= nb.len()
            &&& nb[m - 1] == '>'
            &&& comment_upserted(nb, cm) == block2
            &&& forall|i: int| 0 <= i < ins.len() ==> #[trigger] opens_no_close(ins, i)
            &&& first_element(block2, 0, value_open(), value_close()) == Some((a, a + esc.len()))
            &&& block2.subrange(a, a + esc.len()) == esc
            &&& first_element(block2, 0, comment_open(), comment_close()) == Some((x2, x2 + escc.len()))
            &&& block2.subrange(x2, x2 + escc.len()) == escc
            &&& a + esc.len() <= x2
            &&& x2 + escc.len() <= block2.len()
        }),
{
    lemma_tags_ok();
    let k = a + esc.len();
    let m = k + 8;
    crate::text::lemma_first_ci_from_bounds(nb, 0, value_close());
    assert(ci_char_eq(nb[k + 7], value_close()[7]));
    lemma_gt_only(nb[k + 7]);
    let ins = comment_line(nb, cm);
    let block2 = spliced(nb, m, m, ins);
    lemma_comment_line_shape(nb, cm);
    lemma_no_open_no_element(nb, 0, comment_open(), comment_close());
    assert(comment_upserted(nb, cm) =~= block2);
    assert(agree_below(nb, block2, m));
    lemma_first_element_agree(nb, block2, value_open(), value_close(), m);
    let pv = lemma_first_value_witness(nb, 0);
    lemma_element_bounds(nb, pv, value_open(), value_close());
    assert forall|i: int| 0 <= i < esc.len() implies #[trigger] block2.subrange(a, a + esc.len())[i]
        == esc[i] by {
        assert(block2[a + i] == nb[a + i]);
        assert(nb.subrange(a, a + esc.len())[i] == nb[a + i]);
    }
    assert(block2.subrange(a, a + esc.len()) =~= esc);
    lemma_inserted_comment_found(nb, cm, m);
}

#[verifier::spinoff_prover]
#[verifier::rlimit(60)]
proof fn lemma_update_result_general(
    path: Seq<char>,
    culture: Option<Seq<char>>,
    encoding_name: Seq<char>,
    content: Seq<char>,
    e: EntryView,
    st: int,
    en: int,
    n: Seq<char>,
)
    requires
        e.comment is Some,
        0 <= st <= en <= content.len(),
        first_element(content.subrange(st, en), 0, value_open(), value_close()) is Some,
    ensures
        ({
            let (a, b) = first_element(content.subrange(st, en), 0, value_open(), value_close())->0;
            let nb = spliced(content.subrange(st, en), a, b, escaped(e.value));
            &&& update_result(path, culture, encoding_name, content, e, st, en, n) is Ok
            &&& update_result(path, culture, encoding_name, content, e, st, en, n)->Ok_0.0
                == content.subrange(0, st) + comment_upserted(nb, e.comment->0) + content.subrange(
                en,
                content.len() as int,
            )
        }),
{
    let block = content.subrange(st, en);
    let (a, b) = first_element(block, 0, value_open(), value_close())->0;
    let nb = spliced(block, a, b, escaped(e.value));
    assert(nb =~= block.subrange(0, a) + escaped(e.value) + block.subrange(b, block.len() as int));
}

#[verifier::spinoff_prover]
#[verifier::rlimit(60)]
proof fn lemma_insert_content(content: Seq<char>, st: int, en: int, a: int, b: int, esc: Seq<char>, m: int, ins: Seq<char>)
    requires
        0 <= st <= en <= content.len(),
        0 <= a <= b <= en - st,
        a + esc.len() <= m <= en - st + esc.len() - (b - a),
    ensures
        content.subrange(0, st) + spliced(spliced(content.subrange(st, en), a, b, esc), m, m, ins)
            + content.subrange(en, content.len() as int) == spliced(
            spliced(content, st + a, st + b, esc),
            st + m,
            st + m,
            ins,
        ),
{
    assert(content.subrange(0, st) + spliced(spliced(content.subrange(st, en), a, b, esc), m, m, ins)
        + content.subrange(en, content.len() as int) =~= spliced(
        spliced(content, st + a, st + b, esc),
        st + m,
        st + m,
        ins,
    ));
}

/// The block's first `<comment>` element comes after its `<value>` element.
pub open spec fn comment_after_value(block: Seq<char>) -> bool {
    let b = (first_element(block, 0, value_open(), value_close())->0).1;
    &&& first_element(block, 0, comment_open(), comment_close()) is Some
    &&& forall|q: int| 0 <= q < b + 8 ==> element_at(block, q, comment_open(), comment_close()) is None
}

/// The block opens no `<comment>` element, and its first `</value>` closes
/// its `<value>` element.
pub open spec fn comment_absent(block: Seq<char>) -> bool {
    let b = (first_element(block, 0, value_open(), value_close())->0).1;
    &&& first_ci_from(block, 0, value_close()) == Some(b)
    &&& forall|q: int| 0 <= q < block.len() ==> !(ci_at(block, q, comment_open()) && boundary_after(block, q + 8))
}

/// What the first update does to a block that gets a comment line.
#[verifier::spinoff_prover]
#[verifier::rlimit(100)]
proof fn lemma_insert_prep(content: Seq<char>, st: int, en: int, gb: int, cb: int, v: Seq<char>, cm: Seq<char>) -> (r: (int, int))
    requires
        0 <= st,
        st + 5 <= gb < cb,
        en == cb + 7,
        en <= content.len(),
        element_at(content, st, data_open(), data_close()) == Some((gb, cb)),
        first_element(content.subrange(st, en), 0, value_open(), value_close()) is Some,
        comment_absent(content.subrange(st, en)),
    ensures
        ({
            let (a, b) = r;
            let block = content.subrange(st, en);
            let esc = escaped(v);
            let escc = escaped(cm);
            let d = esc.len() - (b - a);
            let nb = spliced(block, a, b, esc);
            let m = a + esc.len() + 8;
            let ins = comment_line(nb, cm);
            let block2 = spliced(nb, m, m, ins);
            let x2 = m + newline_of(nb).len() + block_indent_of(nb).len() + 2 + 9;
            &&& first_element(block, 0, value_open(), value_close()) == Some((a, b))
            &&& 0 <= a <= b <= en - st
            &&& m <= nb.len()
            &&& splice_in_block(content, st, gb, cb, st + a, st + b, esc)
            &&& splice_in_block(spliced(content, st + a, st + b, esc), st, gb, cb + d, st + m, st + m, ins)
            &&& comment_upserted(nb, cm) == block2
            &&& first_element(block2, 0, value_open(), value_close()) == Some((a, a + esc.len()))
            &&& block2.subrange(a, a + esc.len()) == esc
            &&& first_element(block2, 0, comment_open(), comment_close()) == Some((x2, x2 + escc.len()))
            &&& block2.subrange(x2, x2 + escc.len()) == escc
            &&& a + esc.len() <= x2
            &&& x2 + escc.len() <= block2.len()
        }),
{
    lemma_tags_ok();
    lemma_element_bounds(content, st, data_open(), data_close());
    let block = content.subrange(st, en);
    let (a, b) = first_element(block, 0, value_open(), value_close())->0;
    let pv = lemma_first_value_witness(block, 0);
    lemma_element_bounds(block, pv, value_open(), value_close());
    assert(content[st + (a - 1)] == block[a - 1]);
    lemma_first_char_upto(content, st + 5, st + a - 1);
    let esc = escaped(v);
    lemma_escaped_no_open(v);
    let d = esc.len() - (b - a);
    let nb = spliced(block, a, b, esc);
    lemma_first_element_own_splice(block, esc, value_open(), value_close());
    assert(nb.subrange(a, a + esc.len()) =~= esc);
    lemma_no_open_spliced(block, a, b, esc, comment_open(), comment_close());
    lemma_first_close_spliced(block, a, b, esc, value_open(), value_close());
    lemma_insert_facts(nb, esc, cm, a);
    let m = a + esc.len() + 8;
    let ins = comment_line(nb, cm);
    assert(st + b + 8 <= cb) by {
        if cb < st + b + 8 {
            let j = cb - (st + b);
            assert(ci_char_eq(content[cb + 0], data_close()[0]));
            assert(content[st + (b + j)] == block[b + j]);
            assert(ci_char_eq(block[b + j], value_close()[j]));
            assert(false);
        }
    }
    assert(splice_in_block(content, st, gb, cb, st + a, st + b, esc));
    let mid = spliced(content, st + a, st + b, esc);
    lemma_block_moved(content, st, gb, cb, st + a, st + b, esc);
    assert(mid[st + m - 1] == nb[m - 1]);
    assert(splice_in_block(mid, st, gb, cb + d, st + m, st + m, ins));
    (a, b)
}

#[verifier::spinoff_prover]
#[verifier::rlimit(60)]
proof fn lemma_insert_first_is(
    path: Seq<char>,
    culture: Option<Seq<char>>,
    encoding_name: Seq<char>,
    content: Seq<char>,
    e: EntryView,
    st: int,
    en: int,
    n: Seq<char>,
    a: int,
    b: int,
)
    requires
        e.comment is Some,
        0 <= st <= en <= content.len(),
        first_element(content.subrange(st, en), 0, value_open(), value_close()) == Some((a, b)),
        0 <= a <= b <= en - st,
        ({
            let esc = escaped(e.value);
            let nb = spliced(content.subrange(st, en), a, b, esc);
            let m = a + esc.len() + 8;
            &&& m <= nb.len()
            &&& comment_upserted(nb, e.comment->0) == spliced(nb, m, m, comment_line(nb, e.comment->0))
        }),
    ensures
        ({
            let esc = escaped(e.value);
            let nb = spliced(content.subrange(st, en), a, b, esc);
            let m = a + esc.len() + 8;
            update_result(path, culture, encoding_name, content, e, st, en, n)->Ok_0.0 == spliced(
                spliced(content, st + a, st + b, esc),
                st + m,
                st + m,
                comment_line(nb, e.comment->0),
            )
        }),
{
    let esc = escaped(e.value);
    let nb = spliced(content.subrange(st, en), a, b, esc);
    let m = a + esc.len() + 8;
    lemma_update_result_general(path, culture, encoding_name, content, e, st, en, n);
    lemma_insert_content(content, st, en, a, b, esc, m, comment_line(nb, e.comment->0));
}

#[verifier::spinoff_prover]
#[verifier::rlimit(100)]
proof fn lemma_again_insert_core(
    path: Seq<char>,
    culture: Option<Seq<char>>,
    encoding_name: Seq<char>,
    content: Seq<char>,
    e: EntryView,
    st: int,
    en: int,
    n: Seq<char>,
)
    requires
        e.comment is Some,
        named_block_from(content, 0, e.name) == Some((st, en, n)),
        update_result(path, culture, encoding_name, content, e, st, en, n) is Ok,
        comment_absent(content.subrange(st, en)),
    ensures
        ({
            let first = update_result(path, culture, encoding_name, content, e, st, en, n)->Ok_0.0;
            named_block_from(first, 0, e.name) matches Some((st2, en2, n2)) && update_result(
                path,
                culture,
                encoding_name,
                first,
                e,
                st2,
                en2,
                n2,
            ) matches Ok((again, row, changed)) && again == first && !changed && row.status
                == ReportStatus::Unchanged
        }),
{
    lemma_named_block_found(content, 0, e.name);
    lemma_named_block_at_least(content, 0, e.name);
    let (gb, cb) = element_at(content, st, data_open(), data_close())->0;
    lemma_element_bounds(content, st, data_open(), data_close());
    let cm = e.comment->0;
    let r = lemma_insert_prep(content, st, en, gb, cb, e.value, cm);
    let (a, b) = r;
    let esc = escaped(e.value);
    let d = esc.len() - (b - a);
    let nb = spliced(content.subrange(st, en), a, b, esc);
    let m = a + esc.len() + 8;
    let ins = comment_line(nb, cm);
    let block2 = spliced(nb, m, m, ins);
    let x2 = m + newline_of(nb).len() + block_indent_of(nb).len() + 2 + 9;
    let mid = spliced(content, st + a, st + b, esc);
    lemma_named_block_moved(content, st, gb, cb, st + a, st + b, esc, e.name, n, 0);
    lemma_named_block_moved(mid, st, gb, cb + d, st + m, st + m, ins, e.name, n, 0);
    lemma_insert_first_is(path, culture, encoding_name, content, e, st, en, n, a, b);
    let first = spliced(mid, st + m, st + m, ins);
    lemma_nested_splice_block(content, st, en, a, b, esc, m, m, ins);
    lemma_update_identity_comment(
        path,
        culture,
        encoding_name,
        first,
        e,
        st,
        st + block2.len(),
        n,
        a,
        x2,
    );
}

/// The block's first `<comment>` element ends before its `<value>`
/// element begins.
pub open spec fn comment_before_value(block: Seq<char>) -> bool {
    &&& first_element(block, 0, comment_open(), comment_close()) is Some
    &&& forall|q: int|
        0 <= q < (first_element(block, 0, comment_open(), comment_close())->0).1 + 10 ==> element_at(
            block,
            q,
            value_open(),
            value_close(),
        ) is None
}

/// What the two splices of an update do to a block whose comment comes
/// first.
#[verifier::spinoff_prover]
#[verifier::rlimit(100)]
proof fn lemma_block_comment_first_facts(block: Seq<char>, v: Seq<char>, cm: Seq<char>) -> (r: (int, int, int, int))
    requires
        first_element(block, 0, value_open(), value_close()) is Some,
        comment_before_value(block),
    ensures
        ({
            let (a, b, x, y) = r;
            let esc = escaped(v);
            let escc = escaped(cm);
            let d2 = escc.len() - (y - x);
            let nb = spliced(block, a, b, esc);
            let block2 = spliced(nb, x, y, escc);
            &&& first_element(block, 0, value_open(), value_close()) == Some((a, b))
            &&& first_element(block, 0, comment_open(), comment_close()) == Some((x, y))
            &&& 6 < x <= y
            &&& y + 10 < a <= b
            &&& b + 8 <= block.len()
            &&& block[a - 1] == '>'
            &&& block[x - 1] == '>'
            &&& first_element(nb, 0, comment_open(), comment_close()) == Some((x, y))
            &&& first_element(block2, 0, comment_open(), comment_close()) == Some((x, x + escc.len()))
            &&& block2.subrange(x, x + escc.len()) == escc
            &&& first_element(block2, 0, value_open(), value_close()) == Some((a + d2, a + d2 + esc.len()))
            &&& block2.subrange(a + d2, a + d2 + esc.len()) == esc
            &&& a + d2 + esc.len() <= block2.len()
            &&& x + escc.len() <= block2.len()
        }),
{
    lemma_tags_ok();
    let (a, b) = first_element(block, 0, value_open(), value_close())->0;
    let pv = lemma_first_value_witness(block, 0);
    lemma_element_bounds(block, pv, value_open(), value_close());
    let (x, y) = first_element(block, 0, comment_open(), comment_close())->0;
    let pc = lemma_first_element_witness(block, 0, comment_open(), comment_close());
    lemma_element_bounds(block, pc, comment_open(), comment_close());
    assert(pv >= y + 10);
    let esc = escaped(v);
    let escc = escaped(cm);
    lemma_escaped_no_open(v);
    lemma_escaped_no_open(cm);
    let nb = spliced(block, a, b, esc);
    let d2 = escc.len() - (y - x);
    let block2 = spliced(nb, x, y, escc);
    // the comment element is untouched by the value splice
    assert(agree_below(block, nb, a));
    lemma_first_element_agree(block, nb, comment_open(), comment_close(), a);
    // then its own text is spliced
    lemma_first_element_own_splice(nb, escc, comment_open(), comment_close());
    assert(block2.subrange(x, x + escc.len()) =~= escc);
    // the value element, spliced first, is moved by the comment splice
    lemma_first_element_own_splice(block, esc, value_open(), value_close());
    assert forall|q: int| 0 <= q < y implies element_at(nb, q, value_open(), value_close()) is None by {
        lemma_open_fails_before(block, q, pv, value_open(), value_close());
        lemma_ci_at_agree(block, nb, q, value_open(), a);
        assert(block[q + 6] == nb[q + 6]);
    }
    assert(nb[x - 1] == block[x - 1]);
    lemma_first_element_after_splice(nb, x, y, escc, value_open(), value_close());
    assert(block2.subrange(a + d2, a + d2 + esc.len()) =~= esc) by {
        assert forall|i: int| 0 <= i < esc.len() implies block2.subrange(a + d2, a + d2 + esc.len())[i]
            == esc[i] by {
            assert(block2[(a + i) + d2] == nb[a + i]);
        }
    }
    (a, b, x, y)
}

#[verifier::spinoff_prover]
#[verifier::rlimit(60)]
proof fn lemma_nested_splice_before(
    content: Seq<char>,
    st: int,
    en: int,
    a: int,
    b: int,
    esc: Seq<char>,
    x: int,
    y: int,
    escc: Seq<char>,
)
    requires
        0 <= st <= en <= content.len(),
        0 <= x <= y <= a <= b <= en - st,
    ensures
        ({
            let nb = spliced(content.subrange(st, en), a, b, esc);
            let block2 = spliced(nb, x, y, escc);
            let first = spliced(spliced(content, st + a, st + b, esc), st + x, st + y, escc);
            &&& st + block2.len() <= first.len()
            &&& first.subrange(st, st + block2.len()) == block2
            &&& content.subrange(0, st) + block2 + content.subrange(en, content.len() as int) == first
        }),
{
    let nb = spliced(content.subrange(st, en), a, b, esc);
    let block2 = spliced(nb, x, y, escc);
    let first = spliced(spliced(content, st + a, st + b, esc), st + x, st + y, escc);
    assert(first =~= content.subrange(0, st) + block2 + content.subrange(en, content.len() as int));
    assert(first.subrange(st, st + block2.len()) =~= block2);
}

#[verifier::spinoff_prover]
#[verifier::rlimit(100)]
proof fn lemma_again_comment_first_core(
    path: Seq<char>,
    culture: Option<Seq<char>>,
    encoding_name: Seq<char>,
    content: Seq<char>,
    e: EntryView,
    st: int,
    en: int,
    n: Seq<char>,
)
    requires
        e.comment is Some,
        named_block_from(content, 0, e.name) == Some((st, en, n)),
        update_result(path, culture, encoding_name, content, e, st, en, n) is Ok,
        comment_before_value(content.subrange(st, en)),
    ensures
        ({
            let first = update_result(path, culture, encoding_name, content, e, st, en, n)->Ok_0.0;
            named_block_from(first, 0, e.name) matches Some((st2, en2, n2)) && update_result(
                path,
                culture,
                encoding_name,
                first,
                e,
                st2,
                en2,
                n2,
            ) matches Ok((again, row, changed)) && again == first && !changed && row.status
                == ReportStatus::Unchanged
        }),
{
    lemma_named_block_found(content, 0, e.name);
    lemma_named_block_at_least(content, 0, e.name);
    let (gb, cb) = element_at(content, st, data_open(), data_close())->0;
    lemma_element_bounds(content, st, data_open(), data_close());
    let block = content.subrange(st, en);
    let r4 = lemma_block_comment_first_facts(block, e.value, e.comment->0);
    let (a, b, x, y) = r4;
    let esc = escaped(e.value);
    let escc = escaped(e.comment->0);
    lemma_escaped_no_open(e.value);
    lemma_escaped_no_open(e.comment->0);
    let d = esc.len() - (b - a);
    assert(content[st + (x - 1)] == block[x - 1]);
    lemma_first_char_upto(content, st + 5, st + x - 1);
    assert(splice_in_block(content, st, gb, cb, st + a, st + b, esc));
    let mid = spliced(content, st + a, st + b, esc);
    lemma_block_moved(content, st, gb, cb, st + a, st + b, esc);
    assert(mid[st + x - 1] == block[x - 1]);
    assert(splice_in_block(mid, st, gb, cb + d, st + x, st + y, escc));
    lemma_named_block_moved(content, st, gb, cb, st + a, st + b, esc, e.name, n, 0);
    lemma_named_block_moved(mid, st, gb, cb + d, st + x, st + y, escc, e.name, n, 0);
    lemma_update_result_comment(path, culture, encoding_name, content, e, st, en, n, a, b, x, y);
    let nb = spliced(block, a, b, esc);
    let block2 = spliced(nb, x, y, escc);
    let first = spliced(mid, st + x, st + y, escc);
    lemma_nested_splice_before(content, st, en, a, b, esc, x, y, escc);
    let d2 = escc.len() - (y - x);
    lemma_update_identity_comment(
        path,
        culture,
        encoding_name,
        first,
        e,
        st,
        st + block2.len(),
        n,
        a + d2,
        x,
    );
}

#[verifier::spinoff_prover]
#[verifier::rlimit(60)]
proof fn lemma_again_with_comment(
    path: Seq<char>,
    culture: Option<Seq<char>>,
    encoding_name: Seq<char>,
    content: Seq<char>,
    e: EntryView,
    create_missing: bool,
)
    requires
        e.comment is Some,
        named_block_from(content, 0, e.name) is Some,
        upserted(path, culture, encoding_name, content, e, create_missing) is Ok,
        ({
            let (st, en, n) = named_block_from(content, 0, e.name)->0;
            comment_after_value(content.subrange(st, en)) || comment_before_value(content.subrange(st, en))
                || comment_absent(content.subrange(st, en))
        }),
    ensures
        ({
            let first = upserted(path, culture, encoding_name, content, e, create_missing)->Ok_0.0;
            upserted(path, culture, encoding_name, first, e, create_missing) matches Ok(
                (again, row, changed),
            ) && again == first && !changed && row.status == ReportStatus::Unchanged
        }),
{
    let (st, en, n) = named_block_from(content, 0, e.name)->0;
    if comment_after_value(content.subrange(st, en)) {
        lemma_again_core(path, culture, encoding_name, content, e, st, en, n);
    } else if comment_before_value(content.subrange(st, en)) {
        lemma_again_comment_first_core(path, culture, encoding_name, content, e, st, en, n);
    } else {
        lemma_again_insert_core(path, culture, encoding_name, content, e, st, en, n);
    }
}

/// The `<data>` element that an added entry is written as (from its `<`
/// to the end of its `</data>`), with line ending `nl` and indentation
/// `ind`.
pub open spec fn added_block(e: EntryView, nl: Seq<char>, ind: Seq<char>) -> Seq<char> {
    let child = ind + seq![' ', ' '];
    "<data name=\""@ + escaped(e.name) + "\" xml:space=\"preserve\">"@ + nl + child + "<value>"@
        + escaped(e.value) + "</value>"@ + (match e.comment {
        Some(c) => nl + child + "<comment>"@ + escaped(c) + "</comment>"@,
        None => Seq::empty(),
    }) + nl + ind + "</data>"@
}

/// Line endings and indentation hold neither `<`, `>` nor `"`.
pub open spec fn plain_layout(nl: Seq<char>, ind: Seq<char>) -> bool {
    &&& forall|k: int| 0 <= k < nl.len() ==> nl[k] == '\r' || nl[k] == '\n'
    &&& forall|k: int| 0 <= k < ind.len() ==> ind[k] == ' ' || ind[k] == '\t'
}

#[verifier::spinoff_prover]
#[verifier::rlimit(60)]
proof fn lemma_first_char_found(s: Seq<char>, from: int, k: int)
    requires
        0 <= from <= k < s.len(),
        s[k] == '>',
        forall|i: int| from <= i < k ==> s[i] != '>',
    ensures
        first_char_from(s, from, '>') == Some(k),
    decreases k - from,
{
    if from < k {
        lemma_first_char_found(s, from + 1, k);
    }
}

#[verifier::spinoff_prover]
#[verifier::rlimit(60)]
proof fn lemma_escaped_plain(v: Seq<char>)
    ensures
        forall|i: int| 0 <= i < escaped(v).len() ==> escaped(v)[i] != '<' && escaped(v)[i] != '>'
            && escaped(v)[i] != '"',
{
    crate::laws::law_escaped_has_no_markup(v);
}

/// Where the pieces of an added block stand.
pub open spec fn added_offsets(e: EntryView, nl: Seq<char>, ind: Seq<char>) -> (int, int, int, int, int) {
    let nn = escaped(e.name).len() as int;
    let nv = escaped(e.value).len() as int;
    let u = 35 + nn;
    let v0 = u + nl.len() + ind.len() + 2;
    let v1 = v0 + 7 + nv;
    let k: int = match e.comment {
        Some(c) => (nl.len() + ind.len() + 2 + 9 + escaped(c).len() + 10) as int,
        None => 0,
    };
    let cr = v1 + 8 + k + nl.len() + ind.len();
    (u, v0, v1, v1 + 8 + nl.len() + ind.len() + 2, cr)
}

#[verifier::spinoff_prover]
#[verifier::rlimit(100)]
proof fn lemma_added_layout(e: EntryView, nl: Seq<char>, ind: Seq<char>)
    requires
        plain_layout(nl, ind),
    ensures
        ({
            let blk = added_block(e, nl, ind);
            let (u, v0, v1, w0, cr) = added_offsets(e, nl, ind);
            let en = escaped(e.name);
            let ev = escaped(e.value);
            &&& blk.len() == cr + 7
            &&& forall|j: int| 0 <= j < 12 ==> blk[j] == "<data name=\""@[j]
            &&& forall|i: int| 0 <= i < en.len() ==> blk[12 + i] == en[i]
            &&& forall|j: int| 0 <= j < 23 ==> blk[12 + en.len() + j] == "\" xml:space=\"preserve\">"@[j]
            &&& forall|j: int| 0 <= j < 7 ==> blk[v0 + j] == "<value>"@[j]
            &&& forall|i: int| 0 <= i < ev.len() ==> blk[v0 + 7 + i] == ev[i]
            &&& forall|j: int| 0 <= j < 8 ==> blk[v1 + j] == "</value>"@[j]
            &&& forall|j: int| 0 <= j < 7 ==> blk[cr + j] == "</data>"@[j]
            &&& (e.comment matches Some(c) ==> {
                &&& forall|j: int| 0 <= j < 9 ==> blk[w0 + j] == "<comment>"@[j]
                &&& forall|i: int| 0 <= i < escaped(c).len() ==> blk[w0 + 9 + i] == escaped(c)[i]
                &&& forall|j: int| 0 <= j < 10 ==> blk[w0 + 9 + escaped(c).len() + j] == "</comment>"@[j]
            })
            &&& forall|p: int|
                u <= p < cr && p != v0 && p != v1 && !(e.comment is Some && (p == w0 || p == w0 + 9
                    + escaped(e.comment->0).len())) ==> blk[p] != '<' && blk[p] != '>'
                    || (p == v0 + 6 || p == v1 + 7 || (e.comment is Some && (p == w0 + 8 || p == w0 + 9
                    + escaped(e.comment->0).len() + 9))) && blk[p] == '>'
        }),
{
    reveal_strlit("<data name=\"");
    reveal_strlit("\" xml:space=\"preserve\">");
    reveal_strlit("<value>");
    reveal_strlit("</value>");
    reveal_strlit("<comment>");
    reveal_strlit("</comment>");
    reveal_strlit("</data>");
    lemma_escaped_plain(e.name);
    lemma_escaped_plain(e.value);
    let blk = added_block(e, nl, ind);
    let (u, v0, v1, w0, cr) = added_offsets(e, nl, ind);
    let child = ind + seq![' ', ' '];
    let en = escaped(e.name);
    let ev = escaped(e.value);
    let cmt: Seq<char> = match e.comment {
        Some(c) => nl + child + "<comment>"@ + escaped(c) + "</comment>"@,
        None => Seq::empty(),
    };
    let head = "<data name=\""@ + en + "\" xml:space=\"preserve\">"@;
    let mid = nl + child + "<value>"@ + ev + "</value>"@;
    let tail = nl + ind + "</data>"@;
    assert(blk =~= head + mid + cmt + tail);
    assert(head.len() == u);
    assert(mid.len() == v1 + 8 - u);
    let w = v1 + 8;
    assert(forall|i: int| 0 <= i < head.len() ==> blk[i] == head[i]);
    assert(forall|i: int| 0 <= i < mid.len() ==> blk[u + i] == mid[i]);
    assert(forall|i: int| 0 <= i < cmt.len() ==> blk[w + i] == cmt[i]);
    assert(forall|i: int| 0 <= i < tail.len() ==> blk[w + cmt.len() + i] == tail[i]);
    match e.comment {
        Some(c) => {
            lemma_escaped_plain(c);
            assert(forall|i: int| 0 <= i < escaped(c).len() ==> #[trigger] blk[w0 + 9 + i] == cmt[nl.len() + child.len() + 9 + i]);
        },
        None => {},
    }
    assert forall|p: int|
        u <= p < cr && p != v0 && p != v1 && !(e.comment is Some && (p == w0 || p == w0 + 9
            + escaped(e.comment->0).len())) implies blk[p] != '<' && blk[p] != '>'
            || (p == v0 + 6 || p == v1 + 7 || (e.comment is Some && (p == w0 + 8 || p == w0 + 9
            + escaped(e.comment->0).len() + 9))) && blk[p] == '>' by {
        if p < w {
            assert(blk[u + (p - u)] == mid[p - u]);
            if p - u < nl.len() {
            } else if p - u < nl.len() + child.len() {
                assert(mid[p - u] == child[p - u - nl.len()]);
            }
        } else if p < w + cmt.len() {
            assert(blk[w + (p - w)] == cmt[p - w]);
            let c = e.comment->0;
            let i = p - w;
            if i < nl.len() {
            } else if i < nl.len() + child.len() {
                assert(cmt[i] == child[i - nl.len()]);
            } else if i < nl.len() + child.len() + 9 {
            } else if i < nl.len() + child.len() + 9 + escaped(c).len() {
                assert(cmt[i] == escaped(c)[i - (nl.len() + child.len() + 9)]);
            }
        } else {
            assert(blk[w + cmt.len() + (p - w - cmt.len())] == tail[p - w - cmt.len()]);
        }
    }
}

#[verifier::spinoff_prover]
#[verifier::rlimit(100)]
proof fn lemma_added_data(e: EntryView, nl: Seq<char>, ind: Seq<char>)
    requires
        plain_layout(nl, ind),
    ensures
        ({
            let blk = added_block(e, nl, ind);
            let (u, v0, v1, w0, cr) = added_offsets(e, nl, ind);
            &&& element_at(blk, 0, data_open(), data_close()) == Some((u - 1, cr))
            &&& blk.len() == cr + 7
        }),
{
    lemma_added_layout(e, nl, ind);
    lemma_escaped_plain(e.name);
    reveal_strlit("<data name=\"");
    reveal_strlit("\" xml:space=\"preserve\">");
    reveal_strlit("<value>");
    reveal_strlit("</value>");
    reveal_strlit("<comment>");
    reveal_strlit("</comment>");
    reveal_strlit("</data>");
    let blk = added_block(e, nl, ind);
    let (u, v0, v1, w0, cr) = added_offsets(e, nl, ind);
    let en = escaped(e.name);
    let nn: int = en.len() as int;
    let dc = data_close();
    assert(ci_at(blk, 0, data_open())) by {
        assert forall|j: int| 0 <= j < 5 implies ci_char_eq(blk[0 + j], #[trigger] data_open()[j]) by {
            assert(blk[j] == "<data name=\""@[j]);
        }
    }
    assert(blk[5] == ' ');
    assert(boundary_after(blk, 5));
    assert forall|i: int| 5 <= i < u - 1 implies blk[i] != '>' by {
        if i < 12 {
            assert(blk[i] == "<data name=\""@[i]);
        } else if i < 12 + nn {
            assert(blk[12 + (i - 12)] == en[i - 12]);
        } else {
            assert(blk[12 + nn + (i - 12 - nn)] == "\" xml:space=\"preserve\">"@[i - 12 - nn]);
        }
    }
    assert(blk[12 + nn + 22] == "\" xml:space=\"preserve\">"@[22]);
    lemma_first_char_found(blk, 5, u - 1);
    assert(ci_at(blk, cr, dc)) by {
        assert forall|j: int| 0 <= j < 7 implies ci_char_eq(blk[cr + j], #[trigger] dc[j]) by {
            assert(blk[cr + j] == "</data>"@[j]);
        }
    }
    assert forall|p: int| u <= p < cr implies !ci_at(blk, p, dc) by {
        if p == v0 {
            assert(blk[v0 + 1] == "<value>"@[1]);
            assert(!ci_char_eq(blk[p + 1], dc[1]));
        } else if p == v1 {
            assert(blk[v1 + 2] == "</value>"@[2]);
            assert(!ci_char_eq(blk[p + 2], dc[2]));
        } else if e.comment is Some && p == w0 {
            assert(blk[w0 + 1] == "<comment>"@[1]);
            assert(!ci_char_eq(blk[p + 1], dc[1]));
        } else if e.comment is Some && p == w0 + 9 + escaped(e.comment->0).len() {
            assert(blk[w0 + 9 + escaped(e.comment->0).len() + 2] == "</comment>"@[2]);
            assert(!ci_char_eq(blk[p + 2], dc[2]));
        } else {
            assert(blk[p] != '<');
            lemma_not_open_angle(blk[p + 0]);
        }
    }
    lemma_first_ci_found(blk, u, dc, cr);
}

#[verifier::spinoff_prover]
#[verifier::rlimit(100)]
proof fn lemma_added_name(e: EntryView, nl: Seq<char>, ind: Seq<char>)
    requires
        plain_layout(nl, ind),
    ensures
        ({
            let blk = added_block(e, nl, ind);
            let (u, v0, v1, w0, cr) = added_offsets(e, nl, ind);
            crate::resx::attr_value_of(blk.subrange(5, u - 1), crate::markup::name_attr()) == Some(e.name)
        }),
{
    lemma_added_layout(e, nl, ind);
    lemma_escaped_plain(e.name);
    reveal_strlit("<data name=\"");
    reveal_strlit("\" xml:space=\"preserve\">");
    let blk = added_block(e, nl, ind);
    let (u, v0, v1, w0, cr) = added_offsets(e, nl, ind);
    let en = escaped(e.name);
    let nn: int = en.len() as int;
    let attrs = blk.subrange(5, u - 1);
    let na = crate::markup::name_attr();
    assert(attrs[0] == blk[5]);
    assert(attrs[0] == ' ');
    assert(!crate::markup::boundary_at(attrs, 0));
    assert(crate::markup::assign_at(attrs, 0, na) is None);
    assert(attrs[1] == 'n');
    assert(crate::markup::boundary_at(attrs, 1));
    assert(ci_at(attrs, 1, na)) by {
        assert forall|j: int| 0 <= j < 4 implies ci_char_eq(attrs[1 + j], #[trigger] na[j]) by {
            assert(attrs[1 + j] == blk[6 + j]);
            assert(blk[6 + j] == "<data name=\""@[6 + j]);
        }
    }
    assert(attrs[5] == blk[10]);
    assert(attrs[5] == '=');
    assert(crate::text::skip_ws(attrs, 5) == 5);
    assert(attrs[6] == '"');
    assert(crate::text::skip_ws(attrs, 6) == 6);
    assert forall|i: int| 7 <= i < 7 + nn implies attrs[i] != '"' by {
        assert(attrs[i] == blk[12 + (i - 7)]);
    }
    assert(attrs[7 + nn] == blk[12 + nn + 0]);
    assert(attrs[7 + nn] == '"');
    lemma_first_quote_char(attrs, 7, 7 + nn);
    assert(crate::markup::assign_at(attrs, 1, na) == Some((7int, 7 + nn)));
    assert(attrs.len() > 7 + nn);
    assert(crate::markup::first_assign(attrs, 1, na) == Some((7int, 7 + nn)));
    assert(crate::markup::first_assign(attrs, 0, na) == Some((7int, 7 + nn)));
    assert(attrs.subrange(7, 7 + nn) =~= en) by {
        assert forall|i: int| 0 <= i < nn implies attrs.subrange(7, 7 + nn)[i] == en[i] by {
            assert(attrs[7 + i] == blk[12 + i]);
        }
    }
    crate::entities::law_unescape_escape(e.name);
}

#[verifier::spinoff_prover]
#[verifier::rlimit(60)]
proof fn lemma_first_quote_char(s: Seq<char>, from: int, k: int)
    requires
        0 <= from <= k < s.len(),
        s[k] == '"',
        forall|i: int| from <= i < k ==> s[i] != '"',
    ensures
        first_char_from(s, from, '"') == Some(k),
    decreases k - from,
{
    if from < k {
        lemma_first_quote_char(s, from + 1, k);
    }
}

#[verifier::spinoff_prover]
#[verifier::rlimit(100)]
proof fn lemma_added_value(e: EntryView, nl: Seq<char>, ind: Seq<char>)
    requires
        plain_layout(nl, ind),
    ensures
        ({
            let blk = added_block(e, nl, ind);
            let (u, v0, v1, w0, cr) = added_offsets(e, nl, ind);
            &&& first_element(blk, 0, value_open(), value_close()) == Some((v0 + 7, v1))
            &&& blk.subrange(v0 + 7, v1) == escaped(e.value)
        }),
{
    lemma_added_layout(e, nl, ind);
    lemma_escaped_plain(e.name);
    lemma_escaped_plain(e.value);
    reveal_strlit("<data name=\"");
    reveal_strlit("\" xml:space=\"preserve\">");
    reveal_strlit("<value>");
    reveal_strlit("</value>");
    let blk = added_block(e, nl, ind);
    let (u, v0, v1, w0, cr) = added_offsets(e, nl, ind);
    let en = escaped(e.name);
    let nn: int = en.len() as int;
    let ev = escaped(e.value);
    let vo = value_open();
    let vc = value_close();
    assert forall|q: int| 0 <= q < v0 implies element_at(blk, q, vo, vc) is None by {
        if q == 0 {
            assert(blk[1] == "<data name=\""@[1]);
            assert(!ci_char_eq(blk[q + 1], vo[1]));
        } else if q < 12 {
            assert(blk[q] == "<data name=\""@[q]);
            lemma_not_open_angle(blk[q + 0]);
        } else if q < 12 + nn {
            assert(blk[12 + (q - 12)] == en[q - 12]);
            lemma_not_open_angle(blk[q + 0]);
        } else if q < u {
            assert(blk[12 + nn + (q - 12 - nn)] == "\" xml:space=\"preserve\">"@[q - 12 - nn]);
            lemma_not_open_angle(blk[q + 0]);
        } else {
            assert(blk[q] != '<');
            lemma_not_open_angle(blk[q + 0]);
        }
    }
    assert(ci_at(blk, v0, vo)) by {
        assert forall|j: int| 0 <= j < 6 implies ci_char_eq(blk[v0 + j], #[trigger] vo[j]) by {
            assert(blk[v0 + j] == "<value>"@[j]);
        }
    }
    assert(blk[v0 + 6] == "<value>"@[6]);
    assert(boundary_after(blk, v0 + 6));
    assert(first_char_from(blk, v0 + 6, '>') == Some(v0 + 6));
    assert(ci_at(blk, v1, vc)) by {
        assert forall|j: int| 0 <= j < 8 implies ci_char_eq(blk[v1 + j], #[trigger] vc[j]) by {
            assert(blk[v1 + j] == "</value>"@[j]);
        }
    }
    assert forall|p: int| v0 + 7 <= p < v1 implies !ci_at(blk, p, vc) by {
        assert(blk[v0 + 7 + (p - v0 - 7)] == ev[p - v0 - 7]);
        lemma_not_open_angle(blk[p + 0]);
    }
    lemma_first_ci_found(blk, v0 + 7, vc, v1);
    lemma_first_element_at(blk, 0, v0, vo, vc);
    assert(blk.subrange(v0 + 7, v1) =~= ev) by {
        assert forall|i: int| 0 <= i < ev.len() implies blk.subrange(v0 + 7, v1)[i] == ev[i] by {
            assert(blk[v0 + 7 + i] == ev[i]);
        }
    }
}

#[verifier::spinoff_prover]
#[verifier::rlimit(100)]
proof fn lemma_added_comment(e: EntryView, nl: Seq<char>, ind: Seq<char>)
    requires
        plain_layout(nl, ind),
        e.comment is Some,
    ensures
        ({
            let blk = added_block(e, nl, ind);
            let (u, v0, v1, w0, cr) = added_offsets(e, nl, ind);
            let escc = escaped(e.comment->0);
            &&& first_element(blk, 0, comment_open(), comment_close()) == Some((w0 + 9, w0 + 9 + escc.len()))
            &&& blk.subrange(w0 + 9, w0 + 9 + escc.len()) == escc
            &&& v1 <= w0 + 9
            &&& w0 + 9 + escc.len() <= blk.len()
        }),
{
    lemma_added_layout(e, nl, ind);
    lemma_escaped_plain(e.name);
    lemma_escaped_plain(e.value);
    lemma_escaped_plain(e.comment->0);
    reveal_strlit("<data name=\"");
    reveal_strlit("\" xml:space=\"preserve\">");
    reveal_strlit("<value>");
    reveal_strlit("</value>");
    reveal_strlit("<comment>");
    reveal_strlit("</comment>");
    let blk = added_block(e, nl, ind);
    let (u, v0, v1, w0, cr) = added_offsets(e, nl, ind);
    let en = escaped(e.name);
    let nn: int = en.len() as int;
    let escc = escaped(e.comment->0);
    let nc: int = escc.len() as int;
    let co = comment_open();
    let cc = comment_close();
    assert forall|q: int| 0 <= q < w0 implies element_at(blk, q, co, cc) is None by {
        if q == 0 {
            assert(blk[1] == "<data name=\""@[1]);
            assert(!ci_char_eq(blk[q + 1], co[1]));
        } else if q < 12 {
            assert(blk[q] == "<data name=\""@[q]);
            lemma_not_open_angle(blk[q + 0]);
        } else if q < 12 + nn {
            assert(blk[12 + (q - 12)] == en[q - 12]);
            lemma_not_open_angle(blk[q + 0]);
        } else if q < u {
            assert(blk[12 + nn + (q - 12 - nn)] == "\" xml:space=\"preserve\">"@[q - 12 - nn]);
            lemma_not_open_angle(blk[q + 0]);
        } else if q == v0 {
            assert(blk[v0 + 1] == "<value>"@[1]);
            assert(!ci_char_eq(blk[q + 1], co[1]));
        } else if q == v1 {
            assert(blk[v1 + 1] == "</value>"@[1]);
            assert(!ci_char_eq(blk[q + 1], co[1]));
        } else {
            assert(blk[q] != '<');
            lemma_not_open_angle(blk[q + 0]);
        }
    }
    assert(ci_at(blk, w0, co)) by {
        assert forall|j: int| 0 <= j < 8 implies ci_char_eq(blk[w0 + j], #[trigger] co[j]) by {
            assert(blk[w0 + j] == "<comment>"@[j]);
        }
    }
    assert(blk[w0 + 8] == "<comment>"@[8]);
    assert(boundary_after(blk, w0 + 8));
    assert(first_char_from(blk, w0 + 8, '>') == Some(w0 + 8));
    assert(ci_at(blk, w0 + 9 + nc, cc)) by {
        assert forall|j: int| 0 <= j < 10 implies ci_char_eq(blk[w0 + 9 + nc + j], #[trigger] cc[j]) by {
            assert(blk[w0 + 9 + nc + j] == "</comment>"@[j]);
        }
    }
    assert forall|p: int| w0 + 9 <= p < w0 + 9 + nc implies !ci_at(blk, p, cc) by {
        assert(blk[w0 + 9 + (p - w0 - 9)] == escc[p - w0 - 9]);
        lemma_not_open_angle(blk[p + 0]);
    }
    lemma_first_ci_found(blk, w0 + 9, cc, w0 + 9 + nc);
    lemma_first_element_at(blk, 0, w0, co, cc);
    assert(blk.subrange(w0 + 9, w0 + 9 + nc) =~= escc) by {
        assert forall|i: int| 0 <= i < nc implies blk.subrange(w0 + 9, w0 + 9 + nc)[i] == escc[i] by {
            assert(blk[w0 + 9 + i] == escc[i]);
        }
    }
}

/// Every `<data` opened before `r` is an element that closes before `r`.
pub open spec fn data_closed_before(s: Seq<char>, r: int) -> bool {
    forall|q: int|
        0 <= q < r && ci_at(s, q, data_open()) && boundary_after(s, q + 5) ==> (element_at(
            s,
            q,
            data_open(),
            data_close(),
        ) matches Some((g, c)) && c + 7 <= r)
}

#[verifier::spinoff_prover]
#[verifier::rlimit(60)]
proof fn lemma_data_tags_ok()
    ensures
        tags_ok(data_open(), data_close()),
{
    assert(tags_ok(data_open(), data_close()));
}

#[verifier::spinoff_prover]
#[verifier::rlimit(60)]
proof fn lemma_layout_char(x: char)
    requires
        x == '\r' || x == '\n' || x == ' ' || x == '\t' || x == '<',
    ensures
        !crate::text::word_class(x),
        x != 'd' && x != 'D' && x != 'a' && x != 'A' && x != 't' && x != 'T',
{
}

/// The scan of the text with the added block reaches it.
#[verifier::spinoff_prover]
#[verifier::rlimit(100)]
proof fn lemma_scan_to_added(
    c0: Seq<char>,
    c1: Seq<char>,
    r: int,
    q0: int,
    blk: Seq<char>,
    g: int,
    cr: int,
    name: Seq<char>,
    pos: int,
)
    requires
        0 <= pos <= q0,
        r <= q0,
        r + 7 <= c0.len(),
        c0[r] == '<',
        agree_below(c0, c1, r),
        forall|i: int| r <= i < q0 ==> c1[i] == '\r' || c1[i] == '\n' || c1[i] == ' ' || c1[i] == '\t',
        q0 + blk.len() <= c1.len(),
        c1.subrange(q0, q0 + blk.len()) == blk,
        blk.len() == cr + 7,
        element_at(blk, 0, data_open(), data_close()) == Some((g, cr)),
        crate::resx::attr_value_of(blk.subrange(5, g), crate::markup::name_attr()) == Some(name),
        data_closed_before(c0, r),
        pos < r ==> named_block_from(c0, pos, name) is None,
    ensures
        named_block_from(c1, pos, name) == Some((q0, q0 + blk.len(), name)),
    decreases q0 - pos,
{
    lemma_data_tags_ok();
    let dopen = data_open();
    let dc = data_close();
    lemma_element_bounds(blk, 0, dopen, dc);
    if pos == q0 {
        let s2 = c1.subrange(q0, c1.len() as int);
        assert(agree_below(blk, s2, blk.len() as int));
        lemma_element_agree(blk, s2, 0, dopen, dc, blk.len() as int);
        assert(shifted_from(s2, c1, 0, q0));
        lemma_element_shift(s2, c1, 0, q0, 0, dopen, dc);
        assert(element_at(c1, q0, dopen, dc) == Some((g + q0, cr + q0)));
        assert(c1.subrange(q0 + 5, g + q0) =~= blk.subrange(5, g));
    } else if pos < r {
        lemma_element_bounds(c0, pos, dopen, dc);
        match element_at(c0, pos, dopen, dc) {
            Some((g2, c2)) => {
                assert(c2 + 7 <= r);
                lemma_element_agree(c0, c1, pos, dopen, dc, r);
                assert(c1.subrange(pos + 5, g2) =~= c0.subrange(pos + 5, g2));
                lemma_scan_to_added(c0, c1, r, q0, blk, g, cr, name, c2 + 7);
            },
            None => {
                assert(!(ci_at(c0, pos, dopen) && boundary_after(c0, pos + 5)));
                if pos + 5 < r {
                    lemma_ci_at_agree(c0, c1, pos, dopen, r);
                    assert(c0[pos + 5] == c1[pos + 5]);
                } else {
                    if q0 == r {
                        assert(c1[r] == blk[0]);
                    }
                    let x = c1[r];
                    lemma_layout_char(x);
                    lemma_layout_char(c0[r]);
                    if pos + 5 == r {
                        lemma_ci_at_agree(c0, c1, pos, dopen, r);
                    } else if ci_at(c1, pos, dopen) {
                        let j = r - pos;
                        assert(ci_char_eq(c1[pos + j], dopen[j]));
                        assert(false);
                    }
                }
                assert(element_at(c1, pos, dopen, dc) is None);
                lemma_scan_to_added(c0, c1, r, q0, blk, g, cr, name, pos + 1);
            },
        }
    } else {
        let x = c1[pos];
        lemma_not_open_angle(c1[pos + 0]);
        assert(element_at(c1, pos, dopen, dc) is None);
        lemma_scan_to_added(c0, c1, r, q0, blk, g, cr, name, pos + 1);
    }
}

#[verifier::spinoff_prover]
#[verifier::rlimit(60)]
proof fn lemma_update_identity_plain(
    path: Seq<char>,
    culture: Option<Seq<char>>,
    encoding_name: Seq<char>,
    first: Seq<char>,
    e: EntryView,
    st: int,
    en: int,
    n: Seq<char>,
    a: int,
)
    requires
        e.comment is None,
        0 <= st <= en <= first.len(),
        0 <= a,
        a + escaped(e.value).len() <= en - st,
        first_element(first.subrange(st, en), 0, value_open(), value_close()) == Some(
            (a, a + escaped(e.value).len()),
        ),
        first.subrange(st, en).subrange(a, a + escaped(e.value).len()) == escaped(e.value),
    ensures
        update_result(path, culture, encoding_name, first, e, st, en, n) matches Ok(
            (again, row, changed),
        ) && again == first && !changed && row.status == ReportStatus::Unchanged,
{
    let block2 = first.subrange(st, en);
    let esc = escaped(e.value);
    let replaced = block2.subrange(0, a) + esc + block2.subrange(a + esc.len(), block2.len() as int);
    assert(replaced =~= block2);
    assert(first.subrange(0, st) + replaced + first.subrange(en, first.len() as int) =~= first);
}

/// The text after adding: where the added block stands in it.
#[verifier::spinoff_prover]
#[verifier::rlimit(100)]
proof fn lemma_added_content(
    path: Seq<char>,
    culture: Option<Seq<char>>,
    encoding_name: Seq<char>,
    content: Seq<char>,
    e: EntryView,
) -> (q0: int)
    requires
        crate::resx::add_result(path, culture, encoding_name, content, e) is Ok,
    ensures
        ({
            let r = crate::text::last_exact_before(content, content.len() as int, "</root>"@)->0;
            let first = crate::resx::add_result(path, culture, encoding_name, content, e)->Ok_0.0;
            let blk = added_block(e, newline_of(content), block_indent_of(content));
            &&& plain_layout(newline_of(content), block_indent_of(content))
            &&& 0 <= r <= q0
            &&& r + 7 <= content.len()
            &&& content[r] == '<'
            &&& agree_below(content, first, r)
            &&& forall|i: int| r <= i < q0 ==> first[i] == '\r' || first[i] == '\n' || first[i] == ' ' || first[i] == '\t'
            &&& q0 + blk.len() <= first.len()
            &&& first.subrange(q0, q0 + blk.len()) == blk
        }),
{
    reveal_strlit("</root>");
    crate::text::lemma_last_exact_before_bounds(content, content.len() as int, "</root>"@);
    let r = crate::text::last_exact_before(content, content.len() as int, "</root>"@)->0;
    assert(content.subrange(r, r + 7)[0] == content[r]);
    let nl = newline_of(content);
    let ind = block_indent_of(content);
    lemma_newline_chars(content);
    lemma_indent_blank(content);
    let blk = added_block(e, nl, ind);
    let head = content.subrange(0, r);
    let sep: Seq<char> = if crate::resx::ends_with(head, nl) {
        Seq::empty()
    } else {
        nl
    };
    let nbt = crate::resx::new_block_text(content, e);
    assert(nbt =~= ind + blk + nl);
    let first = crate::resx::add_result(path, culture, encoding_name, content, e)->Ok_0.0;
    assert(first == head + sep + nbt + content.subrange(r, content.len() as int));
    let q0 = r + sep.len() + ind.len();
    assert(first =~= head + (sep + ind) + blk + (nl + content.subrange(r, content.len() as int)));
    assert(forall|i: int| 0 <= i < (sep + ind).len() ==> first[r + i] == (sep + ind)[i]);
    assert forall|i: int| r <= i < q0 implies first[i] == '\r' || first[i] == '\n' || first[i] == ' ' || first[i] == '\t' by {
        assert(first[r + (i - r)] == (sep + ind)[i - r]);
        if i - r < sep.len() {
            assert((sep + ind)[i - r] == sep[i - r]);
        } else {
            assert((sep + ind)[i - r] == ind[i - r - sep.len()]);
        }
    }
    assert(first.subrange(q0, q0 + blk.len()) =~= blk);
    q0
}

/// Adding an entry and then setting it again changes nothing the second
/// time.
#[verifier::spinoff_prover]
#[verifier::rlimit(100)]
proof fn lemma_add_again(
    path: Seq<char>,
    culture: Option<Seq<char>>,
    encoding_name: Seq<char>,
    content: Seq<char>,
    e: EntryView,
)
    requires
        named_block_from(content, 0, e.name) is None,
        crate::resx::add_result(path, culture, encoding_name, content, e) is Ok,
        data_closed_before(
            content,
            crate::text::last_exact_before(content, content.len() as int, "</root>"@)->0,
        ),
    ensures
        ({
            let first = crate::resx::add_result(path, culture, encoding_name, content, e)->Ok_0.0;
            upserted(path, culture, encoding_name, first, e, true) matches Ok((again, row, changed))
                && again == first && !changed && row.status == ReportStatus::Unchanged
        }),
{
    let q0 = lemma_added_content(path, culture, encoding_name, content, e);
    let r = crate::text::last_exact_before(content, content.len() as int, "</root>"@)->0;
    let first = crate::resx::add_result(path, culture, encoding_name, content, e)->Ok_0.0;
    let nl = newline_of(content);
    let ind = block_indent_of(content);
    let blk = added_block(e, nl, ind);
    let (u, v0, v1, w0, cr) = added_offsets(e, nl, ind);
    lemma_added_data(e, nl, ind);
    lemma_added_name(e, nl, ind);
    lemma_scan_to_added(content, first, r, q0, blk, u - 1, cr, e.name, 0);
    lemma_added_value(e, nl, ind);
    let en = q0 + blk.len();
    assert(first.subrange(q0, en) == blk);
    if e.comment is None {
        lemma_update_identity_plain(path, culture, encoding_name, first, e, q0, en, e.name, v0 + 7);
    } else {
        lemma_added_comment(e, nl, ind);
        lemma_update_identity_comment(path, culture, encoding_name, first, e, q0, en, e.name, v0 + 7, w0 + 9);
    }
}

#[verifier::spinoff_prover]
#[verifier::rlimit(60)]
proof fn lemma_update_again(
    path: Seq<char>,
    culture: Option<Seq<char>>,
    encoding_name: Seq<char>,
    content: Seq<char>,
    e: EntryView,
    create_missing: bool,
)
    requires
        named_block_from(content, 0, e.name) is Some,
        upserted(path, culture, encoding_name, content, e, create_missing) is Ok,
        e.comment is None || ({
            let (st, en, n) = named_block_from(content, 0, e.name)->0;
            comment_after_value(content.subrange(st, en)) || comment_before_value(content.subrange(st, en))
                || comment_absent(content.subrange(st, en))
        }),
    ensures
        ({
            let first = upserted(path, culture, encoding_name, content, e, create_missing)->Ok_0.0;
            upserted(path, culture, encoding_name, first, e, create_missing) matches Ok(
                (again, row, changed),
            ) && again == first && !changed && row.status == ReportStatus::Unchanged
        }),
{
    if e.comment is None {
        lemma_again_without_comment(path, culture, encoding_name, content, e, create_missing);
    } else {
        lemma_again_with_comment(path, culture, encoding_name, content, e, create_missing);
    }
}

/// Setting the same entry a second time changes nothing: the text stays as
/// the first call left it, and the report row says `unchanged`. This holds
/// of a resource that was updated (when the entry has a comment: of a block
/// whose first `<comment>` element follows or precedes its `<value>`
/// element without overlapping it, or that has no `<comment>` element and
/// whose first `</value>` closes its value)
/// and of one that was added (when every `<data` opened before `</root>` is
/// closed before it).
#[verifier::spinoff_prover]
#[verifier::rlimit(60)]
pub proof fn law_set_again_changes_nothing(
    path: Seq<char>,
    culture: Option<Seq<char>>,
    encoding_name: Seq<char>,
    content: Seq<char>,
    e: EntryView,
    create_missing: bool,
)
    requires
        upserted(path, culture, encoding_name, content, e, create_missing) is Ok,
        match named_block_from(content, 0, e.name) {
            Some((st, en, n)) => e.comment is None || comment_after_value(content.subrange(st, en))
                || comment_before_value(content.subrange(st, en)) || comment_absent(
                content.subrange(st, en),
            ),
            None => data_closed_before(
                content,
                crate::text::last_exact_before(content, content.len() as int, "</root>"@)->0,
            ),
        },
    ensures
        ({
            let first = upserted(path, culture, encoding_name, content, e, create_missing)->Ok_0.0;
            upserted(path, culture, encoding_name, first, e, create_missing) matches Ok(
                (again, row, changed),
            ) && again == first && !changed && row.status == ReportStatus::Unchanged
        }),
{
    if named_block_from(content, 0, e.name) is Some {
        lemma_update_again(path, culture, encoding_name, content, e, create_missing);
    } else {
        lemma_add_again(path, culture, encoding_name, content, e);
    }
}

/// Setting an entry reports a change exactly when the text changes: an
/// update is reported `updated` when its new block (value and comment)
/// differs from the old one and `unchanged` otherwise, and an addition is
/// always a change, reported `added`.
#[verifier::spinoff_prover]
#[verifier::rlimit(60)]
pub proof fn law_set_reports_change_exactly(
    path: Seq<char>,
    culture: Option<Seq<char>>,
    encoding_name: Seq<char>,
    content: Seq<char>,
    e: EntryView,
    create_missing: bool,
)
    requires
        upserted(path, culture, encoding_name, content, e, create_missing) is Ok,
    ensures
        ({
            let (text, row, changed) = upserted(path, culture, encoding_name, content, e, create_missing)->Ok_0;
            &&& changed <==> text != content
            &&& changed ==> (row.status == ReportStatus::Updated || row.status == ReportStatus::Added)
            &&& !changed ==> row.status == ReportStatus::Unchanged
        }),
{
    let (text, row, changed) = upserted(path, culture, encoding_name, content, e, create_missing)->Ok_0;
    match named_block_from(content, 0, e.name) {
        Some((st, en, n)) => {
            lemma_named_block_found(content, 0, e.name);
            lemma_named_block_at_least(content, 0, e.name);
            lemma_element_bounds(content, st, data_open(), data_close());
            let block = content.subrange(st, en);
            let (a, b) = first_element(block, 0, value_open(), value_close())->0;
            let replaced = block.subrange(0, a) + escaped(e.value) + block.subrange(b, block.len() as int);
            let new_block = match e.comment {
                Some(c) => comment_upserted(replaced, c),
                None => replaced,
            };
            assert(text == content.subrange(0, st) + new_block + content.subrange(en, content.len() as int));
            if new_block == block {
                assert(text =~= content);
            } else {
                if text == content {
                    assert(new_block.len() == block.len());
                    assert(text.subrange(st, en) =~= new_block);
                    assert(content.subrange(st, en) == block);
                    assert(false);
                }
            }
        },
        None => {
            reveal_strlit("<data name=\"");
            reveal_strlit("</root>");
            crate::text::lemma_last_exact_before_bounds(content, content.len() as int, "</root>"@);
            let r = crate::text::last_exact_before(content, content.len() as int, "</root>"@)->0;
            assert(crate::resx::new_block_text(content, e).len() >= 12);
            assert(text.len() > content.len());
        },
    }
}

} // verus!
