//! `.resx` processing without rewriting the whole document: scanning `<data>`
//! blocks for mojibake and repairing them, and setting resource values.

use vstd::prelude::*;
use crate::cli::Mode;
use crate::encoding::FileEncoding;
use crate::entities::{escape_chars, escaped, unescape_chars, unescaped};
use crate::markup::{
    culture_of_name, find_culture,
    comment_close, comment_close_lit, comment_open, comment_open_lit, data_close, data_close_lit,
    data_indent_of, find_data_indent,
    data_open, data_open_lit, element_at, element_at_exec, elements_from, find_data_name,
    find_elements, find_first_element, find_attr_value, first_data_name, first_element,
    first_assign, lemma_element_bounds, name_attr, name_attr_lit, value_close, value_close_lit, value_open,
    value_open_lit,
};
use crate::mojibake::{count_markers, marker_count, repair_mojibake_text, repaired, score};
use crate::report::{opt_view, report_row, row_of, rows_view, ReportKind, ReportRow, ReportStatus, RowView};
use crate::text::{
    byte_offset, byte_offset_of, chars_of, exact_match, find_exact, first_ci_from, first_exact_from, is_white_space, push_all,
    slice_to_vec, string_from_chars, white_space,
};

verus! {

/// A piece of a `<data>` block to look at: its range and what it is.
pub type Target = (usize, usize, ReportKind);

// ---------------------------------------------------------------------
// Binary and file-reference resources are left alone.

pub open spec fn ascii_lower_char(c: char) -> char {
    if 'A' <= c && c <= 'Z' {
        ((c as int) + 32) as char
    } else {
        c
    }
}

pub open spec fn ascii_lower(s: Seq<char>) -> Seq<char> {
    s.map_values(|c: char| ascii_lower_char(c))
}

pub fn to_ascii_lower(s: &[char]) -> (res: Vec<char>)
    ensures
        res@ == ascii_lower(s@),
{
    let mut out: Vec<char> = Vec::new();
    let mut i: usize = 0;
    while i < s.len()
        invariant
            i <= s@.len(),
            out@ == ascii_lower(s@.take(i as int)),
        decreases s@.len() - i,
    {
        let c = s[i];
        let l = if 'A' <= c && c <= 'Z' {
            char_plus_32(c)
        } else {
            c
        };
        out.push(l);
        assert(ascii_lower(s@.take(i + 1)) =~= ascii_lower(s@.take(i as int)).push(l));
        i += 1;
    }
    assert(s@.take(i as int) =~= s@);
    out
}

/// The lower-case ASCII letter of an upper-case one.
fn char_plus_32(c: char) -> (res: char)
    requires
        'A' <= c && c <= 'Z',
    ensures
        res == ascii_lower_char(c),
{
    let b = (c as u32 + 32) as u8;
    b as char
}

pub open spec fn contains(t: Seq<char>, pat: Seq<char>) -> bool {
    first_exact_from(t, 0, pat) is Some
}

fn contains_exec(t: &[char], pat: &[char]) -> (res: bool)
    ensures
        res == contains(t@, pat@),
{
    find_exact(t, 0, pat).is_some()
}

pub open spec fn is_base64_char(c: char) -> bool {
    ('a' <= c && c <= 'z') || ('A' <= c && c <= 'Z') || ('0' <= c && c <= '9') || c == '+' || c
        == '/' || c == '='
}

/// The number of characters of `t` that are not white space.
pub open spec fn non_ws_count(t: Seq<char>) -> nat
    decreases t.len(),
{
    if t.len() == 0 {
        0
    } else {
        non_ws_count(t.drop_last()) + (if is_white_space(t.last()) {
            0nat
        } else {
            1nat
        })
    }
}

/// `t` without its white space is at least 128 characters of the Base64
/// alphabet, a multiple of 4 long.
pub open spec fn base64_like(t: Seq<char>) -> bool {
    &&& non_ws_count(t) >= 128
    &&& non_ws_count(t) % 4 == 0
    &&& forall|i: int| 0 <= i < t.len() && !is_white_space(t[i]) ==> is_base64_char(t[i])
}

proof fn lemma_non_ws_count_le(t: Seq<char>)
    ensures
        non_ws_count(t) <= t.len(),
    decreases t.len(),
{
    if t.len() > 0 {
        lemma_non_ws_count_le(t.drop_last());
    }
}

/// Whether a value looks like Base64 data rather than text.
pub fn is_base64_like(text: &[char]) -> (res: bool)
    ensures
        res == base64_like(text@),
{
    let mut count: usize = 0;
    let mut all_ok = true;
    let mut i: usize = 0;
    while i < text.len()
        invariant
            i <= text@.len(),
            count == non_ws_count(text@.take(i as int)),
            count <= i,
            all_ok == (forall|k: int|
                0 <= k < i && !is_white_space(text@[k]) ==> is_base64_char(text@[k])),
        decreases text@.len() - i,
    {
        let c = text[i];
        assert(text@.take(i + 1).drop_last() =~= text@.take(i as int));
        if !white_space(c) {
            count += 1;
            let ok = ('a' <= c && c <= 'z') || ('A' <= c && c <= 'Z') || ('0' <= c && c <= '9')
                || c == '+' || c == '/' || c == '=';
            if !ok {
                all_ok = false;
            }
        }
        i += 1;
    }
    assert(text@.take(i as int) =~= text@);
    count >= 128 && count % 4 == 0 && all_ok
}

/// The markers in a `<data>` tag's attributes of resources that are not text.
pub open spec fn non_text_markers() -> Seq<Seq<char>> {
    seq![
        "resxfileref"@,
        "system.drawing"@,
        "system.byte[]"@,
        "application/x-microsoft.net.object"@,
        "application/octet-stream"@,
        "base64"@,
    ]
}

/// A `<data>` block is not text when its attributes, in lower case, mention
/// a file reference, a drawing, a byte array, a serialized object or Base64,
/// or when its first value looks like Base64.
pub open spec fn is_non_text(attrs: Seq<char>, block: Seq<char>) -> bool {
    let lower = ascii_lower(attrs);
    if exists|i: int| 0 <= i < non_text_markers().len() && contains(lower, #[trigger] non_text_markers()[i]) {
        true
    } else {
        match first_element(block, 0, value_open(), value_close()) {
            Some((a, b)) => base64_like(block.subrange(a, b)),
            None => false,
        }
    }
}

fn marker_literals() -> (res: Vec<Vec<char>>)
    ensures
        res@.len() == non_text_markers().len(),
        forall|i: int| 0 <= i < res@.len() ==> (#[trigger] res@[i])@ == non_text_markers()[i],
{
    let mut res: Vec<Vec<char>> = Vec::new();
    res.push(chars_of("resxfileref"));
    res.push(chars_of("system.drawing"));
    res.push(chars_of("system.byte[]"));
    res.push(chars_of("application/x-microsoft.net.object"));
    res.push(chars_of("application/octet-stream"));
    res.push(chars_of("base64"));
    res
}

/// Whether a `<data>` block holds something else than text.
pub fn is_non_text_data(attrs: &[char], block: &[char]) -> (res: bool)
    ensures
        res == is_non_text(attrs@, block@),
{
    let lower = to_ascii_lower(attrs);
    let markers = marker_literals();
    let mut i: usize = 0;
    while i < markers.len()
        invariant
            i <= markers@.len(),
            lower@ == ascii_lower(attrs@),
            markers@.len() == non_text_markers().len(),
            forall|k: int| 0 <= k < markers@.len() ==> (#[trigger] markers@[k])@ == non_text_markers()[k],
            forall|k: int| 0 <= k < i ==> !contains(lower@, #[trigger] non_text_markers()[k]),
        decreases markers@.len() - i,
    {
        if contains_exec(&lower, markers[i].as_slice()) {
            assert(contains(lower@, non_text_markers()[i as int]));
            return true;
        }
        i += 1;
    }
    let vo = value_open_lit();
    let vc = value_close_lit();
    match find_first_element(block, &vo, &vc) {
        Some((a, b)) => is_base64_like(&block[a..b]),
        None => false,
    }
}

// ---------------------------------------------------------------------
// The pieces of a block to look at: the texts of its values and comments
// and, when asked, the value of its `name` attribute, in the order of
// their starts (values before comments before the name at equal starts).

/// Merges two lists of targets ordered by start; at equal starts the first
/// list comes first.
pub open spec fn merge_targets(a: Seq<Target>, b: Seq<Target>) -> Seq<Target>
    decreases a.len() + b.len(),
{
    if a.len() == 0 {
        b
    } else if b.len() == 0 {
        a
    } else if a[0].0 <= b[0].0 {
        seq![a[0]] + merge_targets(a.skip(1), b)
    } else {
        seq![b[0]] + merge_targets(a, b.skip(1))
    }
}

/// The element ranges as targets of kind `kind`.
pub open spec fn as_targets(r: Seq<(int, int)>, kind: ReportKind) -> Seq<Target> {
    Seq::new(r.len(), |k: int| (r[k].0 as usize, r[k].1 as usize, kind))
}

/// The targets of a block, in order.
pub open spec fn block_targets(block: Seq<char>, include_attributes: bool) -> Seq<Target> {
    let values = as_targets(elements_from(block, 0, value_open(), value_close()), ReportKind::Value);
    let comments = as_targets(
        elements_from(block, 0, comment_open(), comment_close()),
        ReportKind::Comment,
    );
    let key: Seq<Target> = if include_attributes {
        match first_data_name(block, 0) {
            Some((a, b)) => seq![(a as usize, b as usize, ReportKind::Key)],
            None => Seq::empty(),
        }
    } else {
        Seq::empty()
    };
    merge_targets(merge_targets(values, comments), key)
}

/// Targets that can be rewritten one after the other: each lies inside the
/// block and starts no earlier than the previous one ends.
pub open spec fn targets_ordered(t: Seq<Target>, len: int) -> bool {
    &&& forall|k: int| 0 <= k < t.len() ==> (#[trigger] t[k]).0 <= t[k].1 <= len
    &&& forall|k: int| 0 < k < t.len() ==> t[k - 1].1 <= (#[trigger] t[k]).0
}

fn merge_target_lists(a: &Vec<Target>, b: &Vec<Target>) -> (res: Vec<Target>)
    ensures
        res@ == merge_targets(a@, b@),
{
    let mut out: Vec<Target> = Vec::new();
    let mut i: usize = 0;
    let mut j: usize = 0;
    assert(a@.skip(0) =~= a@);
    assert(b@.skip(0) =~= b@);
    while i < a.len() || j < b.len()
        invariant
            i <= a@.len(),
            j <= b@.len(),
            out@ + merge_targets(a@.skip(i as int), b@.skip(j as int)) == merge_targets(a@, b@),
        decreases a@.len() - i + b@.len() - j,
    {
        let ghost ra = a@.skip(i as int);
        let ghost rb = b@.skip(j as int);
        if j >= b.len() || (i < a.len() && a[i].0 <= b[j].0) {
            assert(ra.skip(1) =~= a@.skip(i + 1));
            proof {
                if rb.len() == 0 {
                    assert(ra =~= seq![ra[0]] + ra.skip(1));
                    assert(merge_targets(ra.skip(1), rb) == ra.skip(1));
                }
            }
            out.push(a[i]);
            assert(out@ + merge_targets(a@.skip(i + 1), b@.skip(j as int)) =~= merge_targets(a@, b@));
            i += 1;
        } else {
            assert(rb.skip(1) =~= b@.skip(j + 1));
            proof {
                if ra.len() == 0 {
                    assert(rb =~= seq![rb[0]] + rb.skip(1));
                    assert(merge_targets(ra, rb.skip(1)) == rb.skip(1));
                }
            }
            out.push(b[j]);
            assert(out@ + merge_targets(a@.skip(i as int), b@.skip(j + 1)) =~= merge_targets(a@, b@));
            j += 1;
        }
    }
    assert(a@.skip(i as int) =~= Seq::<Target>::empty());
    assert(b@.skip(j as int) =~= Seq::<Target>::empty());
    assert(out@ =~= merge_targets(a@, b@));
    out
}

fn ranges_to_targets(r: &Vec<(usize, usize)>, kind: ReportKind, Ghost(spec_r): Ghost<Seq<(int, int)>>) -> (res: Vec<Target>)
    requires
        r@.len() == spec_r.len(),
        forall|k: int| 0 <= k < r@.len() ==> (r@[k].0 as int, r@[k].1 as int) == #[trigger] spec_r[k],
    ensures
        res@ == as_targets(spec_r, kind),
{
    let mut out: Vec<Target> = Vec::new();
    let mut i: usize = 0;
    while i < r.len()
        invariant
            i <= r@.len(),
            r@.len() == spec_r.len(),
            forall|k: int| 0 <= k < r@.len() ==> (r@[k].0 as int, r@[k].1 as int) == #[trigger] spec_r[k],
            out@ =~= as_targets(spec_r, kind).take(i as int),
        decreases r@.len() - i,
    {
        let (a, b) = r[i];
        out.push((a, b, kind));
        assert(spec_r[i as int] == (a as int, b as int));
        i += 1;
    }
    out
}

/// The targets of a block, in order.
pub fn block_targets_exec(block: &[char], include_attributes: bool) -> (res: Vec<Target>)
    ensures
        res@ == block_targets(block@, include_attributes),
{
    let vo = value_open_lit();
    let vc = value_close_lit();
    let co = comment_open_lit();
    let cc = comment_close_lit();
    let values = find_elements(block, &vo, &vc);
    let comments = find_elements(block, &co, &cc);
    let vt = ranges_to_targets(&values, ReportKind::Value, Ghost(elements_from(block@, 0, value_open(), value_close())));
    let ct = ranges_to_targets(
        &comments,
        ReportKind::Comment,
        Ghost(elements_from(block@, 0, comment_open(), comment_close())),
    );
    let first = merge_target_lists(&vt, &ct);
    let mut key: Vec<Target> = Vec::new();
    if include_attributes {
        match find_data_name(block) {
            Some((a, b)) => {
                key.push((a, b, ReportKind::Key));
            },
            None => {},
        }
    }
    assert(key@ =~= (if include_attributes {
        match first_data_name(block@, 0) {
            Some((a, b)) => seq![(a as usize, b as usize, ReportKind::Key)],
            None => Seq::<Target>::empty(),
        }
    } else {
        Seq::<Target>::empty()
    }));
    merge_target_lists(&first, &key)
}

pub fn targets_in_order(t: &Vec<Target>, len: usize) -> (res: bool)
    ensures
        res == targets_ordered(t@, len as int),
{
    let mut k: usize = 0;
    while k < t.len()
        invariant
            k <= t@.len(),
            forall|j: int| 0 <= j < k ==> (#[trigger] t@[j]).0 <= t@[j].1 <= len,
            forall|j: int| 0 < j < k ==> t@[j - 1].1 <= (#[trigger] t@[j]).0,
        decreases t@.len() - k,
    {
        if !(t[k].0 <= t[k].1 && t[k].1 <= len) {
            return false;
        }
        if k > 0 && t[k - 1].1 > t[k].0 {
            return false;
        }
        k += 1;
    }
    true
}

// ---------------------------------------------------------------------
// Scanning and repairing.

/// What the scan of a file's text is told.
pub struct ScanSettings {
    pub path: Seq<char>,
    pub culture: Option<Seq<char>>,
    pub encoding_name: Seq<char>,
    pub mode: Mode,
    pub max_passes: nat,
    pub decode_html_entities: bool,
    pub include_attributes: bool,
    pub apply_changes: bool,
}

/// The value of the attribute `attr` in the attribute text `attrs`, unescaped.
pub open spec fn attr_value_of(attrs: Seq<char>, attr: Seq<char>) -> Option<Seq<char>> {
    match first_assign(attrs, 0, attr) {
        Some((a, b)) => Some(unescaped(attrs.subrange(a, b))),
        None => None,
    }
}

/// The value of the attribute `name` in the attribute text `attrs` (the
/// attribute's name matching in any case), unescaped.
pub fn attr_value(attrs: &str, name: &str) -> (res: Option<String>)
    ensures
        match res {
            Some(v) => attr_value_of(attrs@, name@) == Some(v@),
            None => attr_value_of(attrs@, name@) is None,
        },
{
    let a = chars_of(attrs);
    let n = chars_of(name);
    match find_attr_value(&a, &n) {
        Some((s, e)) => {
            let v = unescape_chars(&a[s..e]);
            Some(string_from_chars(&v))
        },
        None => None,
    }
}

/// What looking at one target (with raw text `raw`) yields: the text to
/// write in its place, the report rows, and whether it was repaired.
#[verifier::opaque]
pub open spec fn scan_target(cx: ScanSettings, raw: Seq<char>, kind: ReportKind, resource: Seq<char>) -> (
    Seq<char>,
    Seq<RowView>,
    bool,
) {
    let decoded = unescaped(raw);
    if score(decoded) == 0 && !cx.decode_html_entities && cx.mode != Mode::Aggressive {
        (raw, Seq::empty(), false)
    } else {
        let out = repaired(
            decoded,
            cx.mode,
            cx.max_passes,
            cx.decode_html_entities || cx.mode == Mode::Aggressive,
        );
        let used = match out.encoding_used {
            Some(u) => u,
            None => Seq::empty(),
        };
        let piece = if out.changed && cx.apply_changes {
            escaped(out.text)
        } else {
            raw
        };
        let row = |status: ReportStatus|
            row_of(
                cx.path,
                cx.culture,
                cx.encoding_name,
                resource,
                kind,
                status,
                out.before_score,
                out.after_score,
                used,
                decoded,
                out.text,
            );
        let rows = (if out.changed {
            seq![row(ReportStatus::Corrected)]
        } else {
            Seq::empty()
        }) + (if out.still_suspicious {
            seq![row(ReportStatus::StillSuspicious)]
        } else {
            Seq::empty()
        });
        (piece, rows, out.changed)
    }
}

/// What looking at the targets of `block` from the `k`-th on yields, the
/// previous target having ended at `last`.
pub open spec fn scan_targets(
    cx: ScanSettings,
    block: Seq<char>,
    t: Seq<Target>,
    k: int,
    last: int,
    resource: Seq<char>,
) -> (Seq<char>, Seq<RowView>, bool)
    decreases t.len() - k,
{
    if k < 0 || k >= t.len() {
        (block.subrange(last, block.len() as int), Seq::empty(), false)
    } else {
        let (s, e, kind) = t[k];
        let (piece, rows, changed) = scan_target(cx, block.subrange(s as int, e as int), kind, resource);
        let (rest, rest_rows, rest_changed) = scan_targets(cx, block, t, k + 1, e as int, resource);
        (block.subrange(last, s as int) + piece + rest, rows + rest_rows, changed || rest_changed)
    }
}

pub open spec fn settings(
    path: &str,
    enc: &FileEncoding,
    culture: Option<&str>,
    mode: Mode,
    max_passes: usize,
    decode_html_entities: bool,
    include_attributes: bool,
    apply_changes: bool,
) -> ScanSettings {
    ScanSettings {
        path: path@,
        culture: opt_view(culture),
        encoding_name: enc.name@,
        mode,
        max_passes: max_passes as nat,
        decode_html_entities,
        include_attributes,
        apply_changes,
    }
}

fn process_target(
    path: &str,
    enc: &FileEncoding,
    culture: Option<&str>,
    mode: Mode,
    max_passes: usize,
    decode_html_entities: bool,
    include_attributes: bool,
    apply_changes: bool,
    resource: &str,
    kind: ReportKind,
    raw: &[char],
) -> (res: (Vec<char>, Vec<ReportRow>, bool))
    ensures
        (res.0@, rows_view(res.1@), res.2) == scan_target(
            settings(path, enc, culture, mode, max_passes, decode_html_entities, include_attributes, apply_changes),
            raw@,
            kind,
            resource@,
        ),
{
    let ghost cx = settings(path, enc, culture, mode, max_passes, decode_html_entities, include_attributes, apply_changes);
    reveal(scan_target);
    let decoded = unescape_chars(raw);
    let before_count = count_markers(&decoded);
    let mut rows: Vec<ReportRow> = Vec::new();
    if before_count == 0 && !decode_html_entities && mode != Mode::Aggressive {
        let mut same: Vec<char> = Vec::new();
        same.extend_from_slice(raw);
        assert(same@ =~= raw@);
        assert(rows_view(rows@) =~= Seq::<RowView>::empty());
        return (same, rows, false);
    }
    let decoded_text = string_from_chars(&decoded);
    let outcome = repair_mojibake_text(
        decoded_text.as_str(),
        mode,
        max_passes,
        decode_html_entities || mode == Mode::Aggressive,
    );
    let used: &str = match &outcome.encoding_used {
        Some(u) => u.as_str(),
        None => "",
    };
    proof {
        reveal_strlit("");
    }
    let piece: Vec<char> = if outcome.changed && apply_changes {
        let fixed = chars_of(outcome.text.as_str());
        escape_chars(&fixed)
    } else {
        let mut same: Vec<char> = Vec::new();
        same.extend_from_slice(raw);
        assert(same@ =~= raw@);
        same
    };
    if outcome.changed {
        let row = report_row(
            path,
            culture,
            enc,
            resource,
            kind,
            ReportStatus::Corrected,
            outcome.before_score,
            outcome.after_score,
            used,
            decoded_text.as_str(),
            outcome.text.as_str(),
        );
        rows.push(row);
    }
    if outcome.still_suspicious {
        let row = report_row(
            path,
            culture,
            enc,
            resource,
            kind,
            ReportStatus::StillSuspicious,
            outcome.before_score,
            outcome.after_score,
            used,
            decoded_text.as_str(),
            outcome.text.as_str(),
        );
        rows.push(row);
    }
    let ghost expected = scan_target(cx, raw@, kind, resource@);
    proof {
        let out = repaired(
            decoded@,
            mode,
            max_passes as nat,
            decode_html_entities || mode == Mode::Aggressive,
        );
        assert(outcome@ == out);
        let u = match out.encoding_used {
            Some(x) => x,
            None => Seq::<char>::empty(),
        };
        assert(used@ == u);
        let r1 = row_of(cx.path, cx.culture, cx.encoding_name, resource@, kind, ReportStatus::Corrected, out.before_score, out.after_score, u, decoded@, out.text);
        let r2 = row_of(cx.path, cx.culture, cx.encoding_name, resource@, kind, ReportStatus::StillSuspicious, out.before_score, out.after_score, u, decoded@, out.text);
        let e1: Seq<RowView> = if out.changed { seq![r1] } else { Seq::empty() };
        let e2: Seq<RowView> = if out.still_suspicious { seq![r2] } else { Seq::empty() };
        assert(expected.1 == e1 + e2);
        assert(rows_view(rows@) =~= e1 + e2);
    }
    (piece, rows, outcome.changed)
}

pub proof fn lemma_rows_view_concat(a: Seq<ReportRow>, b: Seq<ReportRow>)
    ensures
        rows_view(a + b) == rows_view(a) + rows_view(b),
{
    assert(rows_view(a + b) =~= rows_view(a) + rows_view(b));
}

#[verifier::spinoff_prover]
#[verifier::rlimit(40)]
fn process_data_block(
    path: &str,
    block: &[char],
    enc: &FileEncoding,
    culture: Option<&str>,
    mode: Mode,
    max_passes: usize,
    decode_html_entities: bool,
    include_attributes: bool,
    apply_changes: bool,
    resource: &str,
) -> (res: (Vec<char>, Vec<ReportRow>, bool))
    requires
        targets_ordered(block_targets(block@, include_attributes), block@.len() as int),
    ensures
        (res.0@, rows_view(res.1@), res.2) == scan_targets(
            settings(path, enc, culture, mode, max_passes, decode_html_entities, include_attributes, apply_changes),
            block@,
            block_targets(block@, include_attributes),
            0,
            0,
            resource@,
        ),
{
    let ghost cx = settings(path, enc, culture, mode, max_passes, decode_html_entities, include_attributes, apply_changes);
    let targets = block_targets_exec(block, include_attributes);
    let ghost total = scan_targets(cx, block@, targets@, 0, 0, resource@);
    let mut out: Vec<char> = Vec::new();
    let mut rows: Vec<ReportRow> = Vec::new();
    let mut changed_any = false;
    let mut last: usize = 0;
    let mut k: usize = 0;
    assert(rows_view(rows@) =~= Seq::<RowView>::empty());
    assert(out@ + total.0 =~= total.0);
    while k < targets.len()
        invariant
            k <= targets@.len(),
            last <= block@.len(),
            targets@ == block_targets(block@, include_attributes),
            targets_ordered(targets@, block@.len() as int),
            k == 0 ==> last == 0,
            k > 0 ==> last == targets@[k - 1].1,
            total == scan_targets(cx, block@, targets@, 0, 0, resource@),
            cx == settings(path, enc, culture, mode, max_passes, decode_html_entities, include_attributes, apply_changes),
            ({
                let rest = scan_targets(cx, block@, targets@, k as int, last as int, resource@);
                &&& out@ + rest.0 == total.0
                &&& rows_view(rows@) + rest.1 == total.1
                &&& (changed_any || rest.2) == total.2
            }),
        decreases targets@.len() - k,
    {
        let (s, e, kind) = targets[k];
        assert(targets@[k as int] == (s, e, kind));
        let ghost rest = scan_targets(cx, block@, targets@, k as int, last as int, resource@);
        let ghost next = scan_targets(cx, block@, targets@, k + 1, e as int, resource@);
        let (piece, target_rows, changed) = process_target(
            path,
            enc,
            culture,
            mode,
            max_passes,
            decode_html_entities,
            include_attributes,
            apply_changes,
            resource,
            kind,
            &block[s..e],
        );
        let ghost st = scan_target(cx, block@.subrange(s as int, e as int), kind, resource@);
        assert(rest == (block@.subrange(last as int, s as int) + st.0 + next.0, st.1 + next.1, st.2 || next.2));
        let ghost old_rows = rows@;
        let ghost old_out = out@;
        let ghost piece_rows = target_rows@;
        out.extend_from_slice(&block[last..s]);
        out.extend_from_slice(piece.as_slice());
        let mut target_rows = target_rows;
        rows.append(&mut target_rows);
        proof {
            lemma_rows_view_concat(old_rows, piece_rows);
            assert(rows@ == old_rows + piece_rows);
            assert(out@ == old_out + block@.subrange(last as int, s as int) + piece@);
            assert(out@ + next.0 =~= old_out + rest.0);
            assert(rows_view(rows@) + next.1 =~= rows_view(old_rows) + rest.1);
        }
        if changed {
            changed_any = true;
        }
        last = e;
        k += 1;
    }
    out.extend_from_slice(&block[last..block.len()]);
    (out, rows, changed_any)
}

/// The resource name of a `<data>` block with attribute text `attrs`.
pub open spec fn resource_name(attrs: Seq<char>) -> Seq<char> {
    match attr_value_of(attrs, name_attr()) {
        Some(v) => v,
        None => "(unknown)"@,
    }
}

/// What scanning one `<data>` block yields: blocks that hold something
/// else than text are kept as they are.
#[verifier::opaque]
pub open spec fn scan_block(cx: ScanSettings, attrs: Seq<char>, block: Seq<char>) -> (Seq<char>, Seq<RowView>, bool) {
    if is_non_text(attrs, block) {
        (block, Seq::empty(), false)
    } else {
        scan_targets(cx, block, block_targets(block, cx.include_attributes), 0, 0, resource_name(attrs))
    }
}

/// A `<data>` block can be scanned without two of its targets overlapping.
pub open spec fn block_processable(attrs: Seq<char>, block: Seq<char>, include_attributes: bool) -> bool {
    is_non_text(attrs, block) || targets_ordered(
        block_targets(block, include_attributes),
        block.len() as int,
    )
}

/// What scanning `s` from `pos` on yields: the `<data>` blocks found one
/// after the other are scanned, the text between them is kept.
pub open spec fn scan_text(cx: ScanSettings, s: Seq<char>, pos: int) -> (Seq<char>, Seq<RowView>, bool)
    decreases s.len() - pos,
{
    if pos < 0 || pos >= s.len() {
        (Seq::empty(), Seq::empty(), false)
    } else {
        match element_at(s, pos, data_open(), data_close()) {
            Some((g, c)) => {
                proof {
                    lemma_element_bounds(s, pos, data_open(), data_close());
                }
                let here = scan_block(cx, s.subrange(pos + 5, g), s.subrange(pos, c + 7));
                let rest = scan_text(cx, s, c + 7);
                (here.0 + rest.0, here.1 + rest.1, here.2 || rest.2)
            },
            None => {
                let rest = scan_text(cx, s, pos + 1);
                (seq![s[pos]] + rest.0, rest.1, rest.2)
            },
        }
    }
}

/// Every `<data>` block of `s` from `pos` on can be scanned.
pub open spec fn processable_from(s: Seq<char>, pos: int, include_attributes: bool) -> bool
    decreases s.len() - pos,
{
    if pos < 0 || pos >= s.len() {
        true
    } else {
        match element_at(s, pos, data_open(), data_close()) {
            Some((g, c)) => {
                proof {
                    lemma_element_bounds(s, pos, data_open(), data_close());
                }
                block_processable(s.subrange(pos + 5, g), s.subrange(pos, c + 7), include_attributes)
                    && processable_from(s, c + 7, include_attributes)
            },
            None => processable_from(s, pos + 1, include_attributes),
        }
    }
}

fn resource_of(attrs: &[char]) -> (res: String)
    ensures
        res@ == resource_name(attrs@),
{
    let name_lit = name_attr_lit();
    match find_attr_value(attrs, &name_lit) {
        Some((a, b)) => {
            let v = unescape_chars(&attrs[a..b]);
            string_from_chars(&v)
        },
        None => "(unknown)".to_owned(),
    }
}

fn block_processable_exec(attrs: &[char], block: &[char], include_attributes: bool) -> (res: bool)
    ensures
        res == block_processable(attrs@, block@, include_attributes),
{
    if is_non_text_data(attrs, block) {
        return true;
    }
    let targets = block_targets_exec(block, include_attributes);
    targets_in_order(&targets, block.len())
}

/// Whether every `<data>` block of `content` can be scanned: in the blocks
/// that hold text, no two of the pieces looked at (values, comments and,
/// when asked, the `name` attribute) overlap.
pub fn resx_text_processable(content: &str, include_attributes: bool) -> (res: bool)
    ensures
        res == processable_from(content@, 0, include_attributes),
{
    let s = chars_of(content);
    let open = data_open_lit();
    let close = data_close_lit();
    let mut pos: usize = 0;
    while pos < s.len()
        invariant
            open@ == data_open(),
            close@ == data_close(),
            s@ == content@,
            processable_from(s@, 0, include_attributes) == processable_from(
                s@,
                pos as int,
                include_attributes,
            ),
        decreases s@.len() - pos,
    {
        match element_at_exec(&s, pos, &open, &close) {
            Some((g, c)) => {
                proof {
                    lemma_element_bounds(s@, pos as int, data_open(), data_close());
                }
                if !block_processable_exec(&s[pos + 5..g], &s[pos..c + 7], include_attributes) {
                    return false;
                }
                pos = c + 7;
            },
            None => {
                pos += 1;
            },
        }
    }
    true
}

/// Scans the text of a `.resx` file for mojibake in its `<data>` blocks:
/// values, comments and, with `include_attributes`, resource names. Blocks
/// that hold binary data or file references are skipped. Returns the text
/// with repairs applied when `apply_changes` (the input otherwise), the
/// report rows and whether any repair was found.
#[verifier::spinoff_prover]
#[verifier::rlimit(40)]
pub fn process_resx_text(
    path: &str,
    content: &str,
    enc: &FileEncoding,
    culture: Option<&str>,
    mode: Mode,
    max_passes: usize,
    decode_html_entities: bool,
    include_attributes: bool,
    apply_changes: bool,
) -> (res: Result<(String, Vec<ReportRow>, bool), crate::error::AppError>)
    requires
        processable_from(content@, 0, include_attributes),
    ensures
        match res {
            Ok((t, rows, changed)) => (t@, rows_view(rows@), changed) == scan_text(
                settings(path, enc, culture, mode, max_passes, decode_html_entities, include_attributes, apply_changes),
                content@,
                0,
            ),
            Err(_) => false,
        },
{
    let ghost cx = settings(path, enc, culture, mode, max_passes, decode_html_entities, include_attributes, apply_changes);
    let s = chars_of(content);
    let open = data_open_lit();
    let close = data_close_lit();
    let ghost total = scan_text(cx, s@, 0);
    let mut out: Vec<char> = Vec::new();
    let mut rows: Vec<ReportRow> = Vec::new();
    let mut changed_any = false;
    let mut pos: usize = 0;
    assert(rows_view(rows@) =~= Seq::<RowView>::empty());
    assert(out@ + total.0 =~= total.0);
    while pos < s.len()
        invariant
            open@ == data_open(),
            close@ == data_close(),
            s@ == content@,
            pos <= s@.len(),
            total == scan_text(cx, s@, 0),
            cx == settings(path, enc, culture, mode, max_passes, decode_html_entities, include_attributes, apply_changes),
            processable_from(s@, pos as int, include_attributes),
            ({
                let rest = scan_text(cx, s@, pos as int);
                &&& out@ + rest.0 == total.0
                &&& rows_view(rows@) + rest.1 == total.1
                &&& (changed_any || rest.2) == total.2
            }),
        decreases s@.len() - pos,
    {
        let ghost rest = scan_text(cx, s@, pos as int);
        match element_at_exec(&s, pos, &open, &close) {
            Some((g, c)) => {
                proof {
                    lemma_element_bounds(s@, pos as int, data_open(), data_close());
                }
                let attrs = &s[pos + 5..g];
                let block = &s[pos..c + 7];
                let ghost next = scan_text(cx, s@, c + 7);
                let ghost here = scan_block(cx, attrs@, block@);
                assert(rest == (here.0 + next.0, here.1 + next.1, here.2 || next.2));
                let ghost old_rows = rows@;
                let ghost old_out = out@;
                if is_non_text_data(attrs, block) {
                    proof {
                        reveal(scan_block);
                    }
                    out.extend_from_slice(block);
                    assert(rows_view(rows@) + next.1 =~= rows_view(old_rows) + rest.1);
                    assert(out@ + next.0 =~= old_out + rest.0);
                } else {
                    let resource = resource_of(attrs);
                    proof {
                        reveal(scan_block);
                    }
                    let (new_block, block_rows, block_changed) = process_data_block(
                        path,
                        block,
                        enc,
                        culture,
                        mode,
                        max_passes,
                        decode_html_entities,
                        include_attributes,
                        apply_changes,
                        resource.as_str(),
                    );
                    let ghost piece_rows = block_rows@;
                    let mut block_rows = block_rows;
                    rows.append(&mut block_rows);
                    out.extend_from_slice(new_block.as_slice());
                    if block_changed {
                        changed_any = true;
                    }
                    proof {
                        lemma_rows_view_concat(old_rows, piece_rows);
                        assert(rows_view(rows@) + next.1 =~= rows_view(old_rows) + rest.1);
                        assert(out@ + next.0 =~= old_out + rest.0);
                    }
                }
                pos = c + 7;
            },
            None => {
                let ghost next = scan_text(cx, s@, pos + 1);
                assert(rest == (seq![s@[pos as int]] + next.0, next.1, next.2));
                let ghost old_out = out@;
                out.push(s[pos]);
                assert(out@ + next.0 =~= old_out + rest.0);
                pos += 1;
            },
        }
    }
    assert(out@ =~= total.0);
    assert(rows_view(rows@) =~= total.1);
    Ok((string_from_chars(&out), rows, changed_any))
}

// ---------------------------------------------------------------------
// Setting resource values.

/// A resource to set: its name, its value and, optionally, its comment.
#[derive(Debug, Clone)]
pub struct SetEntry {
    pub name: String,
    pub value: String,
    pub comment: Option<String>,
}

/// The mathematical model of a [`SetEntry`].
pub struct EntryView {
    pub name: Seq<char>,
    pub value: Seq<char>,
    pub comment: Option<Seq<char>>,
}

impl View for SetEntry {
    type V = EntryView;

    open spec fn view(&self) -> EntryView {
        EntryView {
            name: self.name@,
            value: self.value@,
            comment: match self.comment {
                Some(c) => Some(c@),
                None => None,
            },
        }
    }
}

/// Whether a file is checked or repaired.
#[derive(Copy, Clone, Debug)]
pub enum Operation {
    Check,
    Repair { backup: bool, dry_run: bool },
}

/// Where a `<data>` block lies in a text (byte offsets) and its resource
/// name.
#[derive(Debug, Clone)]
pub struct DataBlockInfo {
    pub start: usize,
    pub end: usize,
    pub name: String,
}

/// Every character of `s` is white space (so that `s` trims to nothing).
pub open spec fn all_white_space(s: Seq<char>) -> bool {
    forall|i: int| 0 <= i < s.len() ==> is_white_space(s[i])
}

fn is_blank(s: &str) -> (res: bool)
    ensures
        res == all_white_space(s@),
{
    let c = chars_of(s);
    let mut i: usize = 0;
    while i < c.len()
        invariant
            c@ == s@,
            i <= c@.len(),
            forall|k: int| 0 <= k < i ==> is_white_space(c@[k]),
        decreases c@.len() - i,
    {
        if !white_space(c[i]) {
            return false;
        }
        i += 1;
    }
    true
}

/// The field of an entry that looks like mojibake, if any: the name, then
/// the value, then the comment.
pub open spec fn suspicious_field(e: EntryView) -> Option<Seq<char>> {
    if marker_count(e.name) > 0 {
        Some("name"@)
    } else if marker_count(e.value) > 0 {
        Some("value"@)
    } else if (match e.comment {
        Some(c) => marker_count(c) > 0,
        None => false,
    }) {
        Some("comment"@)
    } else {
        None
    }
}

/// The outcome of validating an entry: its name must not be blank, and
/// unless suspicious text is allowed no field may look like mojibake.
pub open spec fn validation(e: EntryView, allow_suspicious: bool) -> Result<(), crate::error::AppErrorView> {
    if all_white_space(e.name) {
        Err(crate::error::AppErrorView::Message("resource name cannot be empty"@))
    } else if !allow_suspicious && suspicious_field(e) is Some {
        Err(
            crate::error::AppErrorView::Message(
                "refusing to set suspicious "@ + suspicious_field(e).unwrap() + " for resource '"@
                    + e.name + "'; run check/repair first or pass --allow-suspicious"@,
            ),
        )
    } else {
        Ok(())
    }
}

fn comment_suspicious(e: &SetEntry) -> (res: bool)
    ensures
        res == (match e@.comment {
            Some(c) => marker_count(c) > 0,
            None => false,
        }),
{
    match &e.comment {
        Some(c) => crate::mojibake::looks_unsafe_for_set(c.as_str()),
        None => false,
    }
}

/// Checks an entry before it is written.
pub fn validate_set_entry(entry: &SetEntry, allow_suspicious: bool) -> (res: Result<(), crate::error::AppError>)
    ensures
        match res {
            Ok(()) => validation(entry@, allow_suspicious) is Ok,
            Err(e) => validation(entry@, allow_suspicious) == Err::<(), crate::error::AppErrorView>(e@),
        },
{
    if is_blank(entry.name.as_str()) {
        return Err(crate::error::AppError::Message("resource name cannot be empty".to_owned()));
    }
    if !allow_suspicious {
        let field: Option<&str> = if crate::mojibake::looks_unsafe_for_set(entry.name.as_str()) {
            Some("name")
        } else if crate::mojibake::looks_unsafe_for_set(entry.value.as_str()) {
            Some("value")
        } else if comment_suspicious(entry) {
            Some("comment")
        } else {
            None
        };
        match field {
            Some(f) => {
                let mut m = "refusing to set suspicious ".to_owned();
                m.append(f);
                m.append(" for resource '");
                m.append(entry.name.as_str());
                m.append("'; run check/repair first or pass --allow-suspicious");
                return Err(crate::error::AppError::Message(m));
            },
            None => {},
        }
    }
    Ok(())
}

/// The report row of an entry that was refused with `message`: it shows
/// the first offending field (a blank or suspicious name, a suspicious value
/// or comment), else the message itself.
pub open spec fn invalid_row(
    path: Seq<char>,
    culture: Option<Seq<char>>,
    encoding_name: Seq<char>,
    e: EntryView,
    message: Seq<char>,
) -> RowView {
    let (kind, text) = if all_white_space(e.name) || marker_count(e.name) > 0 {
        (ReportKind::Name, e.name)
    } else if marker_count(e.value) > 0 {
        (ReportKind::Value, e.value)
    } else if (match e.comment {
        Some(c) => marker_count(c) > 0,
        None => false,
    }) {
        (ReportKind::Comment, e.comment.unwrap())
    } else {
        (ReportKind::Value, message)
    };
    let status = if contains(message, "suspicious"@) {
        ReportStatus::RejectedSuspicious
    } else {
        ReportStatus::RejectedInvalid
    };
    row_of(path, culture, encoding_name, e.name, kind, status, score(text), score(text), Seq::empty(), text, message)
}

/// The report row of an entry that was refused with `message`.
pub fn invalid_import_row(
    path: &str,
    culture: Option<&str>,
    enc: &FileEncoding,
    entry: &SetEntry,
    message: &str,
) -> (res: ReportRow)
    ensures
        res@ == invalid_row(path@, opt_view(culture), enc.name@, entry@, message@),
{
    let text: &str;
    let kind: ReportKind;
    if is_blank(entry.name.as_str()) || crate::mojibake::looks_unsafe_for_set(entry.name.as_str()) {
        kind = ReportKind::Name;
        text = entry.name.as_str();
    } else if crate::mojibake::looks_unsafe_for_set(entry.value.as_str()) {
        kind = ReportKind::Value;
        text = entry.value.as_str();
    } else if comment_suspicious(entry) {
        kind = ReportKind::Comment;
        text = match &entry.comment {
            Some(c) => c.as_str(),
            None => "",
        };
    } else {
        kind = ReportKind::Value;
        text = message;
    }
    let m = chars_of(message);
    let needle = chars_of("suspicious");
    let status = if contains_exec(&m, &needle) {
        ReportStatus::RejectedSuspicious
    } else {
        ReportStatus::RejectedInvalid
    };
    let sc = crate::mojibake::mojibake_score(text);
    proof {
        reveal_strlit("");
        assert(""@ =~= Seq::<char>::empty());
    }
    report_row(path, culture, enc, entry.name.as_str(), kind, status, sc, sc, "", text, message)
}

// ---------------------------------------------------------------------
// Layout: line endings and indentation of new markup follow the file's.

/// The line ending of `s`: CR LF when it holds one, LF otherwise.
pub open spec fn newline_of(s: Seq<char>) -> Seq<char> {
    if contains(s, seq!['\r', '\n']) {
        seq!['\r', '\n']
    } else {
        seq!['\n']
    }
}

fn newline_chars(s: &[char]) -> (res: Vec<char>)
    ensures
        res@ == newline_of(s@),
{
    if contains_exec(s, &['\r', '\n']) {
        vec!['\r', '\n']
    } else {
        vec!['\n']
    }
}

/// The line ending to use in `content`: CR LF when it holds one, LF
/// otherwise.
pub fn detect_newline(content: &str) -> (res: &'static str)
    ensures
        res@ == newline_of(content@),
{
    let c = chars_of(content);
    proof {
        reveal_strlit("\r\n");
        reveal_strlit("\n");
    }
    if contains_exec(&c, &['\r', '\n']) {
        "\r\n"
    } else {
        "\n"
    }
}

fn data_indent_chars(s: &[char]) -> (res: Option<Vec<char>>)
    ensures
        match res {
            Some(i) => data_indent_of(s@) == Some(i@),
            None => data_indent_of(s@) is None,
        },
{
    match find_data_indent(s) {
        Some((p, r)) => Some(slice_to_vec(s, p, r)),
        None => None,
    }
}

/// The indentation of the first line of `content` that starts a `<data`
/// element.
pub fn detect_data_indent(content: &str) -> (res: Option<String>)
    ensures
        match res {
            Some(i) => data_indent_of(content@) == Some(i@),
            None => data_indent_of(content@) is None,
        },
{
    let c = chars_of(content);
    match data_indent_chars(&c) {
        Some(i) => Some(string_from_chars(&i)),
        None => None,
    }
}

/// The indentation of a block: that of its `<data` line, two spaces when
/// none is found.
pub open spec fn block_indent_of(block: Seq<char>) -> Seq<char> {
    match data_indent_of(block) {
        Some(i) => i,
        None => seq![' ', ' '],
    }
}

fn block_indent_chars(block: &[char]) -> (res: Vec<char>)
    ensures
        res@ == block_indent_of(block@),
{
    match data_indent_chars(block) {
        Some(i) => i,
        None => vec![' ', ' '],
    }
}

/// The indentation of the `<data` line of a block (two spaces when none).
pub fn detect_current_block_indent(block: &str) -> (res: String)
    ensures
        res@ == block_indent_of(block@),
{
    let c = chars_of(block);
    let i = block_indent_chars(&c);
    string_from_chars(&i)
}

/// `block` with its comment set to `comment`: the text of its first
/// `<comment>` element is replaced, or else a `<comment>` element is put on
/// a new line right after its first `</value>` (indented two spaces more
/// than the block); a block without `</value>` is left as it is.
pub open spec fn comment_upserted(block: Seq<char>, comment: Seq<char>) -> Seq<char> {
    let esc = escaped(comment);
    match first_element(block, 0, comment_open(), comment_close()) {
        Some((a, b)) => block.subrange(0, a) + esc + block.subrange(b, block.len() as int),
        None => match first_ci_from(block, 0, value_close()) {
            Some(k) => {
                let m = k + 8;
                block.subrange(0, m) + newline_of(block) + block_indent_of(block) + seq![' ', ' ']
                    + "<comment>"@ + esc + "</comment>"@ + block.subrange(m, block.len() as int)
            },
            None => block,
        },
    }
}

fn upsert_comment_chars(block: &[char], comment: &[char]) -> (res: Vec<char>)
    ensures
        res@ == comment_upserted(block@, comment@),
{
    let esc = escape_chars(comment);
    let co = comment_open_lit();
    let cc = comment_close_lit();
    let mut out: Vec<char> = Vec::new();
    match find_first_element(block, &co, &cc) {
        Some((a, b)) => {
            out.extend_from_slice(&block[0..a]);
            out.extend_from_slice(esc.as_slice());
            out.extend_from_slice(&block[b..block.len()]);
            return out;
        },
        None => {},
    }
    let vc = value_close_lit();
    match crate::text::find_ci(block, 0, &vc) {
        Some(k) => {
            proof {
                crate::text::lemma_first_ci_from_bounds(block@, 0, value_close());
            }
            assert(block@.len() == block.len());
            let m = k + 8;
            let nl = newline_chars(block);
            let indent = block_indent_chars(block);
            let open_tag = chars_of("<comment>");
            let close_tag = chars_of("</comment>");
            out.extend_from_slice(&block[0..m]);
            out.extend_from_slice(nl.as_slice());
            out.extend_from_slice(indent.as_slice());
            out.push(' ');
            out.push(' ');
            out.extend_from_slice(open_tag.as_slice());
            out.extend_from_slice(esc.as_slice());
            out.extend_from_slice(close_tag.as_slice());
            out.extend_from_slice(&block[m..block.len()]);
            assert(out@ =~= comment_upserted(block@, comment@));
            out
        },
        None => {
            out.extend_from_slice(block);
            assert(out@ =~= block@);
            out
        },
    }
}

/// Sets the comment of a `<data>` block (see [`comment_upserted`]).
pub fn upsert_comment_in_block(block: &str, comment: &str) -> (res: String)
    ensures
        res@ == comment_upserted(block@, comment@),
{
    let b = chars_of(block);
    let c = chars_of(comment);
    let out = upsert_comment_chars(&b, &c);
    string_from_chars(&out)
}

/// The first `<data>` block at or after `pos` whose resource name is
/// `name`: its start, its end and its name.
pub open spec fn named_block_from(s: Seq<char>, pos: int, name: Seq<char>) -> Option<(int, int, Seq<char>)>
    decreases s.len() - pos,
{
    if pos < 0 || pos >= s.len() {
        None
    } else {
        match element_at(s, pos, data_open(), data_close()) {
            Some((g, c)) => {
                proof {
                    lemma_element_bounds(s, pos, data_open(), data_close());
                }
                match attr_value_of(s.subrange(pos + 5, g), name_attr()) {
                    Some(v) => if v == name {
                        Some((pos, c + 7, v))
                    } else {
                        named_block_from(s, c + 7, name)
                    },
                    None => named_block_from(s, c + 7, name),
                }
            },
            None => named_block_from(s, pos + 1, name),
        }
    }
}

fn find_named_block(s: &[char], name: &[char]) -> (res: Option<(usize, usize, Vec<char>)>)
    ensures
        match res {
            Some((a, b, n)) => named_block_from(s@, 0, name@) == Some((a as int, b as int, n@)) && a
                <= b <= s@.len(),
            None => named_block_from(s@, 0, name@) is None,
        },
{
    let open = data_open_lit();
    let close = data_close_lit();
    let name_lit = name_attr_lit();
    let mut pos: usize = 0;
    while pos < s.len()
        invariant
            open@ == data_open(),
            close@ == data_close(),
            name_lit@ == name_attr(),
            pos <= s@.len(),
            named_block_from(s@, 0, name@) == named_block_from(s@, pos as int, name@),
        decreases s@.len() - pos,
    {
        match element_at_exec(s, pos, &open, &close) {
            Some((g, c)) => {
                proof {
                    lemma_element_bounds(s@, pos as int, data_open(), data_close());
                }
                let attrs = &s[pos + 5..g];
                match find_attr_value(attrs, &name_lit) {
                    Some((a, b)) => {
                        let v = unescape_chars(&attrs[a..b]);
                        if crate::mojibake::chars_equal(&v, name) {
                            return Some((pos, c + 7, v));
                        }
                    },
                    None => {},
                }
                pos = c + 7;
            },
            None => {
                pos += 1;
            },
        }
    }
    None
}

/// Finds the first `<data>` block whose resource name is `name`; its
/// start and end are byte offsets in `content`.
pub fn find_data_block_by_name(content: &str, name: &str) -> (res: Option<DataBlockInfo>)
    requires
        vstd::utf8::encode_utf8(content@).len() <= usize::MAX,
    ensures
        match named_block_from(content@, 0, name@) {
            Some((a, b, n)) => res matches Some(info) && info.start as int == byte_offset(content@, a)
                && info.end as int == byte_offset(content@, b) && info.name@ == n,
            None => res is None,
        },
{
    let s = chars_of(content);
    let n = chars_of(name);
    match find_named_block(&s, &n) {
        Some((a, b, v)) => {
            let start = byte_offset_of(&s, a);
            let end = byte_offset_of(&s, b);
            Some(DataBlockInfo { start, end, name: string_from_chars(&v) })
        },
        None => None,
    }
}

/// The outcome of setting the entry in the block `content[start..end]`
/// named `name`: the value text of its first `<value>` element is replaced
/// by the escaped value, and the comment is set when the entry has one.
pub open spec fn update_result(
    path: Seq<char>,
    culture: Option<Seq<char>>,
    encoding_name: Seq<char>,
    content: Seq<char>,
    e: EntryView,
    start: int,
    end: int,
    name: Seq<char>,
) -> Result<(Seq<char>, RowView, bool), crate::error::AppErrorView> {
    let block = content.subrange(start, end);
    match first_element(block, 0, value_open(), value_close()) {
        None => Err(crate::error::AppErrorView::Message("resource has no <value>: "@ + e.name)),
        Some((a, b)) => {
            let old_decoded = unescaped(block.subrange(a, b));
            let replaced = block.subrange(0, a) + escaped(e.value) + block.subrange(
                b,
                block.len() as int,
            );
            let new_block = match e.comment {
                Some(c) => comment_upserted(replaced, c),
                None => replaced,
            };
            let changed = new_block != block;
            Ok(
                (
                    content.subrange(0, start) + new_block + content.subrange(end, content.len() as int),
                    row_of(
                        path,
                        culture,
                        encoding_name,
                        name,
                        ReportKind::Value,
                        if changed {
                            ReportStatus::Updated
                        } else {
                            ReportStatus::Unchanged
                        },
                        score(old_decoded),
                        score(e.value),
                        Seq::empty(),
                        old_decoded,
                        e.value,
                    ),
                    changed,
                ),
            )
        },
    }
}

#[verifier::spinoff_prover]
#[verifier::rlimit(40)]
fn update_existing_data_block(
    path: &str,
    content: &[char],
    enc: &FileEncoding,
    culture: Option<&str>,
    entry: &SetEntry,
    start: usize,
    end: usize,
    block_name: &str,
) -> (res: Result<(Vec<char>, ReportRow), crate::error::AppError>)
    requires
        start <= end <= content@.len(),
    ensures
        match res {
            Ok((t, row)) => update_result(
                path@,
                opt_view(culture),
                enc.name@,
                content@,
                entry@,
                start as int,
                end as int,
                block_name@,
            ) == Ok::<(Seq<char>, RowView, bool), crate::error::AppErrorView>(
                (t@, row@, row.status == ReportStatus::Updated),
            ),
            Err(e) => update_result(
                path@,
                opt_view(culture),
                enc.name@,
                content@,
                entry@,
                start as int,
                end as int,
                block_name@,
            ) == Err::<(Seq<char>, RowView, bool), crate::error::AppErrorView>(e@),
        },
{
    let block = &content[start..end];
    let vo = value_open_lit();
    let vc = value_close_lit();
    let (a, b) = match find_first_element(block, &vo, &vc) {
        Some(r) => r,
        None => {
            return Err(
                crate::error::AppError::Message(
                    crate::error::concat_str("resource has no <value>: ", entry.name.as_str()),
                ),
            );
        },
    };
    let old_decoded = unescape_chars(&block[a..b]);
    let value = chars_of(entry.value.as_str());
    let esc = escape_chars(&value);
    let mut replaced: Vec<char> = Vec::new();
    replaced.extend_from_slice(&block[0..a]);
    replaced.extend_from_slice(esc.as_slice());
    replaced.extend_from_slice(&block[b..block.len()]);
    assert(replaced@ =~= block@.subrange(0, a as int) + escaped(entry@.value) + block@.subrange(
        b as int,
        block@.len() as int,
    ));
    let new_block = match &entry.comment {
        Some(c) => {
            let cc = chars_of(c.as_str());
            upsert_comment_chars(&replaced, &cc)
        },
        None => replaced,
    };
    let changed = !crate::mojibake::chars_equal(&new_block, block);
    let mut new_content: Vec<char> = Vec::new();
    new_content.extend_from_slice(&content[0..start]);
    new_content.extend_from_slice(new_block.as_slice());
    new_content.extend_from_slice(&content[end..content.len()]);
    assert(new_content@ =~= content@.subrange(0, start as int) + new_block@ + content@.subrange(
        end as int,
        content@.len() as int,
    ));
    assert(block@ == content@.subrange(start as int, end as int));
    let status = if changed {
        ReportStatus::Updated
    } else {
        ReportStatus::Unchanged
    };
    let old_text = string_from_chars(&old_decoded);
    let before = crate::mojibake::mojibake_score(old_text.as_str());
    let after = crate::mojibake::mojibake_score(entry.value.as_str());
    proof {
        reveal_strlit("");
        assert(""@ =~= Seq::<char>::empty());
    }
    let row = report_row(
        path,
        culture,
        enc,
        block_name,
        ReportKind::Value,
        status,
        before,
        after,
        "",
        old_text.as_str(),
        entry.value.as_str(),
    );
    Ok((new_content, row))
}

/// `t` ends with `suffix`.
pub open spec fn ends_with(t: Seq<char>, suffix: Seq<char>) -> bool {
    suffix.len() <= t.len() && t.subrange(t.len() - suffix.len(), t.len() as int) == suffix
}

/// The markup of a new `<data>` block for the entry, laid out like the
/// file: its indentation, its line endings.
pub open spec fn new_block_text(content: Seq<char>, e: EntryView) -> Seq<char> {
    let nl = newline_of(content);
    let indent = match data_indent_of(content) {
        Some(i) => i,
        None => seq![' ', ' '],
    };
    let child = indent + seq![' ', ' '];
    indent + "<data name=\""@ + escaped(e.name) + "\" xml:space=\"preserve\">"@ + nl + child
        + "<value>"@ + escaped(e.value) + "</value>"@ + (match e.comment {
        Some(c) => nl + child + "<comment>"@ + escaped(c) + "</comment>"@,
        None => Seq::empty(),
    }) + nl + indent + "</data>"@ + nl
}

/// The outcome of adding the entry as a new block right before the last
/// `</root>`, on a line of its own.
pub open spec fn add_result(
    path: Seq<char>,
    culture: Option<Seq<char>>,
    encoding_name: Seq<char>,
    content: Seq<char>,
    e: EntryView,
) -> Result<(Seq<char>, RowView, bool), crate::error::AppErrorView> {
    match crate::text::last_exact_before(content, content.len() as int, "</root>"@) {
        None => Err(
            crate::error::AppErrorView::Message(
                "cannot add resource because </root> was not found: "@ + path,
            ),
        ),
        Some(r) => {
            let nl = newline_of(content);
            let head = content.subrange(0, r);
            Ok(
                (
                    head + (if ends_with(head, nl) {
                        Seq::empty()
                    } else {
                        nl
                    }) + new_block_text(content, e) + content.subrange(r, content.len() as int),
                    row_of(
                        path,
                        culture,
                        encoding_name,
                        e.name,
                        ReportKind::Value,
                        ReportStatus::Added,
                        0,
                        score(e.value),
                        Seq::empty(),
                        Seq::empty(),
                        e.value,
                    ),
                    true,
                ),
            )
        },
    }
}

fn ends_with_chars(t: &[char], suffix: &[char]) -> (res: bool)
    ensures
        res == ends_with(t@, suffix@),
{
    if suffix.len() > t.len() {
        return false;
    }
    let r = exact_match(t, t.len() - suffix.len(), suffix);
    proof {
        if suffix@.len() <= t@.len() {
            assert(t@.len() - suffix@.len() + suffix@.len() == t@.len());
        }
    }
    r
}

#[verifier::spinoff_prover]
#[verifier::rlimit(40)]
fn new_block_chars(content: &[char], entry: &SetEntry) -> (res: Vec<char>)
    ensures
        res@ == new_block_text(content@, entry@),
{
    let nl = newline_chars(content);
    let indent = match data_indent_chars(content) {
        Some(i) => i,
        None => vec![' ', ' '],
    };
    let mut child: Vec<char> = Vec::new();
    child.extend_from_slice(indent.as_slice());
    child.push(' ');
    child.push(' ');
    let name = chars_of(entry.name.as_str());
    let value = chars_of(entry.value.as_str());
    let mut b: Vec<char> = Vec::new();
    b.extend_from_slice(indent.as_slice());
    b.extend_from_slice(chars_of("<data name=\"").as_slice());
    b.extend_from_slice(escape_chars(&name).as_slice());
    b.extend_from_slice(chars_of("\" xml:space=\"preserve\">").as_slice());
    b.extend_from_slice(nl.as_slice());
    b.extend_from_slice(child.as_slice());
    b.extend_from_slice(chars_of("<value>").as_slice());
    b.extend_from_slice(escape_chars(&value).as_slice());
    b.extend_from_slice(chars_of("</value>").as_slice());
    let ghost before_comment = b@;
    match &entry.comment {
        Some(c) => {
            let cc = chars_of(c.as_str());
            b.extend_from_slice(nl.as_slice());
            b.extend_from_slice(child.as_slice());
            b.extend_from_slice(chars_of("<comment>").as_slice());
            b.extend_from_slice(escape_chars(&cc).as_slice());
            b.extend_from_slice(chars_of("</comment>").as_slice());
        },
        None => {},
    }
    b.extend_from_slice(nl.as_slice());
    b.extend_from_slice(indent.as_slice());
    b.extend_from_slice(chars_of("</data>").as_slice());
    b.extend_from_slice(nl.as_slice());
    assert(b@ =~= new_block_text(content@, entry@));
    b
}

fn add_new_data_block(
    path: &str,
    content: &[char],
    enc: &FileEncoding,
    culture: Option<&str>,
    entry: &SetEntry,
) -> (res: Result<(Vec<char>, ReportRow), crate::error::AppError>)
    ensures
        match res {
            Ok((t, row)) => add_result(path@, opt_view(culture), enc.name@, content@, entry@)
                == Ok::<(Seq<char>, RowView, bool), crate::error::AppErrorView>((t@, row@, true)),
            Err(e) => add_result(path@, opt_view(culture), enc.name@, content@, entry@) == Err::<
                (Seq<char>, RowView, bool),
                crate::error::AppErrorView,
            >(e@),
        },
{
    let root_close = chars_of("</root>");
    let root_end = match crate::text::rfind_exact(content, &root_close) {
        Some(r) => r,
        None => {
            return Err(
                crate::error::AppError::Message(
                    crate::error::concat_str(
                        "cannot add resource because </root> was not found: ",
                        path,
                    ),
                ),
            );
        },
    };
    proof {
        crate::text::lemma_last_exact_before_bounds(content@, content@.len() as int, "</root>"@);
    }
    let nl = newline_chars(content);
    let block = new_block_chars(content, entry);
    let mut out: Vec<char> = Vec::new();
    out.extend_from_slice(&content[0..root_end]);
    if !ends_with_chars(&content[0..root_end], nl.as_slice()) {
        out.extend_from_slice(nl.as_slice());
    }
    out.extend_from_slice(block.as_slice());
    out.extend_from_slice(&content[root_end..content.len()]);
    let sc = crate::mojibake::mojibake_score(entry.value.as_str());
    proof {
        reveal_strlit("");
        assert(""@ =~= Seq::<char>::empty());
    }
    let row = report_row(
        path,
        culture,
        enc,
        entry.name.as_str(),
        ReportKind::Value,
        ReportStatus::Added,
        0,
        sc,
        "",
        "",
        entry.value.as_str(),
    );
    proof {
        let head = content@.subrange(0, root_end as int);
        assert(content@.subrange(0, root_end as int) =~= head);
        assert(out@ =~= head + (if ends_with(head, newline_of(content@)) {
            Seq::empty()
        } else {
            newline_of(content@)
        }) + new_block_text(content@, entry@) + content@.subrange(root_end as int, content@.len() as int));
    }
    Ok((out, row))
}

/// The outcome of setting an entry in `content`: the first block with the
/// entry's name is updated; when there is none, the entry is added if
/// `create_missing`, and refused as not found otherwise.
pub open spec fn upserted(
    path: Seq<char>,
    culture: Option<Seq<char>>,
    encoding_name: Seq<char>,
    content: Seq<char>,
    e: EntryView,
    create_missing: bool,
) -> Result<(Seq<char>, RowView, bool), crate::error::AppErrorView> {
    match named_block_from(content, 0, e.name) {
        Some((start, end, name)) => update_result(path, culture, encoding_name, content, e, start, end, name),
        None => if !create_missing {
            Err(crate::error::AppErrorView::Message("resource not found: "@ + e.name))
        } else {
            add_result(path, culture, encoding_name, content, e)
        },
    }
}

fn upsert_chars(
    path: &str,
    content: &[char],
    enc: &FileEncoding,
    culture: Option<&str>,
    entry: &SetEntry,
    create_missing: bool,
) -> (res: Result<(Vec<char>, ReportRow, bool), crate::error::AppError>)
    ensures
        match res {
            Ok((t, row, changed)) => upserted(path@, opt_view(culture), enc.name@, content@, entry@, create_missing)
                == Ok::<(Seq<char>, RowView, bool), crate::error::AppErrorView>((t@, row@, changed)),
            Err(e) => upserted(path@, opt_view(culture), enc.name@, content@, entry@, create_missing)
                == Err::<(Seq<char>, RowView, bool), crate::error::AppErrorView>(e@),
        },
{
    let name = chars_of(entry.name.as_str());
    match find_named_block(content, &name) {
        Some((start, end, n)) => {
            let block_name = string_from_chars(&n);
            match update_existing_data_block(path, content, enc, culture, entry, start, end, block_name.as_str()) {
                Ok((t, row)) => {
                    let changed = row.status == ReportStatus::Updated;
                    Ok((t, row, changed))
                },
                Err(e) => Err(e),
            }
        },
        None => {
            if !create_missing {
                return Err(
                    crate::error::AppError::Message(
                        crate::error::concat_str("resource not found: ", entry.name.as_str()),
                    ),
                );
            }
            match add_new_data_block(path, content, enc, culture, entry) {
                Ok((t, row)) => Ok((t, row, true)),
                Err(e) => Err(e),
            }
        },
    }
}

/// Sets one entry in the text of a `.resx` file (see [`upserted`]): returns
/// the new text, the report row and whether the text changed.
pub fn upsert_resx_value_in_content(
    path: &str,
    content: &str,
    enc: &FileEncoding,
    culture: Option<&str>,
    entry: &SetEntry,
    create_missing: bool,
) -> (res: Result<(String, ReportRow, bool), crate::error::AppError>)
    ensures
        match res {
            Ok((t, row, changed)) => upserted(path@, opt_view(culture), enc.name@, content@, entry@, create_missing)
                == Ok::<(Seq<char>, RowView, bool), crate::error::AppErrorView>((t@, row@, changed)),
            Err(e) => upserted(path@, opt_view(culture), enc.name@, content@, entry@, create_missing)
                == Err::<(Seq<char>, RowView, bool), crate::error::AppErrorView>(e@),
        },
{
    let c = chars_of(content);
    match upsert_chars(path, &c, enc, culture, entry, create_missing) {
        Ok((t, row, changed)) => Ok((string_from_chars(&t), row, changed)),
        Err(e) => Err(e),
    }
}

// ---------------------------------------------------------------------
// Paths. A path is held as its text.

/// What std's `Path::file_name` gives for the path `path` (as text), by the
/// path rules of the platform that the library is built for.
pub uninterp spec fn file_name_of(path: Seq<char>) -> Option<Seq<char>>;

/// The extension of the file name `name`: what follows its last `.`; there
/// is none when `name` holds no `.`, when its only `.` begins it, and for
/// `..`.
pub open spec fn extension_in(name: Seq<char>) -> Option<Seq<char>> {
    match crate::text::last_exact_before(name, name.len() as int, seq!['.']) {
        Some(k) => if k == 0 || name == seq!['.', '.'] {
            None
        } else {
            Some(name.subrange(k + 1, name.len() as int))
        },
        None => None,
    }
}

/// The extension of the path `path`: that of its file name.
pub open spec fn extension_of(path: Seq<char>) -> Option<Seq<char>> {
    match file_name_of(path) {
        Some(f) => extension_in(f),
        None => None,
    }
}

/// std's `Path::extension` of the path `path`: as its documentation says,
/// none without a file name, none when the file name holds no `.` or only
/// a leading one, and otherwise what follows the file name's last `.`.
#[verifier::external_body]
fn path_extension(path: &str) -> (res: Option<String>)
    ensures
        match res {
            Some(e) => extension_of(path@) == Some(e@),
            None => extension_of(path@) is None,
        },
{
    std::path::Path::new(path).extension().map(|e| e.to_string_lossy().into_owned())
}

/// std's `Path::file_name` of the path `path`. The contract only names it.
#[verifier::external_body]
fn path_file_name(path: &str) -> (res: Option<String>)
    ensures
        match res {
            Some(f) => file_name_of(path@) == Some(f@),
            None => file_name_of(path@) is None,
        },
{
    std::path::Path::new(path).file_name().map(|f| f.to_string_lossy().into_owned())
}

/// Equality of texts when ASCII case is ignored.
pub open spec fn eq_ignore_ascii_case(a: Seq<char>, b: Seq<char>) -> bool {
    ascii_lower(a) == ascii_lower(b)
}

fn eq_ignore_ascii_case_exec(a: &[char], b: &[char]) -> (res: bool)
    ensures
        res == eq_ignore_ascii_case(a@, b@),
{
    let la = to_ascii_lower(a);
    let lb = to_ascii_lower(b);
    crate::mojibake::chars_equal(&la, &lb)
}

/// Whether the extension of `path` is `expected`, ASCII case ignored.
pub fn extension_eq(path: &str, expected: &str) -> (res: bool)
    ensures
        res == match extension_of(path@) {
            Some(e) => eq_ignore_ascii_case(e, expected@),
            None => false,
        },
{
    match path_extension(path) {
        Some(e) => {
            let ec = chars_of(e.as_str());
            let xc = chars_of(expected);
            eq_ignore_ascii_case_exec(&ec, &xc)
        },
        None => false,
    }
}

/// The culture of a `.resx` file from its file name, e.g. `fr` for
/// `Resources.fr.resx` (see [`culture_of_name`]).
pub fn culture_from_path(path: &str) -> (res: Option<String>)
    ensures
        match res {
            Some(c) => match file_name_of(path@) {
                Some(f) => culture_of_name(f) == Some(c@),
                None => false,
            },
            None => match file_name_of(path@) {
                Some(f) => culture_of_name(f) is None,
                None => true,
            },
        },
{
    let name = match path_file_name(path) {
        Some(n) => n,
        None => {
            return None;
        },
    };
    let f = chars_of(name.as_str());
    match find_culture(&f) {
        Some((a, b)) => Some(string_from_chars(&f[a..b])),
        None => None,
    }
}

/// The path of the backup of `path`: `.bak` appended.
pub fn backup_path_for(path: &str) -> (res: String)
    ensures
        res@ == path@ + ".bak"@,
{
    crate::error::concat_str(path, ".bak")
}

/// The rows of a check: what a repair would correct is reported as
/// correctable.
pub open spec fn as_check_row(r: RowView) -> RowView {
    if r.status == ReportStatus::Corrected {
        RowView { status: ReportStatus::Correctable, ..r }
    } else {
        r
    }
}

/// The rows of a check made from the rows of a scan.
pub open spec fn check_rows(rows: Seq<RowView>) -> Seq<RowView> {
    rows.map_values(|r: RowView| as_check_row(r))
}

/// A copy of `r` with status `status`.
pub fn with_status(r: &ReportRow, status: ReportStatus) -> (res: ReportRow)
    ensures
        res@ == (RowView { status, ..r@ }),
{
    ReportRow {
        file: r.file.clone(),
        culture: r.culture.clone(),
        encoding: r.encoding.clone(),
        resource: r.resource.clone(),
        kind: r.kind,
        status,
        before_score: r.before_score,
        after_score: r.after_score,
        encoding_used: r.encoding_used.clone(),
        old_preview: r.old_preview.clone(),
        new_preview: r.new_preview.clone(),
    }
}

/// Marks the rows of a check: `corrected` becomes `correctable`.
pub fn mark_correctable(rows: &mut Vec<ReportRow>)
    ensures
        rows_view(final(rows)@) == check_rows(rows_view(old(rows)@)),
{
    let ghost orig = rows_view(rows@);
    let mut i: usize = 0;
    while i < rows.len()
        invariant
            i <= rows@.len(),
            orig.len() == rows@.len(),
            forall|k: int| 0 <= k < i ==> (#[trigger] rows@[k])@ == as_check_row(orig[k]),
            forall|k: int| i <= k < rows@.len() ==> (#[trigger] rows@[k])@ == orig[k],
        decreases rows@.len() - i,
    {
        if rows[i].status == ReportStatus::Corrected {
            let r = with_status(&rows[i], ReportStatus::Correctable);
            rows.set(i, r);
        }
        i += 1;
    }
    assert(rows_view(rows@) =~= check_rows(orig));
}

/// The verdict of a check: with `fail_on_suspicious`, any report row fails
/// the check.
pub fn check_verdict(rows: &Vec<ReportRow>, fail_on_suspicious: bool) -> (res: Result<(), crate::error::AppError>)
    ensures
        res is Err <==> (fail_on_suspicious && rows@.len() > 0),
        res matches Err(e) ==> e@ == crate::error::AppErrorView::Message(
            "suspicious or correctable text found"@,
        ),
{
    if fail_on_suspicious && rows.len() > 0 {
        Err(crate::error::AppError::Message("suspicious or correctable text found".to_owned()))
    } else {
        Ok(())
    }
}

} // verus!
