//! Properties that hold of the library as a whole.

use vstd::prelude::*;
use crate::markup::{
    boundary_after, data_close, data_open, element_at, first_element, lemma_element_bounds,
    value_close, value_open,
};
use crate::text::{ci_at, ci_char_eq, first_char_from, first_ci_from, fold_char};
use crate::resx::{
    block_processable, block_targets, is_non_text, processable_from, scan_block, scan_target,
    scan_targets, scan_text, targets_ordered, ScanSettings, Target,
};
use crate::entities::{escape_char, escaped};
use crate::mojibake::{best_from, marker_count, repair_passes, repaired, undo_misreading};
use crate::report::{one_line, previewed, ReportStatus, RowView};
use crate::resx::{
    add_result, as_check_row, check_rows, named_block_from, suspicious_field, update_result, validation,
    EntryView,
};
use crate::cli::Mode;
use crate::upsert::{initial_state, upsert_from, upsert_step, UpsertOptions, UpsertState};
use crate::resx::{all_white_space, invalid_row};
use crate::error::error_text;
use crate::report::ReportKind;
use crate::encoding::{bytes_start_with, detected_encoding, encoded_file};

verus! {

proof fn lemma_targets_keep_text(
    cx: ScanSettings,
    block: Seq<char>,
    t: Seq<Target>,
    k: int,
    last: int,
    resource: Seq<char>,
)
    requires
        targets_ordered(t, block.len() as int),
        0 <= k <= t.len(),
        0 <= last,
        k < t.len() ==> last <= t[k].0,
        k == t.len() ==> last <= block.len(),
    ensures
        (!cx.apply_changes || !scan_targets(cx, block, t, k, last, resource).2) ==> scan_targets(
            cx,
            block,
            t,
            k,
            last,
            resource,
        ).0 == block.subrange(last, block.len() as int),
    decreases t.len() - k,
{
    if k < t.len() {
        let (s, e, kind) = t[k];
        if k + 1 < t.len() {
            assert(t[k + 1].0 >= t[(k + 1) - 1].1);
        }
        lemma_targets_keep_text(cx, block, t, k + 1, e as int, resource);
        reveal(scan_target);
        let raw = block.subrange(s as int, e as int);
        let st = scan_target(cx, raw, kind, resource);
        let rest = scan_targets(cx, block, t, k + 1, e as int, resource);
        if !cx.apply_changes || !(st.2 || rest.2) {
            assert(st.0 == raw);
            assert(block.subrange(last, s as int) + raw + block.subrange(e as int, block.len() as int)
                =~= block.subrange(last, block.len() as int));
        }
    }
}

proof fn lemma_targets_findings_same(
    cx1: ScanSettings,
    cx2: ScanSettings,
    block: Seq<char>,
    t: Seq<Target>,
    k: int,
    last: int,
    resource: Seq<char>,
)
    requires
        cx2 == (ScanSettings { apply_changes: cx2.apply_changes, ..cx1 }),
    ensures
        scan_targets(cx1, block, t, k, last, resource).1 == scan_targets(cx2, block, t, k, last, resource).1,
        scan_targets(cx1, block, t, k, last, resource).2 == scan_targets(cx2, block, t, k, last, resource).2,
    decreases t.len() - k,
{
    if 0 <= k < t.len() {
        let (s, e, kind) = t[k];
        lemma_targets_findings_same(cx1, cx2, block, t, k + 1, e as int, resource);
        reveal(scan_target);
    }
}

/// Scanning keeps a file's text as it is when repairs are not applied, and
/// when nothing was found to repair: only the pieces that are repaired
/// change, never the rest of the document.
#[verifier::rlimit(30)]
pub proof fn law_scan_keeps_text_without_repairs(cx: ScanSettings, content: Seq<char>, pos: int)
    requires
        0 <= pos <= content.len(),
        processable_from(content, pos, cx.include_attributes),
    ensures
        (!cx.apply_changes || !scan_text(cx, content, pos).2) ==> scan_text(cx, content, pos).0
            == content.subrange(pos, content.len() as int),
    decreases content.len() - pos,
{
    if pos < content.len() {
        match element_at(content, pos, data_open(), data_close()) {
            Some((g, c)) => {
                lemma_element_bounds(content, pos, data_open(), data_close());
                law_scan_keeps_text_without_repairs(cx, content, c + 7);
                let attrs = content.subrange(pos + 5, g);
                let block = content.subrange(pos, c + 7);
                reveal(scan_block);
                if !is_non_text(attrs, block) {
                    let t = block_targets(block, cx.include_attributes);
                    assert(block_processable(attrs, block, cx.include_attributes));
                    if t.len() > 0 {
                        assert(t[0].0 >= 0);
                    }
                    lemma_targets_keep_text(cx, block, t, 0, 0, crate::resx::resource_name(attrs));
                    assert(block.subrange(0, block.len() as int) =~= block);
                }
                assert(block + content.subrange(c + 7, content.len() as int) =~= content.subrange(
                    pos,
                    content.len() as int,
                ));
            },
            None => {
                law_scan_keeps_text_without_repairs(cx, content, pos + 1);
                assert(seq![content[pos]] + content.subrange(pos + 1, content.len() as int)
                    =~= content.subrange(pos, content.len() as int));
            },
        }
    } else {
        assert(content.subrange(pos, content.len() as int) =~= Seq::<char>::empty());
    }
}

/// A check and a repair find the same things: the report rows and the
/// "something to repair" answer of a scan do not depend on whether the
/// repairs are applied.
pub proof fn law_check_and_repair_find_the_same(cx: ScanSettings, content: Seq<char>, pos: int)
    ensures
        scan_text(cx, content, pos).1 == scan_text(
            ScanSettings { apply_changes: !cx.apply_changes, ..cx },
            content,
            pos,
        ).1,
        scan_text(cx, content, pos).2 == scan_text(
            ScanSettings { apply_changes: !cx.apply_changes, ..cx },
            content,
            pos,
        ).2,
    decreases content.len() - pos,
{
    let cx2 = ScanSettings { apply_changes: !cx.apply_changes, ..cx };
    if 0 <= pos < content.len() {
        match element_at(content, pos, data_open(), data_close()) {
            Some((g, c)) => {
                lemma_element_bounds(content, pos, data_open(), data_close());
                law_check_and_repair_find_the_same(cx, content, c + 7);
                let attrs = content.subrange(pos + 5, g);
                let block = content.subrange(pos, c + 7);
                reveal(scan_block);
                lemma_targets_findings_same(
                    cx,
                    cx2,
                    block,
                    block_targets(block, cx.include_attributes),
                    0,
                    0,
                    crate::resx::resource_name(attrs),
                );
            },
            None => {
                law_check_and_repair_find_the_same(cx, content, pos + 1);
            },
        }
    }
}

/// A `<data>` block that holds binary data or a file reference is never
/// touched: scanning it keeps it as it is and reports nothing.
pub proof fn law_binary_blocks_untouched(cx: ScanSettings, attrs: Seq<char>, block: Seq<char>)
    requires
        is_non_text(attrs, block),
    ensures
        scan_block(cx, attrs, block) == (block, Seq::<RowView>::empty(), false),
{
    reveal(scan_block);
}

/// A check never reports a repair as done: after the rows of a check are
/// marked, none has the status `corrected`.
pub proof fn law_check_rows_never_corrected(rows: Seq<RowView>)
    ensures
        forall|i: int|
            0 <= i < rows.len() ==> (#[trigger] check_rows(rows)[i]).status != ReportStatus::Corrected,
{
}

/// Unless suspicious text is allowed, an entry whose name, value or comment
/// shows mojibake is refused.
pub proof fn law_suspicious_entries_refused(e: EntryView)
    requires
        marker_count(e.name) > 0 || marker_count(e.value) > 0 || (match e.comment {
            Some(c) => marker_count(c) > 0,
            None => false,
        }),
    ensures
        validation(e, false) is Err,
{
    assert(suspicious_field(e) is Some);
}

/// Escaped text holds no markup: no `<`, `>`, `"` or `'`, and every `&`
/// begins an entity.
pub proof fn law_escaped_has_no_markup(s: Seq<char>)
    ensures
        forall|i: int|
            0 <= i < escaped(s).len() ==> #[trigger] escaped(s)[i] != '<' && escaped(s)[i] != '>'
                && escaped(s)[i] != '"' && escaped(s)[i] != '\'',
    decreases s.len(),
{
    if s.len() > 0 {
        law_escaped_has_no_markup(s.skip(1));
        let e = escape_char(s[0]);
        let r = escaped(s.skip(1));
        assert forall|i: int| 0 <= i < escaped(s).len() implies #[trigger] escaped(s)[i] != '<'
            && escaped(s)[i] != '>' && escaped(s)[i] != '"' && escaped(s)[i] != '\'' by {
            if i >= e.len() {
                assert(escaped(s)[i] == r[i - e.len()]);
            }
        }
    }
}

proof fn lemma_best_from_lower(text: Seq<char>, cands: Seq<&'static str>, i: int, acc: Option<(Seq<char>, &'static str)>)
    requires
        acc matches Some((a, _)) ==> marker_count(a) < marker_count(text),
    ensures
        best_from(text, cands, i, acc) matches Some((t, _)) ==> marker_count(t) < marker_count(text),
    decreases cands.len() - i,
{
    if 0 <= i < cands.len() {
        let next = match undo_misreading(text, cands[i]@) {
            Some(t) => if marker_count(t) < marker_count(text) && (match acc {
                Some((a, _)) => marker_count(t) < marker_count(a),
                None => true,
            }) {
                Some((t, cands[i]))
            } else {
                acc
            },
            None => acc,
        };
        lemma_best_from_lower(text, cands, i + 1, next);
    }
}

proof fn lemma_passes_not_worse(text: Seq<char>, cands: Seq<&'static str>, passes: nat, used: Option<&'static str>)
    ensures
        marker_count(repair_passes(text, cands, passes, used).0) <= marker_count(text),
    decreases passes,
{
    if passes > 0 {
        lemma_best_from_lower(text, cands, 0, None);
        match best_from(text, cands, 0, None) {
            Some((t, l)) => {
                lemma_passes_not_worse(t, cands, (passes - 1) as nat, Some(l));
            },
            None => {},
        }
    }
}

/// A repair never makes text look more damaged: without entity decoding,
/// the repaired text has no more telltales of mojibake than the original,
/// and the repair keeps the text when none is found.
pub proof fn law_repair_not_worse(text: Seq<char>, mode: Mode, max_passes: nat)
    ensures
        marker_count(repaired(text, mode, max_passes, false).text) <= marker_count(text),
        marker_count(text) == 0 ==> repaired(text, mode, max_passes, false).text == text,
{
    lemma_passes_not_worse(text, crate::mojibake::candidates(mode), max_passes, None);
    if marker_count(text) == 0 {
        lemma_passes_keep_clean(text, crate::mojibake::candidates(mode), max_passes, None);
    }
}

proof fn lemma_passes_keep_clean(text: Seq<char>, cands: Seq<&'static str>, passes: nat, used: Option<&'static str>)
    requires
        marker_count(text) == 0,
    ensures
        repair_passes(text, cands, passes, used).0 == text,
{
    if passes > 0 {
        lemma_best_from_lower(text, cands, 0, None);
    }
}

proof fn lemma_one_line_clean(s: Seq<char>)
    ensures
        forall|i: int| 0 <= i < one_line(s).len() ==> #[trigger] one_line(s)[i] != '\r' && one_line(s)[i] != '\n',
    decreases s.len(),
{
    if s.len() > 0 {
        lemma_one_line_clean(s.skip(1));
        let h: Seq<char> = if s[0] == '\r' {
            seq!['\\', 'r']
        } else if s[0] == '\n' {
            seq!['\\', 'n']
        } else {
            seq![s[0]]
        };
        let r = one_line(s.skip(1));
        assert forall|i: int| 0 <= i < one_line(s).len() implies #[trigger] one_line(s)[i] != '\r'
            && one_line(s)[i] != '\n' by {
            if i >= h.len() {
                assert(one_line(s)[i] == r[i - h.len()]);
            }
        }
    }
}

/// A preview fits on one line and holds at most `max` characters of the
/// text plus the `...` mark.
pub proof fn law_preview_one_line(s: Seq<char>, max: nat)
    ensures
        previewed(s, max).len() <= max + 3,
        forall|i: int| 0 <= i < previewed(s, max).len() ==> #[trigger] previewed(s, max)[i] != '\r'
            && previewed(s, max)[i] != '\n',
{
    lemma_one_line_clean(s);
    let o = one_line(s);
    if o.len() > max {
        let p = previewed(s, max);
        assert forall|i: int| 0 <= i < p.len() implies #[trigger] p[i] != '\r' && p[i] != '\n' by {
            if i < max {
                assert(p[i] == o[i]);
            }
        }
    }
}

/// Setting an existing resource changes nothing outside its `<data>`
/// block.
pub proof fn law_update_is_local(
    path: Seq<char>,
    culture: Option<Seq<char>>,
    encoding_name: Seq<char>,
    content: Seq<char>,
    e: EntryView,
    start: int,
    end: int,
    name: Seq<char>,
)
    requires
        0 <= start <= end <= content.len(),
        update_result(path, culture, encoding_name, content, e, start, end, name) is Ok,
    ensures
        ({
            let t = update_result(path, culture, encoding_name, content, e, start, end, name)->Ok_0 .0;
            &&& t.subrange(0, start) == content.subrange(0, start)
            &&& t.subrange(t.len() - (content.len() - end), t.len() as int) == content.subrange(
                end,
                content.len() as int,
            )
        }),
{
    let t = update_result(path, culture, encoding_name, content, e, start, end, name)->Ok_0 .0;
    assert(t.subrange(0, start) =~= content.subrange(0, start));
    assert(t.subrange(t.len() - (content.len() - end), t.len() as int) =~= content.subrange(
        end,
        content.len() as int,
    ));
}

/// Adding a resource only inserts text: what stood before and after the
/// insertion point stays as it was.
pub proof fn law_add_only_inserts(
    path: Seq<char>,
    culture: Option<Seq<char>>,
    encoding_name: Seq<char>,
    content: Seq<char>,
    e: EntryView,
)
    requires
        add_result(path, culture, encoding_name, content, e) is Ok,
    ensures
        ({
            let t = add_result(path, culture, encoding_name, content, e)->Ok_0 .0;
            let r = crate::text::last_exact_before(content, content.len() as int, "</root>"@)->0;
            &&& t.len() > content.len()
            &&& t.subrange(0, r) == content.subrange(0, r)
            &&& t.subrange(t.len() - (content.len() - r), t.len() as int) == content.subrange(
                r,
                content.len() as int,
            )
        }),
{
    crate::text::lemma_last_exact_before_bounds(content, content.len() as int, "</root>"@);
    let t = add_result(path, culture, encoding_name, content, e)->Ok_0 .0;
    let r = crate::text::last_exact_before(content, content.len() as int, "</root>"@)->0;
    assert(t.subrange(0, r) =~= content.subrange(0, r));
    assert(t.subrange(t.len() - (content.len() - r), t.len() as int) =~= content.subrange(
        r,
        content.len() as int,
    ));
}

proof fn lemma_first_char_same_prefix(s: Seq<char>, t: Seq<char>, from: int, c: char, k: int)
    requires
        0 <= from,
        first_char_from(s, from, c) == Some(k),
        k < t.len(),
        forall|i: int| 0 <= i <= k ==> t[i] == s[i],
    ensures
        first_char_from(t, from, c) == Some(k),
    decreases k - from,
{
    crate::text::lemma_first_char_from_bounds(s, from, c);
    if s[from] != c {
        lemma_first_char_same_prefix(s, t, from + 1, c, k);
    }
}

proof fn lemma_first_ci_found(s: Seq<char>, from: int, lit: Seq<char>, k: int)
    requires
        0 <= from <= k,
        ci_at(s, k, lit),
        lit.len() > 0,
        forall|i: int| from <= i < k ==> !ci_at(s, i, lit),
    ensures
        first_ci_from(s, from, lit) == Some(k),
    decreases k - from,
{
    if from < k {
        lemma_first_ci_found(s, from + 1, lit, k);
    }
}

proof fn lemma_first_ci_some(s: Seq<char>, from: int, lit: Seq<char>, k: int)
    requires
        0 <= from <= k,
        ci_at(s, k, lit),
        lit.len() > 0,
    ensures
        first_ci_from(s, from, lit) is Some,
    decreases k - from,
{
    if from < k && !ci_at(s, from, lit) {
        lemma_first_ci_some(s, from + 1, lit, k);
    }
}

proof fn lemma_first_element_witness(s: Seq<char>, pos: int) -> (p: int)
    requires
        0 <= pos,
        first_element(s, pos, value_open(), value_close()) is Some,
    ensures
        pos <= p < s.len(),
        element_at(s, p, value_open(), value_close()) matches Some((g, c)) && first_element(
            s,
            pos,
            value_open(),
            value_close(),
        ) == Some((g + 1, c)),
        forall|q: int| pos <= q < p ==> element_at(s, q, value_open(), value_close()) is None,
    decreases s.len() - pos,
{
    if element_at(s, pos, value_open(), value_close()) is Some {
        pos
    } else {
        lemma_first_element_witness(s, pos + 1)
    }
}

proof fn lemma_first_element_found(s: Seq<char>, pos: int, p: int)
    requires
        0 <= pos <= p < s.len(),
        element_at(s, p, value_open(), value_close()) is Some,
        forall|q: int| pos <= q < p ==> element_at(s, q, value_open(), value_close()) is None,
    ensures
        first_element(s, pos, value_open(), value_close()) == Some(
            (
                (element_at(s, p, value_open(), value_close())->0).0 + 1,
                (element_at(s, p, value_open(), value_close())->0).1,
            ),
        ),
    decreases p - pos,
{
    if pos < p {
        lemma_first_element_found(s, pos + 1, p);
    }
}

proof fn lemma_no_earlier_element(block: Seq<char>, nb: Seq<char>, p: int, g: int, c: int)
    requires
        0 <= p,
        p + 6 <= g < c,
        c + 8 <= block.len(),
        block[g] == '>',
        ci_at(block, c, value_close()),
        g + 1 <= nb.len(),
        forall|i: int| 0 <= i <= g ==> nb[i] == block[i],
        forall|q: int| 0 <= q < p ==> element_at(block, q, value_open(), value_close()) is None,
    ensures
        forall|q: int| 0 <= q < p ==> element_at(nb, q, value_open(), value_close()) is None,
{
    let vo = value_open();
    let vc = value_close();
    assert forall|q: int| 0 <= q < p implies element_at(nb, q, vo, vc) is None by {
        if ci_at(nb, q, vo) && boundary_after(nb, q + 6) {
            assert forall|j: int| 0 <= j < vo.len() implies ci_char_eq(block[q + j], #[trigger] vo[j]) by {
                assert(nb[q + j] == block[q + j]);
            }
            assert(ci_at(block, q, vo));
            assert(nb[q + 6] == block[q + 6]);
            assert(boundary_after(block, q + 6));
            lemma_first_char_upto(block, q + 6, g);
            let g2 = first_char_from(block, q + 6, '>')->0;
            crate::text::lemma_first_char_from_bounds(block, q + 6, '>');
            assert(q + 6 <= g2 <= g);
            lemma_first_ci_some(block, g2 + 1, vc, c);
            assert(element_at(block, q, vo, vc) is Some);
        }
    }
}

proof fn lemma_element_moved(block: Seq<char>, value: Seq<char>, p: int, g: int, c: int)
    requires
        0 <= p,
        p + 6 <= g < c,
        c + 8 <= block.len(),
        element_at(block, p, value_open(), value_close()) == Some((g, c)),
    ensures
        ({
            let esc = escaped(value);
            let nb = block.subrange(0, g + 1) + esc + block.subrange(c, block.len() as int);
            element_at(nb, p, value_open(), value_close()) == Some((g, g + 1 + esc.len()))
        }),
{
    let vo = value_open();
    let vc = value_close();
    let a = g + 1;
    let esc = escaped(value);
    let nb = block.subrange(0, a) + esc + block.subrange(c, block.len() as int);
    crate::text::lemma_first_ci_from_bounds(block, a, vc);
    law_escaped_has_no_markup(value);
    assert forall|j: int| 0 <= j < vo.len() implies ci_char_eq(nb[p + j], #[trigger] vo[j]) by {
        assert(nb[p + j] == block[p + j]);
    }
    assert(nb[p + 6] == block[p + 6]);
    lemma_first_char_same_prefix(block, nb, p + 6, '>', g);
    assert forall|i: int| a <= i < a + esc.len() implies !ci_at(nb, i, vc) by {
        assert(nb[i] == esc[i - a]);
        if ci_at(nb, i, vc) {
            assert(ci_char_eq(nb[i + 0], vc[0]));
        }
    }
    assert forall|j: int| 0 <= j < vc.len() implies ci_char_eq(nb[a + esc.len() + j], #[trigger] vc[j]) by {
        assert(nb[a + esc.len() + j] == block[c + j]);
    }
    lemma_first_ci_found(nb, a, vc, a + esc.len());
}

/// Setting a value and reading it back gives the value: after the text of
/// a block's first `<value>` element is replaced by the escaped value, the
/// block's first `<value>` element holds exactly that text, and unescaping
/// it gives the value back.
pub proof fn law_set_value_reads_back(block: Seq<char>, value: Seq<char>)
    requires
        first_element(block, 0, value_open(), value_close()) is Some,
    ensures
        ({
            let (a, b) = first_element(block, 0, value_open(), value_close())->0;
            let esc = escaped(value);
            let nb = block.subrange(0, a) + esc + block.subrange(b, block.len() as int);
            &&& first_element(nb, 0, value_open(), value_close()) == Some((a, a + esc.len()))
            &&& crate::entities::unescaped(nb.subrange(a, a + esc.len())) == value
        }),
{
    let vo = value_open();
    let vc = value_close();
    let p = lemma_first_element_witness(block, 0);
    lemma_element_bounds(block, p, vo, vc);
    let (g, c) = element_at(block, p, vo, vc)->0;
    let a = g + 1;
    let esc = escaped(value);
    let nb = block.subrange(0, a) + esc + block.subrange(c, block.len() as int);
    assert(forall|i: int| 0 <= i <= g ==> nb[i] == block[i]);
    lemma_no_earlier_element(block, nb, p, g, c);
    lemma_element_moved(block, value, p, g, c);
    lemma_first_element_found(nb, 0, p);
    crate::entities::law_unescape_escape(value);
    assert(nb.subrange(a, a + esc.len()) =~= esc);
}

/// Updating a resource without a comment and reading its value back gives
/// the value that was set: in the updated file the resource's block sits
/// where it was, and its first `<value>` element unescapes to the value.
pub proof fn law_update_reads_back(
    path: Seq<char>,
    culture: Option<Seq<char>>,
    encoding_name: Seq<char>,
    content: Seq<char>,
    e: EntryView,
    start: int,
    end: int,
    name: Seq<char>,
)
    requires
        0 <= start <= end <= content.len(),
        e.comment is None,
        update_result(path, culture, encoding_name, content, e, start, end, name) is Ok,
    ensures
        ({
            let t = update_result(path, culture, encoding_name, content, e, start, end, name)->Ok_0 .0;
            let nb = t.subrange(start, t.len() - (content.len() - end));
            &&& first_element(nb, 0, value_open(), value_close()) matches Some((a, b))
            &&& crate::entities::unescaped(nb.subrange(a, b)) == e.value
        }),
{
    let block = content.subrange(start, end);
    law_set_value_reads_back(block, e.value);
    let (a, b) = first_element(block, 0, value_open(), value_close())->0;
    let esc = escaped(e.value);
    let nb0 = block.subrange(0, a) + esc + block.subrange(b, block.len() as int);
    let t = update_result(path, culture, encoding_name, content, e, start, end, name)->Ok_0 .0;
    assert(t.subrange(start, t.len() - (content.len() - end)) =~= nb0);
}

proof fn lemma_first_char_upto(s: Seq<char>, from: int, k: int)
    requires
        0 <= from <= k < s.len(),
        s[k] == '>',
    ensures
        first_char_from(s, from, '>') matches Some(j) && j <= k,
    decreases k - from,
{
    if s[from] != '>' {
        lemma_first_char_upto(s, from + 1, k);
    }
}

/// Saving keeps the byte order mark of the file that was read: the mark
/// that detection found is one the file starts with, and text saved with
/// the detected encoding starts with the same mark.
pub proof fn law_bom_kept(bytes: Seq<u8>, text: Seq<char>)
    requires
        detected_encoding(bytes) is Ok,
        encoded_file(text, detected_encoding(bytes)->Ok_0) is Ok,
    ensures
        ({
            let enc = detected_encoding(bytes)->Ok_0;
            let out = encoded_file(text, enc)->Ok_0;
            &&& bytes_start_with(bytes, enc.bom)
            &&& bytes_start_with(out, enc.bom)
        }),
{
    let enc = detected_encoding(bytes)->Ok_0;
    let out = encoded_file(text, enc)->Ok_0;
    assert(out.subrange(0, enc.bom.len() as int) =~= enc.bom);
    if enc.bom.len() == 0 {
        assert(bytes.subrange(0, 0) =~= enc.bom);
    }
}

/// An entry that is refused, or whose resource is missing when missing
/// resources are not created, leaves the text as it was; when the run goes
/// on, it adds one report row that says so.
pub proof fn law_unapplied_entries_change_nothing(o: UpsertOptions, e: EntryView, st: UpsertState)
    requires
        validation(e, o.allow_suspicious) is Err || (!o.create_missing && named_block_from(
            st.content,
            0,
            e.name,
        ) is None),
        upsert_step(o, e, st) is Ok,
    ensures
        ({
            let next = upsert_step(o, e, st)->Ok_0;
            &&& next.content == st.content
            &&& next.changed == st.changed
            &&& next.applied == st.applied
            &&& next.rows.len() == st.rows.len() + 1
            &&& validation(e, o.allow_suspicious) is Err ==> (next.rows.last().status
                == ReportStatus::RejectedSuspicious || next.rows.last().status
                == ReportStatus::RejectedInvalid)
            &&& validation(e, o.allow_suspicious) is Ok ==> next.rows.last().status == (if o.skip_missing {
                ReportStatus::SkippedMissing
            } else {
                ReportStatus::Missing
            })
        }),
{
    if validation(e, o.allow_suspicious) is Ok {
        reveal_strlit("resource not found: ");
        reveal_strlit("resource not found:");
        let m = "resource not found: "@ + e.name;
        assert(m.subrange(0, "resource not found:"@.len() as int) =~= "resource not found:"@);
        assert(crate::upsert::is_not_found(m));
    }
}

proof fn lemma_step_same(o: UpsertOptions, e: EntryView, st1: UpsertState, st2: UpsertState)
    requires
        o.continue_on_error,
        st1.content == st2.content,
        st1.changed == st2.changed,
        st1.applied == st2.applied,
    ensures
        upsert_step(o, e, st1) is Ok,
        upsert_step(o, e, st2) is Ok,
        ({
            let n1 = upsert_step(o, e, st1)->Ok_0;
            let n2 = upsert_step(o, e, st2)->Ok_0;
            &&& n1.content == n2.content
            &&& n1.changed == n2.changed
            &&& n1.applied == n2.applied
            &&& n1.rows == st1.rows.push(n1.rows.last())
            &&& n2.rows == st2.rows.push(n2.rows.last())
            &&& n1.rows.last() == n2.rows.last()
        }),
{
}

proof fn lemma_runs_after_refusal(
    o: UpsertOptions,
    ev: Seq<EntryView>,
    k: int,
    j: int,
    s1: UpsertState,
    s2: UpsertState,
)
    requires
        o.continue_on_error,
        0 <= k < ev.len(),
        k <= j <= ev.len() - 1,
        s1.content == s2.content,
        s1.changed == s2.changed,
        s1.applied == s2.applied,
        k < s1.rows.len(),
        s1.rows.remove(k) == s2.rows,
    ensures
        upsert_from(o, ev, j + 1, s1) is Ok,
        upsert_from(o, ev.remove(k), j, s2) is Ok,
        ({
            let f1 = upsert_from(o, ev, j + 1, s1)->Ok_0;
            let f2 = upsert_from(o, ev.remove(k), j, s2)->Ok_0;
            &&& f1.content == f2.content
            &&& f1.changed == f2.changed
            &&& f1.applied == f2.applied
            &&& k < f1.rows.len()
            &&& f1.rows.remove(k) == f2.rows
            &&& f1.rows[k] == s1.rows[k]
        }),
    decreases ev.len() - j,
{
    let ev2 = ev.remove(k);
    assert(ev2.len() == ev.len() - 1);
    if j < ev2.len() {
        assert(ev2[j] == ev[j + 1]);
        lemma_step_same(o, ev[j + 1], s1, s2);
        let n1 = upsert_step(o, ev[j + 1], s1)->Ok_0;
        let n2 = upsert_step(o, ev[j + 1], s2)->Ok_0;
        assert(n1.rows.remove(k) =~= n2.rows);
        lemma_runs_after_refusal(o, ev, k, j + 1, n1, n2);
    }
}

proof fn lemma_runs_before_refusal(o: UpsertOptions, ev: Seq<EntryView>, k: int, j: int, s: UpsertState)
    requires
        o.continue_on_error,
        0 <= k < ev.len(),
        0 <= j <= k,
        s.rows.len() == j,
        validation(ev[k], o.allow_suspicious) is Err,
    ensures
        upsert_from(o, ev, j, s) is Ok,
        upsert_from(o, ev.remove(k), j, s) is Ok,
        ({
            let f1 = upsert_from(o, ev, j, s)->Ok_0;
            let f2 = upsert_from(o, ev.remove(k), j, s)->Ok_0;
            &&& f1.content == f2.content
            &&& f1.changed == f2.changed
            &&& f1.applied == f2.applied
            &&& k < f1.rows.len()
            &&& f1.rows.remove(k) == f2.rows
            &&& f1.rows[k] == invalid_row(
                o.path,
                o.culture,
                o.encoding_name,
                ev[k],
                error_text(validation(ev[k], o.allow_suspicious)->Err_0),
            )
        }),
    decreases k - j,
{
    let ev2 = ev.remove(k);
    if j < k {
        assert(ev2[j] == ev[j]);
        lemma_step_same(o, ev[j], s, s);
        let n = upsert_step(o, ev[j], s)->Ok_0;
        lemma_runs_before_refusal(o, ev, k, j + 1, n);
    } else {
        let n1 = upsert_step(o, ev[k], s)->Ok_0;
        assert(n1.rows.remove(k) =~= s.rows);
        lemma_runs_after_refusal(o, ev, k, k, n1, s);
    }
}

/// With `continue_on_error`, a refused entry is only reported: the run
/// gives the same text, the same "changed" answer and count, and the same
/// report rows as the run without that entry, apart from the one row that
/// refuses it, at the entry's place.
pub proof fn law_refused_entry_only_reported(
    o: UpsertOptions,
    entries: Seq<EntryView>,
    k: int,
    content: Seq<char>,
)
    requires
        o.continue_on_error,
        0 <= k < entries.len(),
        validation(entries[k], o.allow_suspicious) is Err,
    ensures
        upsert_from(o, entries, 0, initial_state(content)) is Ok,
        upsert_from(o, entries.remove(k), 0, initial_state(content)) is Ok,
        ({
            let f1 = upsert_from(o, entries, 0, initial_state(content))->Ok_0;
            let f2 = upsert_from(o, entries.remove(k), 0, initial_state(content))->Ok_0;
            &&& f1.content == f2.content
            &&& f1.changed == f2.changed
            &&& f1.applied == f2.applied
            &&& f1.rows.remove(k) == f2.rows
            &&& f1.rows[k] == invalid_row(
                o.path,
                o.culture,
                o.encoding_name,
                entries[k],
                error_text(validation(entries[k], o.allow_suspicious)->Err_0),
            )
            &&& (!o.allow_suspicious && !all_white_space(entries[k].name) && marker_count(
                entries[k].name,
            ) == 0 && marker_count(entries[k].value) > 0) ==> f1.rows[k].status
                == ReportStatus::RejectedSuspicious && f1.rows[k].kind == ReportKind::Value
        }),
{
    lemma_runs_before_refusal(o, entries, k, 0, initial_state(content));
    let e = entries[k];
    if !o.allow_suspicious && !all_white_space(e.name) && marker_count(e.name) == 0
        && marker_count(e.value) > 0 {
        let m = error_text(validation(e, false)->Err_0);
        reveal_strlit("refusing to set suspicious ");
        reveal_strlit("suspicious");
        let pre = "refusing to set suspicious "@;
        assert(m.subrange(16, 26) =~= "suspicious"@);
        assert(crate::text::exact_at(m, 16, "suspicious"@));
        lemma_first_exact_some(m, 0, "suspicious"@, 16);
    }
}

proof fn lemma_first_exact_some(s: Seq<char>, from: int, lit: Seq<char>, k: int)
    requires
        0 <= from <= k,
        crate::text::exact_at(s, k, lit),
        k < s.len(),
    ensures
        crate::text::first_exact_from(s, from, lit) is Some,
    decreases k - from,
{
    if from < k && !crate::text::exact_at(s, from, lit) {
        lemma_first_exact_some(s, from + 1, lit, k);
    }
}

/// A check only renames what a repair would correct: a row whose status
/// is not `corrected` is kept exactly as it is, and a `corrected` row
/// becomes `correctable` with all its other fields kept.
pub proof fn law_check_keeps_other_rows(rows: Seq<RowView>)
    ensures
        check_rows(rows).len() == rows.len(),
        forall|i: int|
            0 <= i < rows.len() && rows[i].status != ReportStatus::Corrected ==> #[trigger] check_rows(
                rows,
            )[i] == rows[i],
        forall|i: int|
            0 <= i < rows.len() && rows[i].status == ReportStatus::Corrected ==> #[trigger] check_rows(
                rows,
            )[i] == (RowView { status: ReportStatus::Correctable, ..rows[i] }),
{
}

/// The character that Windows-1252 reads a byte 0x80..=0xBF as (the bytes
/// it leaves undefined read as the control character of the same number).
pub open spec fn windows_1252_high(b: u8) -> char {
    if b >= 0xA0 {
        (b as u32) as char
    } else {
        let t: Seq<char> = seq![
            '\u{20ac}', '\u{81}', '\u{201a}', '\u{192}', '\u{201e}', '\u{2026}', '\u{2020}', '\u{2021}',
            '\u{2c6}', '\u{2030}', '\u{160}', '\u{2039}', '\u{152}', '\u{8d}', '\u{17d}', '\u{8f}',
            '\u{90}', '\u{2018}', '\u{2019}', '\u{201c}', '\u{201d}', '\u{2022}', '\u{2013}', '\u{2014}',
            '\u{2dc}', '\u{2122}', '\u{161}', '\u{203a}', '\u{153}', '\u{9d}', '\u{17e}', '\u{178}',
        ];
        t[b - 0x80]
    }
}

/// The Windows-1252 reading of every two-byte UTF-8 sequence with lead
/// byte 0xC3 or 0xC2 (`é` read as `Ã©`, `£` read as `Â£`, ...) is a telltale
/// of mojibake: a text holding it scores at least 1.
pub proof fn law_misread_two_byte_sequences_detected(b: u8)
    requires
        0x80 <= b <= 0xBF,
    ensures
        marker_count(seq!['\u{c3}', windows_1252_high(b)]) >= 1,
        marker_count(seq!['\u{c2}', windows_1252_high(b)]) >= 1,
        crate::mojibake::score(seq!['\u{c3}', windows_1252_high(b)]) >= 1,
{
    let c = windows_1252_high(b);
    if b >= 0xA0 {
        assert(0xA0 <= (b as u32) <= 0xBF);
        assert('\u{a0}' <= c && c <= '\u{bf}');
    }
    assert(crate::mojibake::is_continuation_glyph(c));
    let s1 = seq!['\u{c3}', c];
    let s2 = seq!['\u{c2}', c];
    assert(crate::mojibake::marker_at_front(s1));
    assert(crate::mojibake::marker_at_front(s2));
    assert(marker_count(s1) >= 1);
    assert(marker_count(s2) >= 1);
}

/// Validation refuses exactly an entry whose name is blank and, unless
/// suspicious text is allowed, one whose name, value or comment shows a
/// telltale of mojibake; anything else, an empty value too, is accepted.
pub proof fn law_validation_refuses_exactly(e: EntryView, allow_suspicious: bool)
    ensures
        validation(e, allow_suspicious) is Err <==> (all_white_space(e.name) || (!allow_suspicious && (
        marker_count(e.name) > 0 || marker_count(e.value) > 0 || (match e.comment {
            Some(c) => marker_count(c) > 0,
            None => false,
        })))),
{
}

/// The number of rows that report a resource as updated or added.
pub open spec fn applied_rows(rows: Seq<RowView>) -> nat
    decreases rows.len(),
{
    if rows.len() == 0 {
        0
    } else {
        applied_rows(rows.drop_last()) + (if rows.last().status == ReportStatus::Updated
            || rows.last().status == ReportStatus::Added {
            1nat
        } else {
            0nat
        })
    }
}

proof fn lemma_step_counts(o: UpsertOptions, e: EntryView, st: UpsertState)
    requires
        st.changed == (st.applied > 0),
        st.applied == applied_rows(st.rows),
        upsert_step(o, e, st) is Ok,
    ensures
        ({
            let next = upsert_step(o, e, st)->Ok_0;
            &&& next.changed == (next.applied > 0)
            &&& next.applied == applied_rows(next.rows)
            &&& st.changed ==> next.changed
        }),
{
    let next = upsert_step(o, e, st)->Ok_0;
    if validation(e, o.allow_suspicious) is Ok {
        match crate::resx::upserted(o.path, o.culture, o.encoding_name, st.content, e, o.create_missing) {
            Ok((t, row, ch)) => {
                crate::reapply::law_set_reports_change_exactly(
                    o.path,
                    o.culture,
                    o.encoding_name,
                    st.content,
                    e,
                    o.create_missing,
                );
                assert(next.rows.drop_last() =~= st.rows);
            },
            Err(_) => {
                assert(next.rows.drop_last() =~= st.rows);
            },
        }
    } else {
        assert(next.rows.drop_last() =~= st.rows);
    }
}

proof fn lemma_run_counts(o: UpsertOptions, entries: Seq<EntryView>, k: int, st: UpsertState)
    requires
        st.changed == (st.applied > 0),
        st.applied == applied_rows(st.rows),
        upsert_from(o, entries, k, st) is Ok,
    ensures
        ({
            let f = upsert_from(o, entries, k, st)->Ok_0;
            &&& f.changed == (f.applied > 0)
            &&& f.applied == applied_rows(f.rows)
            &&& st.changed ==> f.changed
        }),
    decreases entries.len() - k,
{
    if 0 <= k < entries.len() {
        lemma_step_counts(o, entries[k], st);
        lemma_run_counts(o, entries, k + 1, upsert_step(o, entries[k], st)->Ok_0);
    }
}

/// A run over the entries reports the text changed exactly when some
/// entry was applied, and counts as applied exactly the rows that report a
/// resource updated or added: a later unchanged entry never clears an
/// earlier change.
pub proof fn law_run_changed_iff_applied(o: UpsertOptions, entries: Seq<EntryView>, content: Seq<char>)
    requires
        upsert_from(o, entries, 0, initial_state(content)) is Ok,
    ensures
        ({
            let f = upsert_from(o, entries, 0, initial_state(content))->Ok_0;
            &&& f.changed == (f.applied > 0)
            &&& f.applied == applied_rows(f.rows)
        }),
{
    lemma_run_counts(o, entries, 0, initial_state(content));
}

} // verus!
