//! Detecting and repairing mojibake: UTF-8 text that was decoded with a
//! legacy single-byte encoding (most often Windows-1252), so that `é`
//! reads `Ã©` and `’` reads `â€™`.

use vstd::prelude::*;
use crate::cli::Mode;
use crate::encoding::{decode_outcome, decode_with_label, encode_outcome, encode_with_label};
use crate::entities::{unescape_chars, unescaped};
use crate::text::{chars_of, string_from_chars};

verus! {

/// The Windows-1252 rendering of a byte 0x80..=0xBF, the range of UTF-8
/// continuation bytes (bytes that Windows-1252 leaves undefined read as the
/// control character with the same number).
pub open spec fn is_continuation_glyph(c: char) -> bool {
    ||| ('\u{a0}' <= c && c <= '\u{bf}')
    ||| c == '\u{81}' || c == '\u{8d}' || c == '\u{8f}' || c == '\u{90}' || c == '\u{9d}'
    ||| c == '\u{20ac}' || c == '\u{201a}' || c == '\u{192}' || c == '\u{201e}'
    ||| c == '\u{2026}' || c == '\u{2020}' || c == '\u{2021}' || c == '\u{2c6}'
    ||| c == '\u{2030}' || c == '\u{160}' || c == '\u{2039}' || c == '\u{152}'
    ||| c == '\u{17d}' || c == '\u{2018}' || c == '\u{2019}' || c == '\u{201c}'
    ||| c == '\u{201d}' || c == '\u{2022}' || c == '\u{2013}' || c == '\u{2014}'
    ||| c == '\u{2dc}' || c == '\u{2122}' || c == '\u{161}' || c == '\u{203a}'
    ||| c == '\u{153}' || c == '\u{17e}' || c == '\u{178}'
}

fn continuation_glyph(c: char) -> (res: bool)
    ensures
        res == is_continuation_glyph(c),
{
    ('\u{a0}' <= c && c <= '\u{bf}') || c == '\u{81}' || c == '\u{8d}' || c == '\u{8f}' || c
        == '\u{90}' || c == '\u{9d}' || c == '\u{20ac}' || c == '\u{201a}' || c == '\u{192}'
        || c == '\u{201e}' || c == '\u{2026}' || c == '\u{2020}' || c == '\u{2021}' || c
        == '\u{2c6}' || c == '\u{2030}' || c == '\u{160}' || c == '\u{2039}' || c == '\u{152}'
        || c == '\u{17d}' || c == '\u{2018}' || c == '\u{2019}' || c == '\u{201c}' || c
        == '\u{201d}' || c == '\u{2022}' || c == '\u{2013}' || c == '\u{2014}' || c == '\u{2dc}'
        || c == '\u{2122}' || c == '\u{161}' || c == '\u{203a}' || c == '\u{153}' || c
        == '\u{17e}' || c == '\u{178}'
}

/// A telltale of mojibake starts at the front of `s`: a replacement
/// character, `Ã` or `Â` (the Windows-1252 reading of the lead bytes 0xC3 and
/// 0xC2) followed by the reading of a continuation byte, or `â€` (the
/// reading of 0xE2 0x80, the start of typographic punctuation).
pub open spec fn marker_at_front(s: Seq<char>) -> bool {
    s.len() > 0 && (s[0] == '\u{fffd}' || (s.len() > 1 && (((s[0] == '\u{c3}' || s[0]
        == '\u{c2}') && is_continuation_glyph(s[1])) || (s[0] == '\u{e2}' && s[1]
        == '\u{20ac}'))))
}

/// The number of telltales of mojibake in `s`.
pub open spec fn marker_count(s: Seq<char>) -> nat
    decreases s.len(),
{
    if s.len() == 0 {
        0
    } else {
        (if marker_at_front(s) {
            1nat
        } else {
            0nat
        }) + marker_count(s.skip(1))
    }
}

/// The mojibake score of `s`: its number of telltales, capped at `i32::MAX`.
pub open spec fn score(s: Seq<char>) -> i32 {
    if marker_count(s) > i32::MAX {
        i32::MAX
    } else {
        marker_count(s) as i32
    }
}

proof fn lemma_marker_count_le(s: Seq<char>)
    ensures
        marker_count(s) <= s.len(),
    decreases s.len(),
{
    if s.len() > 0 {
        lemma_marker_count_le(s.skip(1));
    }
}

/// The number of telltales in `s`.
pub fn count_markers(s: &[char]) -> (res: usize)
    ensures
        res == marker_count(s@),
{
    let mut count: usize = 0;
    let mut i: usize = 0;
    assert(s@.skip(0) =~= s@);
    proof {
        lemma_marker_count_le(s@);
    }
    while i < s.len()
        invariant
            i <= s@.len(),
            s@.len() == s.len(),
            count + marker_count(s@.skip(i as int)) == marker_count(s@),
            marker_count(s@) <= s@.len(),
        decreases s@.len() - i,
    {
        let ghost rest = s@.skip(i as int);
        assert(rest.skip(1) =~= s@.skip(i + 1));
        let c = s[i];
        let hit = c == '\u{fffd}' || (i + 1 < s.len() && (((c == '\u{c3}' || c == '\u{c2}')
            && continuation_glyph(s[i + 1])) || (c == '\u{e2}' && s[i + 1] == '\u{20ac}')));
        assert(hit == marker_at_front(rest));
        proof {
            lemma_marker_count_le(s@.skip(i + 1));
        }
        if hit {
            count += 1;
        }
        i += 1;
    }
    count
}

fn cap_score(n: usize) -> (res: i32)
    ensures
        res == (if n > i32::MAX {
            i32::MAX
        } else {
            n as i32
        }),
{
    if n > 2147483647 {
        2147483647
    } else {
        n as i32
    }
}

/// The mojibake score of `text` (see [`score`]).
pub fn mojibake_score(text: &str) -> (res: i32)
    ensures
        res == score(text@),
{
    let chars = chars_of(text);
    cap_score(count_markers(&chars))
}

/// Whether `text` shows telltales of mojibake, so that writing it into a
/// resource file should be refused.
pub fn looks_unsafe_for_set(text: &str) -> (res: bool)
    ensures
        res == (marker_count(text@) > 0),
{
    let chars = chars_of(text);
    count_markers(&chars) > 0
}

/// The encodings under which a mode assumes text may have been misread, in
/// the order they are tried.
pub open spec fn candidates(mode: Mode) -> Seq<&'static str> {
    match mode {
        Mode::Safe => seq!["windows-1252"],
        Mode::Broad => seq!["windows-1252", "iso-8859-15", "windows-1250"],
        Mode::Aggressive => seq![
            "windows-1252",
            "iso-8859-15",
            "windows-1250",
            "windows-1251",
            "windows-1253",
            "windows-1254",
            "windows-1257",
            "macintosh",
        ],
    }
}

pub fn candidate_encodings(mode: Mode) -> (res: Vec<&'static str>)
    ensures
        res@ == candidates(mode),
{
    match mode {
        Mode::Safe => vec!["windows-1252"],
        Mode::Broad => vec!["windows-1252", "iso-8859-15", "windows-1250"],
        Mode::Aggressive => vec![
            "windows-1252",
            "iso-8859-15",
            "windows-1250",
            "windows-1251",
            "windows-1253",
            "windows-1254",
            "windows-1257",
            "macintosh",
        ],
    }
}

/// `text` read back as the UTF-8 it was before it was misread as `label`:
/// encoded with `label` without unmappable characters, then decoded as
/// UTF-8 without malformed sequences.
pub open spec fn undo_misreading(text: Seq<char>, label: Seq<char>) -> Option<Seq<char>> {
    match encode_outcome(label, text) {
        Some((bytes, false)) => match decode_outcome("utf-8"@, bytes) {
            Some((t, false)) => Some(t),
            _ => None,
        },
        _ => None,
    }
}

/// Of the candidates from index `i` on, the first whose reading has the
/// fewest telltales, provided it has fewer than `text` and than `acc`.
pub open spec fn best_from(
    text: Seq<char>,
    cands: Seq<&'static str>,
    i: int,
    acc: Option<(Seq<char>, &'static str)>,
) -> Option<(Seq<char>, &'static str)>
    decreases cands.len() - i,
{
    if i < 0 || i >= cands.len() {
        acc
    } else {
        let next = match undo_misreading(text, cands[i]@) {
            Some(t) => if marker_count(t) < marker_count(text) && (match acc {
                Some((a, _)) => marker_count(t) < marker_count(a),
                None => true,
            }) {
                Some((t, cands[i]))
            } else {
                acc
            },
            None => acc,
        };
        best_from(text, cands, i + 1, next)
    }
}

/// Up to `passes` rounds of undoing the best misreading, stopping early when
/// no candidate lowers the number of telltales. The result is the text and
/// the encoding of the last round that changed it.
pub open spec fn repair_passes(
    text: Seq<char>,
    cands: Seq<&'static str>,
    passes: nat,
    used: Option<&'static str>,
) -> (Seq<char>, Option<&'static str>)
    decreases passes,
{
    if passes == 0 {
        (text, used)
    } else {
        match best_from(text, cands, 0, None) {
            Some((t, l)) => repair_passes(t, cands, (passes - 1) as nat, Some(l)),
            None => (text, used),
        }
    }
}

/// The outcome of repairing a text.
#[derive(Debug, Clone)]
pub struct RepairOutcome {
    pub text: String,
    pub changed: bool,
    pub before_score: i32,
    pub after_score: i32,
    pub encoding_used: Option<String>,
    pub still_suspicious: bool,
}

/// The mathematical model of a [`RepairOutcome`].
pub struct RepairView {
    pub text: Seq<char>,
    pub changed: bool,
    pub before_score: i32,
    pub after_score: i32,
    pub encoding_used: Option<Seq<char>>,
    pub still_suspicious: bool,
}

impl View for RepairOutcome {
    type V = RepairView;

    open spec fn view(&self) -> RepairView {
        RepairView {
            text: self.text@,
            changed: self.changed,
            before_score: self.before_score,
            after_score: self.after_score,
            encoding_used: match self.encoding_used {
                Some(e) => Some(e@),
                None => None,
            },
            still_suspicious: self.still_suspicious,
        }
    }
}

/// What repairing `text` gives: entities are decoded first when asked, then
/// misreadings are undone for up to `max_passes` rounds.
pub open spec fn repaired(text: Seq<char>, mode: Mode, max_passes: nat, decode_entities: bool) -> RepairView {
    let start = if decode_entities {
        unescaped(text)
    } else {
        text
    };
    let (fixed, used) = repair_passes(start, candidates(mode), max_passes, None);
    RepairView {
        text: fixed,
        changed: fixed != text,
        before_score: score(text),
        after_score: score(fixed),
        encoding_used: match used {
            Some(l) => Some(l@),
            None => None,
        },
        still_suspicious: marker_count(fixed) > 0,
    }
}

fn undo_misreading_exec(text: &[char], label: &str) -> (res: Option<Vec<char>>)
    ensures
        match res {
            Some(t) => undo_misreading(text@, label@) == Some(t@),
            None => undo_misreading(text@, label@) is None,
        },
{
    let s = string_from_chars(text);
    match encode_with_label(label, s.as_str()) {
        Some((bytes, errors)) => {
            if errors {
                return None;
            }
            match decode_with_label("utf-8", bytes.as_slice()) {
                Some((t, errs)) => {
                    if errs {
                        None
                    } else {
                        Some(chars_of(t.as_str()))
                    }
                },
                None => None,
            }
        },
        None => None,
    }
}

fn best_candidate(text: &[char], cands: &Vec<&'static str>) -> (res: Option<(Vec<char>, &'static str)>)
    ensures
        match res {
            Some((t, l)) => best_from(text@, cands@, 0, None) == Some((t@, l)),
            None => best_from(text@, cands@, 0, None) is None,
        },
{
    let text_count = count_markers(text);
    let mut best: Option<(Vec<char>, &'static str)> = None;
    let mut best_count: usize = 0;
    let mut i: usize = 0;
    while i < cands.len()
        invariant
            i <= cands@.len(),
            text_count == marker_count(text@),
            best_from(text@, cands@, 0, None) == best_from(
                text@,
                cands@,
                i as int,
                match best {
                    Some((t, l)) => Some((t@, l)),
                    None => None,
                },
            ),
            best matches Some((t, _)) ==> best_count == marker_count(t@),
        decreases cands@.len() - i,
    {
        let label = cands[i];
        match undo_misreading_exec(text, label) {
            Some(t) => {
                let c = count_markers(&t);
                let better = c < text_count && (match &best {
                    Some(_) => c < best_count,
                    None => true,
                });
                if better {
                    best = Some((t, label));
                    best_count = c;
                }
            },
            None => {},
        }
        i += 1;
    }
    best
}

/// Repairs mojibake in `text`. With `decode_entities`, character entities
/// are decoded first. Then, for up to `max_passes` rounds, the text is read
/// back from each candidate encoding of `mode` as UTF-8, and the reading with
/// the fewest telltales is kept when it has fewer than the text.
pub fn repair_mojibake_text(text: &str, mode: Mode, max_passes: usize, decode_entities: bool) -> (res:
    RepairOutcome)
    ensures
        res@ == repaired(text@, mode, max_passes as nat, decode_entities),
{
    let original = chars_of(text);
    let cands = candidate_encodings(mode);
    let mut cur: Vec<char> = if decode_entities {
        unescape_chars(&original)
    } else {
        original.clone()
    };
    let mut used: Option<&'static str> = None;
    let mut pass: usize = 0;
    let ghost start = cur@;
    while pass < max_passes
        invariant
            pass <= max_passes,
            cands@ == candidates(mode),
            repair_passes(start, candidates(mode), max_passes as nat, None) == repair_passes(
                cur@,
                candidates(mode),
                (max_passes - pass) as nat,
                used,
            ),
        ensures
            repair_passes(start, candidates(mode), max_passes as nat, None) == (cur@, used),
        decreases max_passes - pass,
    {
        match best_candidate(&cur, &cands) {
            Some((t, l)) => {
                cur = t;
                used = Some(l);
            },
            None => {
                break;
            },
        }
        pass += 1;
    }
    let ghost fixed = repair_passes(start, candidates(mode), max_passes as nat, None);
    assert(fixed.0 == cur@ && fixed.1 == used);
    let before = cap_score(count_markers(&original));
    let after_count = count_markers(&cur);
    let after = cap_score(after_count);
    let changed = !chars_equal(&cur, &original);
    let text_out = string_from_chars(&cur);
    let encoding_used = match used {
        Some(l) => Some(l.to_owned()),
        None => None,
    };
    RepairOutcome {
        text: text_out,
        changed,
        before_score: before,
        after_score: after,
        encoding_used,
        still_suspicious: after_count > 0,
    }
}

/// Whether two character sequences are equal.
pub fn chars_equal(a: &[char], b: &[char]) -> (res: bool)
    ensures
        res == (a@ == b@),
{
    if a.len() != b.len() {
        return false;
    }
    let mut i: usize = 0;
    while i < a.len()
        invariant
            a@.len() == b@.len(),
            i <= a@.len(),
            forall|k: int| 0 <= k < i ==> a@[k] == b@[k],
        decreases a@.len() - i,
    {
        if a[i] != b[i] {
            return false;
        }
        i += 1;
    }
    assert(a@ =~= b@);
    true
}

} // verus!
