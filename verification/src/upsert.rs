//! Setting many resource values in one text: each entry is validated, then
//! updated or added; refused, missing and failed entries either stop the
//! run or are reported and skipped.

use vstd::prelude::*;
use crate::encoding::FileEncoding;
use crate::entities::starts_with;
use crate::error::{error_text, AppError, AppErrorView};
use crate::mojibake::{mojibake_score, score};
use crate::report::{opt_view, report_row, row_of, rows_view, ReportKind, ReportRow, ReportStatus, RowView};
use crate::resx::{
    invalid_import_row, invalid_row, lemma_rows_view_concat, upsert_resx_value_in_content,
    upserted, validate_set_entry, validation, EntryView, SetEntry,
};
use crate::text::{chars_of, exact_match};

verus! {

/// A line for the console about an entry that was not applied.
#[derive(Debug, Clone)]
pub enum Notice {
    /// The entry was refused; the message says why.
    Rejected(String),
    /// The entry's resource was not found; the status and the name.
    Missing(ReportStatus, String),
    /// Setting the entry failed; the message says why.
    Failed(String),
}

pub enum NoticeView {
    Rejected(Seq<char>),
    Missing(ReportStatus, Seq<char>),
    Failed(Seq<char>),
}

impl View for Notice {
    type V = NoticeView;

    open spec fn view(&self) -> NoticeView {
        match self {
            Notice::Rejected(m) => NoticeView::Rejected(m@),
            Notice::Missing(s, n) => NoticeView::Missing(*s, n@),
            Notice::Failed(m) => NoticeView::Failed(m@),
        }
    }
}

/// The state of a run over the entries.
pub struct UpsertState {
    pub content: Seq<char>,
    pub rows: Seq<RowView>,
    pub changed: bool,
    pub applied: nat,
    pub notices: Seq<NoticeView>,
}

/// What a run over the entries gives.
#[derive(Debug, Clone)]
pub struct UpsertOutcome {
    /// The text with the entries applied.
    pub content: String,
    pub rows: Vec<ReportRow>,
    /// Whether some entry changed the text.
    pub changed: bool,
    /// How many entries changed the text.
    pub applied: usize,
    pub notices: Vec<Notice>,
}

/// Why a run stopped: the error, and the notices given before it.
#[derive(Debug, Clone)]
pub struct UpsertFailure {
    pub error: AppError,
    pub notices: Vec<Notice>,
}

pub open spec fn entries_view(entries: Seq<SetEntry>) -> Seq<EntryView> {
    entries.map_values(|e: SetEntry| e@)
}

pub open spec fn notices_view(notices: Seq<Notice>) -> Seq<NoticeView> {
    notices.map_values(|n: Notice| n@)
}

/// The options of a run.
pub struct UpsertOptions {
    pub path: Seq<char>,
    pub culture: Option<Seq<char>>,
    pub encoding_name: Seq<char>,
    pub create_missing: bool,
    pub allow_suspicious: bool,
    pub skip_missing: bool,
    pub continue_on_error: bool,
}

pub open spec fn is_not_found(m: Seq<char>) -> bool {
    starts_with(m, "resource not found:"@)
}

/// One step of a run: what the entry `e` does to the state.
/// An error stops the run; it comes with the notices given before it.
pub open spec fn upsert_step(o: UpsertOptions, e: EntryView, st: UpsertState) -> Result<UpsertState, (AppErrorView, Seq<NoticeView>)> {
    match validation(e, o.allow_suspicious) {
        Err(err) => if o.continue_on_error {
            Ok(
                UpsertState {
                    rows: st.rows.push(invalid_row(o.path, o.culture, o.encoding_name, e, error_text(err))),
                    notices: st.notices.push(NoticeView::Rejected(error_text(err))),
                    ..st
                },
            )
        } else {
            Err((err, st.notices))
        },
        Ok(()) => match upserted(o.path, o.culture, o.encoding_name, st.content, e, o.create_missing) {
            Ok((content, row, changed)) => Ok(
                UpsertState {
                    content,
                    rows: st.rows.push(row),
                    changed: st.changed || changed,
                    applied: st.applied + (if changed {
                        1nat
                    } else {
                        0nat
                    }),
                    notices: st.notices,
                },
            ),
            Err(AppErrorView::Message(m)) if is_not_found(m) => {
                let status = if o.skip_missing {
                    ReportStatus::SkippedMissing
                } else {
                    ReportStatus::Missing
                };
                if o.skip_missing || o.continue_on_error {
                    Ok(
                        UpsertState {
                            rows: st.rows.push(
                                row_of(
                                    o.path,
                                    o.culture,
                                    o.encoding_name,
                                    e.name,
                                    ReportKind::Value,
                                    status,
                                    0,
                                    score(e.value),
                                    Seq::empty(),
                                    Seq::empty(),
                                    e.value,
                                ),
                            ),
                            notices: st.notices.push(NoticeView::Missing(status, e.name)),
                            ..st
                        },
                    )
                } else {
                    Err((AppErrorView::Message(m), st.notices))
                }
            },
            Err(err) => if o.continue_on_error {
                Ok(
                    UpsertState {
                        rows: st.rows.push(
                            row_of(
                                o.path,
                                o.culture,
                                o.encoding_name,
                                e.name,
                                ReportKind::Value,
                                ReportStatus::Failed,
                                0,
                                score(e.value),
                                Seq::empty(),
                                Seq::empty(),
                                error_text(err),
                            ),
                        ),
                        notices: st.notices.push(NoticeView::Failed(error_text(err))),
                        ..st
                    },
                )
            } else {
                Err((err, st.notices))
            },
        },
    }
}

/// A run over the entries from the `k`-th on.
pub open spec fn upsert_from(o: UpsertOptions, entries: Seq<EntryView>, k: int, st: UpsertState) -> Result<UpsertState, (AppErrorView, Seq<NoticeView>)>
    decreases entries.len() - k,
{
    if k < 0 || k >= entries.len() {
        Ok(st)
    } else {
        match upsert_step(o, entries[k], st) {
            Ok(next) => upsert_from(o, entries, k + 1, next),
            Err(e) => Err(e),
        }
    }
}

pub open spec fn initial_state(content: Seq<char>) -> UpsertState {
    UpsertState {
        content,
        rows: Seq::empty(),
        changed: false,
        applied: 0,
        notices: Seq::empty(),
    }
}

pub open spec fn options(
    path: &str,
    culture: Option<&str>,
    enc: &FileEncoding,
    create_missing: bool,
    allow_suspicious: bool,
    skip_missing: bool,
    continue_on_error: bool,
) -> UpsertOptions {
    UpsertOptions {
        path: path@,
        culture: opt_view(culture),
        encoding_name: enc.name@,
        create_missing,
        allow_suspicious,
        skip_missing,
        continue_on_error,
    }
}

fn not_found_message(m: &str) -> (res: bool)
    ensures
        res == is_not_found(m@),
{
    let c = chars_of(m);
    let p = chars_of("resource not found:");
    let r = exact_match(&c, 0, &p);
    proof {
        if p@.len() <= c@.len() {
            assert(c@.subrange(0, p@.len() as int) =~= c@.subrange(0, 0 + p@.len() as int));
        }
    }
    r
}

/// Sets the entries one after the other in the text of a `.resx` file (see
/// [`upsert_from`]).
pub fn upsert_entries(
    path: &str,
    content: &str,
    enc: &FileEncoding,
    culture: Option<&str>,
    entries: &[SetEntry],
    create_missing: bool,
    allow_suspicious: bool,
    skip_missing: bool,
    continue_on_error: bool,
) -> (res: Result<UpsertOutcome, UpsertFailure>)
    ensures
        match res {
            Ok(out) => upsert_from(
                options(path, culture, enc, create_missing, allow_suspicious, skip_missing, continue_on_error),
                entries_view(entries@),
                0,
                initial_state(content@),
            ) == Ok::<UpsertState, (AppErrorView, Seq<NoticeView>)>(
                UpsertState {
                    content: out.content@,
                    rows: rows_view(out.rows@),
                    changed: out.changed,
                    applied: out.applied as nat,
                    notices: notices_view(out.notices@),
                },
            ),
            Err(e) => upsert_from(
                options(path, culture, enc, create_missing, allow_suspicious, skip_missing, continue_on_error),
                entries_view(entries@),
                0,
                initial_state(content@),
            ) == Err::<UpsertState, (AppErrorView, Seq<NoticeView>)>((e.error@, notices_view(e.notices@))),
        },
{
    let ghost o = options(path, culture, enc, create_missing, allow_suspicious, skip_missing, continue_on_error);
    let ghost ev = entries_view(entries@);
    let ghost total = upsert_from(o, ev, 0, initial_state(content@));
    let mut text: String = content.to_owned();
    let mut rows: Vec<ReportRow> = Vec::new();
    let mut changed_any = false;
    let mut applied: usize = 0;
    let mut notices: Vec<Notice> = Vec::new();
    let mut k: usize = 0;
    assert(rows_view(rows@) =~= Seq::<RowView>::empty());
    assert(notices_view(notices@) =~= Seq::<NoticeView>::empty());
    while k < entries.len()
        invariant
            k <= entries@.len(),
            applied <= k,
            ev == entries_view(entries@),
            o == options(path, culture, enc, create_missing, allow_suspicious, skip_missing, continue_on_error),
            total == upsert_from(o, ev, 0, initial_state(content@)),
            total == upsert_from(
                o,
                ev,
                k as int,
                UpsertState {
                    content: text@,
                    rows: rows_view(rows@),
                    changed: changed_any,
                    applied: applied as nat,
                    notices: notices_view(notices@),
                },
            ),
        decreases entries@.len() - k,
    {
        let entry = &entries[k];
        assert(ev[k as int] == entry@);
        let ghost st = UpsertState {
            content: text@,
            rows: rows_view(rows@),
            changed: changed_any,
            applied: applied as nat,
            notices: notices_view(notices@),
        };
        match validate_set_entry(entry, allow_suspicious) {
            Err(err) => {
                if continue_on_error {
                    let message = err.to_string();
                    let row = invalid_import_row(path, culture, enc, entry, message.as_str());
                    rows.push(row);
                    notices.push(Notice::Rejected(message));
                    assert(rows_view(rows@) =~= st.rows.push(row@));
                    assert(notices_view(notices@) =~= st.notices.push(NoticeView::Rejected(error_text(err@))));
                    k += 1;
                    continue;
                }
                return Err(UpsertFailure { error: err, notices });
            },
            Ok(()) => {},
        }
        match upsert_resx_value_in_content(path, text.as_str(), enc, culture, entry, create_missing) {
            Ok((new_text, row, changed)) => {
                text = new_text;
                if changed {
                    changed_any = true;
                    applied += 1;
                }
                rows.push(row);
                assert(rows_view(rows@) =~= st.rows.push(row@));
            },
            Err(err) => {
                let is_missing = match &err {
                    AppError::Message(m) => not_found_message(m.as_str()),
                    _ => false,
                };
                if is_missing {
                    let status = if skip_missing {
                        ReportStatus::SkippedMissing
                    } else {
                        ReportStatus::Missing
                    };
                    if skip_missing || continue_on_error {
                        let sc = mojibake_score(entry.value.as_str());
                        proof {
                            reveal_strlit("");
                            assert(""@ =~= Seq::<char>::empty());
                        }
                        let row = report_row(
                            path,
                            culture,
                            enc,
                            entry.name.as_str(),
                            ReportKind::Value,
                            status,
                            0,
                            sc,
                            "",
                            "",
                            entry.value.as_str(),
                        );
                        rows.push(row);
                        notices.push(Notice::Missing(status, entry.name.clone()));
                        assert(rows_view(rows@) =~= st.rows.push(row@));
                        assert(notices_view(notices@) =~= st.notices.push(NoticeView::Missing(status, entry@.name)));
                        k += 1;
                        continue;
                    }
                    return Err(UpsertFailure { error: err, notices });
                }
                if continue_on_error {
                    let message = err.to_string();
                    let sc = mojibake_score(entry.value.as_str());
                    proof {
                        reveal_strlit("");
                        assert(""@ =~= Seq::<char>::empty());
                    }
                    let row = report_row(
                        path,
                        culture,
                        enc,
                        entry.name.as_str(),
                        ReportKind::Value,
                        ReportStatus::Failed,
                        0,
                        sc,
                        "",
                        "",
                        message.as_str(),
                    );
                    rows.push(row);
                    notices.push(Notice::Failed(message));
                    assert(rows_view(rows@) =~= st.rows.push(row@));
                    assert(notices_view(notices@) =~= st.notices.push(NoticeView::Failed(error_text(err@))));
                    k += 1;
                    continue;
                }
                return Err(UpsertFailure { error: err, notices });
            },
        }
        k += 1;
    }
    Ok(UpsertOutcome { content: text, rows, changed: changed_any, applied, notices })
}

} // verus!
