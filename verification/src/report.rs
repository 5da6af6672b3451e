//! Report rows: one per finding or per change, with stable `snake_case`
//! status names.

use vstd::prelude::*;
use crate::encoding::FileEncoding;
use crate::text::{chars_of, string_from_chars};

verus! {

/// What part of a resource a row is about.
#[derive(Debug, Clone, Copy, PartialEq, Eq, Structural)]
pub enum ReportKind {
    Value,
    Comment,
    Key,
    Name,
}

/// What happened to a resource.
#[derive(Debug, Clone, Copy, PartialEq, Eq, Structural)]
pub enum ReportStatus {
    Correctable,
    Corrected,
    StillSuspicious,
    Added,
    Updated,
    Unchanged,
    SkippedMissing,
    RejectedSuspicious,
    RejectedInvalid,
    Missing,
    Failed,
}

pub open spec fn kind_name(k: ReportKind) -> Seq<char> {
    match k {
        ReportKind::Value => "value"@,
        ReportKind::Comment => "comment"@,
        ReportKind::Key => "key"@,
        ReportKind::Name => "name"@,
    }
}

pub open spec fn status_name(s: ReportStatus) -> Seq<char> {
    match s {
        ReportStatus::Correctable => "correctable"@,
        ReportStatus::Corrected => "corrected"@,
        ReportStatus::StillSuspicious => "still_suspicious"@,
        ReportStatus::Added => "added"@,
        ReportStatus::Updated => "updated"@,
        ReportStatus::Unchanged => "unchanged"@,
        ReportStatus::SkippedMissing => "skipped_missing"@,
        ReportStatus::RejectedSuspicious => "rejected_suspicious"@,
        ReportStatus::RejectedInvalid => "rejected_invalid"@,
        ReportStatus::Missing => "missing"@,
        ReportStatus::Failed => "failed"@,
    }
}

impl ReportKind {
    /// The kind's name in reports.
    pub fn to_string(&self) -> (res: String)
        ensures
            res@ == kind_name(*self),
    {
        match self {
            ReportKind::Value => "value".to_owned(),
            ReportKind::Comment => "comment".to_owned(),
            ReportKind::Key => "key".to_owned(),
            ReportKind::Name => "name".to_owned(),
        }
    }
}

impl ReportStatus {
    /// The status's name in reports.
    pub fn to_string(&self) -> (res: String)
        ensures
            res@ == status_name(*self),
    {
        match self {
            ReportStatus::Correctable => "correctable".to_owned(),
            ReportStatus::Corrected => "corrected".to_owned(),
            ReportStatus::StillSuspicious => "still_suspicious".to_owned(),
            ReportStatus::Added => "added".to_owned(),
            ReportStatus::Updated => "updated".to_owned(),
            ReportStatus::Unchanged => "unchanged".to_owned(),
            ReportStatus::SkippedMissing => "skipped_missing".to_owned(),
            ReportStatus::RejectedSuspicious => "rejected_suspicious".to_owned(),
            ReportStatus::RejectedInvalid => "rejected_invalid".to_owned(),
            ReportStatus::Missing => "missing".to_owned(),
            ReportStatus::Failed => "failed".to_owned(),
        }
    }
}

/// One row of a report.
#[derive(Debug, Clone)]
pub struct ReportRow {
    pub file: String,
    pub culture: String,
    pub encoding: String,
    pub resource: String,
    pub kind: ReportKind,
    pub status: ReportStatus,
    pub before_score: i32,
    pub after_score: i32,
    pub encoding_used: String,
    pub old_preview: String,
    pub new_preview: String,
}

/// The mathematical model of a [`ReportRow`].
pub struct RowView {
    pub file: Seq<char>,
    pub culture: Seq<char>,
    pub encoding: Seq<char>,
    pub resource: Seq<char>,
    pub kind: ReportKind,
    pub status: ReportStatus,
    pub before_score: i32,
    pub after_score: i32,
    pub encoding_used: Seq<char>,
    pub old_preview: Seq<char>,
    pub new_preview: Seq<char>,
}

impl View for ReportRow {
    type V = RowView;

    open spec fn view(&self) -> RowView {
        RowView {
            file: self.file@,
            culture: self.culture@,
            encoding: self.encoding@,
            resource: self.resource@,
            kind: self.kind,
            status: self.status,
            before_score: self.before_score,
            after_score: self.after_score,
            encoding_used: self.encoding_used@,
            old_preview: self.old_preview@,
            new_preview: self.new_preview@,
        }
    }
}

/// The models of a list of rows.
pub open spec fn rows_view(rows: Seq<ReportRow>) -> Seq<RowView> {
    rows.map_values(|r: ReportRow| r@)
}

/// `s` on one line: carriage returns and line feeds are shown as `\r` and `\n`.
pub open spec fn one_line(s: Seq<char>) -> Seq<char>
    decreases s.len(),
{
    if s.len() == 0 {
        Seq::empty()
    } else {
        (if s[0] == '\r' {
            seq!['\\', 'r']
        } else if s[0] == '\n' {
            seq!['\\', 'n']
        } else {
            seq![s[0]]
        }) + one_line(s.skip(1))
    }
}

/// The preview of `s`: on one line, cut after `max` characters and then
/// marked with `...`.
pub open spec fn previewed(s: Seq<char>, max: nat) -> Seq<char> {
    let o = one_line(s);
    if o.len() <= max {
        o
    } else {
        o.take(max as int) + seq!['.', '.', '.']
    }
}

/// The preview of `s`: on one line, with at most `max` characters of it
/// followed by `...` when it is longer.
pub fn preview(s: &str, max: usize) -> (res: String)
    ensures
        res@ == previewed(s@, max as nat),
{
    let chars = chars_of(s);
    let mut out: Vec<char> = Vec::new();
    let mut i: usize = 0;
    assert(chars@.skip(0) =~= chars@);
    while i < chars.len()
        invariant
            i <= chars@.len(),
            out@ + one_line(chars@.skip(i as int)) == one_line(chars@),
        decreases chars@.len() - i,
    {
        let ghost rest = chars@.skip(i as int);
        assert(rest.skip(1) =~= chars@.skip(i + 1));
        let c = chars[i];
        if c == '\r' {
            out.push('\\');
            out.push('r');
        } else if c == '\n' {
            out.push('\\');
            out.push('n');
        } else {
            out.push(c);
        }
        assert(out@ + one_line(chars@.skip(i + 1)) =~= one_line(chars@));
        i += 1;
    }
    assert(chars@.skip(i as int) =~= Seq::<char>::empty());
    assert(out@ =~= one_line(chars@));
    if out.len() <= max {
        string_from_chars(&out)
    } else {
        let mut cut: Vec<char> = Vec::new();
        cut.extend_from_slice(&out[0..max]);
        cut.push('.');
        cut.push('.');
        cut.push('.');
        assert(cut@ =~= out@.take(max as int) + seq!['.', '.', '.']);
        string_from_chars(&cut)
    }
}

/// The row that [`report_row`] builds.
pub open spec fn row_of(
    path: Seq<char>,
    culture: Option<Seq<char>>,
    encoding_name: Seq<char>,
    resource: Seq<char>,
    kind: ReportKind,
    status: ReportStatus,
    before_score: i32,
    after_score: i32,
    encoding_used: Seq<char>,
    old_text: Seq<char>,
    new_text: Seq<char>,
) -> RowView {
    RowView {
        file: path,
        culture: match culture {
            Some(c) => c,
            None => Seq::empty(),
        },
        encoding: encoding_name,
        resource,
        kind,
        status,
        before_score,
        after_score,
        encoding_used,
        old_preview: previewed(old_text, 160),
        new_preview: previewed(new_text, 160),
    }
}

pub open spec fn opt_view(o: Option<&str>) -> Option<Seq<char>> {
    match o {
        Some(s) => Some(s@),
        None => None,
    }
}

/// Builds a report row; the texts are shown as previews of 160 characters.
pub fn report_row(
    path: &str,
    culture: Option<&str>,
    enc: &FileEncoding,
    resource: &str,
    kind: ReportKind,
    status: ReportStatus,
    before_score: i32,
    after_score: i32,
    encoding_used: &str,
    old_text: &str,
    new_text: &str,
) -> (res: ReportRow)
    ensures
        res@ == row_of(
            path@,
            opt_view(culture),
            enc.name@,
            resource@,
            kind,
            status,
            before_score,
            after_score,
            encoding_used@,
            old_text@,
            new_text@,
        ),
{
    let culture_text = match culture {
        Some(c) => c.to_owned(),
        None => String::new(),
    };
    ReportRow {
        file: path.to_owned(),
        culture: culture_text,
        encoding: enc.name.clone(),
        resource: resource.to_owned(),
        kind,
        status,
        before_score,
        after_score,
        encoding_used: encoding_used.to_owned(),
        old_preview: preview(old_text, 160),
        new_preview: preview(new_text, 160),
    }
}

} // verus!
