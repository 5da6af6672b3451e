//! The library's error type.

use vstd::prelude::*;

verus! {

/// Errors of the library. I/O, CSV and JSON failures carry the outside
/// error's message as text.
#[derive(Debug, Clone)]
pub enum AppError {
    Io(String),
    Csv(String),
    Json(String),
    UnsupportedEncoding(String),
    Message(String),
}

/// The mathematical model of an [`AppError`].
pub enum AppErrorView {
    Io(Seq<char>),
    Csv(Seq<char>),
    Json(Seq<char>),
    UnsupportedEncoding(Seq<char>),
    Message(Seq<char>),
}

impl View for AppError {
    type V = AppErrorView;

    open spec fn view(&self) -> AppErrorView {
        match self {
            AppError::Io(s) => AppErrorView::Io(s@),
            AppError::Csv(s) => AppErrorView::Csv(s@),
            AppError::Json(s) => AppErrorView::Json(s@),
            AppError::UnsupportedEncoding(s) => AppErrorView::UnsupportedEncoding(s@),
            AppError::Message(s) => AppErrorView::Message(s@),
        }
    }
}

/// The text that an error displays.
pub open spec fn error_text(e: AppErrorView) -> Seq<char> {
    match e {
        AppErrorView::Io(s) => "I/O error: "@ + s,
        AppErrorView::Csv(s) => "CSV error: "@ + s,
        AppErrorView::Json(s) => "JSON error: "@ + s,
        AppErrorView::UnsupportedEncoding(s) => "unsupported or unknown encoding: "@ + s,
        AppErrorView::Message(s) => s,
    }
}

/// `prefix` followed by `rest`, as a new `String`.
pub fn concat_str(prefix: &str, rest: &str) -> (res: String)
    ensures
        res@ == prefix@ + rest@,
{
    let mut r = prefix.to_owned();
    r.append(rest);
    r
}

impl AppError {
    /// The text that the error displays.
    pub fn to_string(&self) -> (res: String)
        ensures
            res@ == error_text(self@),
    {
        match self {
            AppError::Io(s) => concat_str("I/O error: ", s),
            AppError::Csv(s) => concat_str("CSV error: ", s),
            AppError::Json(s) => concat_str("JSON error: ", s),
            AppError::UnsupportedEncoding(s) => concat_str("unsupported or unknown encoding: ", s),
            AppError::Message(s) => s.clone(),
        }
    }
}

} // verus!
