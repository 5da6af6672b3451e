//! Command-line vocabulary shared by the library and the program around it.

use vstd::prelude::*;

verus! {

/// How eagerly damaged text is repaired.
#[derive(Copy, Clone, Debug, PartialEq, Eq, Structural)]
pub enum Mode {
    /// Conservative default: only the most common damage is undone.
    Safe,
    /// Also tries other likely wrong encodings.
    Broad,
    /// Tries the widest set of encodings, and decodes entities.
    Aggressive,
}

} // verus!

verus! {

/// The command line: global options and the command to run.
#[derive(Debug, Clone)]
pub struct Cli {
    /// Turn ANSI colors off.
    pub no_color: bool,
    /// Turn emoji off.
    pub no_emoji: bool,
    pub command: Command,
}

/// The commands, with their arguments. Paths are held as text.
#[derive(Debug, Clone)]
pub enum Command {
    /// Scan `.resx` files and report suspicious or correctable text.
    Check {
        path: String,
        recursive: bool,
        mode: Mode,
        max_passes: usize,
        decode_html_entities: bool,
        include_attributes: bool,
        report: Option<String>,
        fail_on_suspicious: bool,
    },
    /// Repair `.resx` files in place.
    Repair {
        path: String,
        recursive: bool,
        mode: Mode,
        max_passes: usize,
        decode_html_entities: bool,
        include_attributes: bool,
        backup: bool,
        dry_run: bool,
        report: Option<String>,
    },
    /// Set, and optionally create, one resource.
    SetValue {
        path: String,
        name: String,
        value: String,
        comment: Option<String>,
        create: bool,
        allow_suspicious: bool,
        backup: bool,
        dry_run: bool,
        report: Option<String>,
    },
    /// Import many resources from CSV or JSON.
    Import {
        path: String,
        input: String,
        update_only: bool,
        skip_missing: bool,
        continue_on_error: bool,
        allow_suspicious: bool,
        backup: bool,
        dry_run: bool,
        report: Option<String>,
    },
}

} // verus!
