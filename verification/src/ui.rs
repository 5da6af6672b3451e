//! Console styling: ANSI colors and emoji icons, each of which can be
//! turned off.

use vstd::prelude::*;
use crate::error::concat_str;

verus! {

/// How console output is styled.
#[derive(Debug, Clone)]
pub struct Ui {
    color: bool,
    emoji: bool,
}

impl Ui {
    /// Whether text is colored.
    pub closed spec fn uses_color(&self) -> bool {
        self.color
    }

    /// Whether icons are emoji.
    pub closed spec fn uses_emoji(&self) -> bool {
        self.emoji
    }

    /// Colors are used unless turned off by the option or by the
    /// `NO_COLOR` environment variable, and only on a terminal; emoji are
    /// used unless turned off.
    pub fn new(no_color: bool, no_emoji: bool, no_color_env: bool, stdout_is_terminal: bool) -> (res: Ui)
        ensures
            res.uses_color() == (!no_color && !no_color_env && stdout_is_terminal),
            res.uses_emoji() == !no_emoji,
    {
        Ui { color: !no_color && !no_color_env && stdout_is_terminal, emoji: !no_emoji }
    }

    /// `text` wrapped in the ANSI style `code` when colors are used.
    pub open spec fn painted(&self, text: Seq<char>, code: Seq<char>) -> Seq<char> {
        if self.uses_color() {
            "\x1b["@ + code + "m"@ + text + "\x1b[0m"@
        } else {
            text
        }
    }

    fn paint(&self, text: &str, code: &str) -> (res: String)
        ensures
            res@ == self.painted(text@, code@),
    {
        if self.color {
            let mut out = concat_str("\x1b[", code);
            out.append("m");
            out.append(text);
            out.append("\x1b[0m");
            out
        } else {
            text.to_owned()
        }
    }

    pub fn bold(&self, text: &str) -> (res: String)
        ensures
            res@ == self.painted(text@, "1"@),
    {
        self.paint(text, "1")
    }

    pub fn dim(&self, text: &str) -> (res: String)
        ensures
            res@ == self.painted(text@, "2"@),
    {
        self.paint(text, "2")
    }

    pub fn yellow(&self, text: &str) -> (res: String)
        ensures
            res@ == self.painted(text@, "33"@),
    {
        self.paint(text, "33")
    }

    pub fn blue(&self, text: &str) -> (res: String)
        ensures
            res@ == self.painted(text@, "34"@),
    {
        self.paint(text, "34")
    }

    pub fn cyan(&self, text: &str) -> (res: String)
        ensures
            res@ == self.painted(text@, "36"@),
    {
        self.paint(text, "36")
    }

    pub fn red(&self, text: &str) -> (res: String)
        ensures
            res@ == self.painted(text@, "31"@),
    {
        self.paint(text, "31")
    }

    fn icon(&self, emoji: &'static str, plain: &'static str) -> (res: &'static str)
        ensures
            res@ == (if self.uses_emoji() {
                emoji@
            } else {
                plain@
            }),
    {
        if self.emoji {
            emoji
        } else {
            plain
        }
    }

    pub fn ok(&self) -> (res: &'static str)
        ensures
            res@ == (if self.uses_emoji() {
                "\u{2705}"@
            } else {
                "OK"@
            }),
    {
        self.icon("\u{2705}", "OK")
    }

    pub fn warn(&self) -> (res: &'static str)
        ensures
            res@ == (if self.uses_emoji() {
                "\u{26a0}\u{fe0f}"@
            } else {
                "WARN"@
            }),
    {
        self.icon("\u{26a0}\u{fe0f}", "WARN")
    }

    pub fn err(&self) -> (res: &'static str)
        ensures
            res@ == (if self.uses_emoji() {
                "\u{274c}"@
            } else {
                "ERR"@
            }),
    {
        self.icon("\u{274c}", "ERR")
    }

    pub fn scan(&self) -> (res: &'static str)
        ensures
            res@ == (if self.uses_emoji() {
                "\u{1f50e}"@
            } else {
                "CHECK"@
            }),
    {
        self.icon("\u{1f50e}", "CHECK")
    }

    pub fn backup(&self) -> (res: &'static str)
        ensures
            res@ == (if self.uses_emoji() {
                "\u{1f4be}"@
            } else {
                "BACKUP"@
            }),
    {
        self.icon("\u{1f4be}", "BACKUP")
    }

    pub fn report(&self) -> (res: &'static str)
        ensures
            res@ == (if self.uses_emoji() {
                "\u{1f4c4}"@
            } else {
                "REPORT"@
            }),
    {
        self.icon("\u{1f4c4}", "REPORT")
    }
}

} // verus!
