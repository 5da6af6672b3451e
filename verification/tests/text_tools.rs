use resxguard::cli::Mode;
use resxguard::entities::{xml_escape, xml_unescape};
use resxguard::error::AppError;
use resxguard::mojibake::{looks_unsafe_for_set, mojibake_score, repair_mojibake_text};
use resxguard::report::{preview, report_row, ReportKind, ReportStatus};
use resxguard::encoding::FileEncoding;
use resxguard::ui::Ui;

#[test]
fn escapes_markup() {
    assert_eq!(xml_escape("a<b&c\"d'e>"), "a&lt;b&amp;c&quot;d&apos;e&gt;");
    assert_eq!(xml_escape("plain é"), "plain é");
}

#[test]
fn unescapes_entities() {
    assert_eq!(xml_unescape("a&lt;b&amp;c&quot;d&apos;e&gt;"), "a<b&c\"d'e>");
    assert_eq!(xml_unescape("&#233;&#xE9;&#xd;&#X41;"), "éé\rA");
    assert_eq!(xml_unescape("&#xD800; &#; &foo; & &#1114112;"), "&#xD800; &#; &foo; & &#1114112;");
}

#[test]
fn unescape_undoes_escape() {
    for s in ["", "<data name=\"x\">", "a & b", "'quoted' \"text\"", "&amp;", "é&#233;"] {
        assert_eq!(xml_unescape(&xml_escape(s)), s);
    }
}

#[test]
fn scores_telltales() {
    assert_eq!(mojibake_score("Hello"), 0);
    assert_eq!(mojibake_score("Valeur accentuée éàç"), 0);
    assert_eq!(mojibake_score("CrÃ©ez"), 1);
    assert_eq!(mojibake_score("CrÃ©ez un visuel avec lâ€™Ã©diteur"), 3);
    assert_eq!(mojibake_score("\u{FFFD}"), 1);
    assert_eq!(mojibake_score("Ã"), 0);
    assert!(looks_unsafe_for_set("lâ€™"));
    assert!(!looks_unsafe_for_set("l’"));
}

#[test]
fn repairs_windows_1252_damage() {
    let out = repair_mojibake_text("CrÃ©ez un visuel avec lâ€™Ã©diteur", Mode::Safe, 2, false);
    assert_eq!(out.text, "Créez un visuel avec l’éditeur");
    assert!(out.changed);
    assert_eq!(out.before_score, 3);
    assert_eq!(out.after_score, 0);
    assert_eq!(out.encoding_used.as_deref(), Some("windows-1252"));
    assert!(!out.still_suspicious);
}

#[test]
fn repairs_double_damage_in_two_passes() {
    let once = repair_mojibake_text("ÃƒÂ©", Mode::Safe, 1, false);
    assert_eq!(once.text, "Ã©");
    assert!(once.still_suspicious);
    let twice = repair_mojibake_text("ÃƒÂ©", Mode::Safe, 2, false);
    assert_eq!(twice.text, "é");
    assert!(!twice.still_suspicious);
}

#[test]
fn leaves_clean_text_alone() {
    let out = repair_mojibake_text("Créez", Mode::Aggressive, 2, false);
    assert_eq!(out.text, "Créez");
    assert!(!out.changed);
    assert_eq!(out.encoding_used, None);
    let none = repair_mojibake_text("CrÃ©ez", Mode::Safe, 0, false);
    assert_eq!(none.text, "CrÃ©ez");
    assert!(none.still_suspicious);
}

#[test]
fn decodes_entities_when_asked() {
    let out = repair_mojibake_text("Cr&#233;ez", Mode::Safe, 2, true);
    assert_eq!(out.text, "Créez");
    assert!(out.changed);
}

#[test]
fn previews_on_one_line() {
    assert_eq!(preview("a\r\nb", 160), "a\\r\\nb");
    assert_eq!(preview("abcdef", 3), "abc...");
    assert_eq!(preview("abc", 3), "abc");
    assert_eq!(preview("\n", 1), "\\...");
}

#[test]
fn builds_report_rows() {
    let e = FileEncoding { encoding: "utf-8".into(), name: "UTF-8 without BOM".into(), bom: vec![], source: "x".into() };
    let r = report_row("f.resx", None, &e, "Key", ReportKind::Comment, ReportStatus::Added, 1, 2, "u", "old\n", "new");
    assert_eq!(r.file, "f.resx");
    assert_eq!(r.culture, "");
    assert_eq!(r.encoding, "UTF-8 without BOM");
    assert_eq!(r.old_preview, "old\\n");
    assert_eq!(r.new_preview, "new");
    assert_eq!((r.before_score, r.after_score), (1, 2));
    assert_eq!(r.kind, ReportKind::Comment);
    let long = "x".repeat(200);
    let r2 = report_row("f", Some("fr"), &e, "K", ReportKind::Value, ReportStatus::Updated, 0, 0, "", &long, "");
    assert_eq!(r2.culture, "fr");
    assert_eq!(r2.old_preview.chars().count(), 163);
}

#[test]
fn names_kinds_and_statuses() {
    assert_eq!(ReportKind::Value.to_string(), "value");
    assert_eq!(ReportKind::Key.to_string(), "key");
    assert_eq!(ReportKind::Name.to_string(), "name");
    assert_eq!(ReportKind::Comment.to_string(), "comment");
    let all = [
        (ReportStatus::Correctable, "correctable"),
        (ReportStatus::Corrected, "corrected"),
        (ReportStatus::StillSuspicious, "still_suspicious"),
        (ReportStatus::Added, "added"),
        (ReportStatus::Updated, "updated"),
        (ReportStatus::Unchanged, "unchanged"),
        (ReportStatus::SkippedMissing, "skipped_missing"),
        (ReportStatus::RejectedSuspicious, "rejected_suspicious"),
        (ReportStatus::RejectedInvalid, "rejected_invalid"),
        (ReportStatus::Missing, "missing"),
        (ReportStatus::Failed, "failed"),
    ];
    for (s, n) in all {
        assert_eq!(s.to_string(), n);
    }
}

#[test]
fn error_texts() {
    assert_eq!(AppError::Io("x".into()).to_string(), "I/O error: x");
    assert_eq!(AppError::Csv("x".into()).to_string(), "CSV error: x");
    assert_eq!(AppError::Json("x".into()).to_string(), "JSON error: x");
    assert_eq!(AppError::UnsupportedEncoding("x".into()).to_string(), "unsupported or unknown encoding: x");
    assert_eq!(AppError::Message("x".into()).to_string(), "x");
}

#[test]
fn styles_console_output() {
    let plain = Ui::new(true, true, false, true);
    assert_eq!(plain.bold("x"), "x");
    assert_eq!(plain.report(), "REPORT");
    assert_eq!(plain.ok(), "OK");
    assert_eq!(plain.warn(), "WARN");
    assert_eq!(plain.err(), "ERR");
    assert_eq!(plain.scan(), "CHECK");
    assert_eq!(plain.backup(), "BACKUP");
    let rich = Ui::new(false, false, false, true);
    assert_eq!(rich.bold("x"), "\x1b[1mx\x1b[0m");
    assert_eq!(rich.dim("x"), "\x1b[2mx\x1b[0m");
    assert_eq!(rich.yellow("x"), "\x1b[33mx\x1b[0m");
    assert_eq!(rich.blue("x"), "\x1b[34mx\x1b[0m");
    assert_eq!(rich.cyan("x"), "\x1b[36mx\x1b[0m");
    assert_eq!(rich.red("x"), "\x1b[31mx\x1b[0m");
    assert_eq!(rich.ok(), "✅");
    assert_eq!(rich.report(), "📄");
    assert_eq!(Ui::new(false, false, true, true).bold("x"), "x");
    assert_eq!(Ui::new(false, false, false, false).bold("x"), "x");
}
