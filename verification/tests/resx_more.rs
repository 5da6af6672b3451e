use resxguard::cli::Mode;
use resxguard::encoding::FileEncoding;
use resxguard::error::AppError;
use resxguard::report::{ReportKind, ReportStatus};
use resxguard::resx::{
    attr_value, backup_path_for, check_verdict, culture_from_path, detect_current_block_indent,
    detect_data_indent, detect_newline, extension_eq, find_data_block_by_name, invalid_import_row,
    is_base64_like, is_non_text_data, mark_correctable, process_resx_text, resx_text_processable,
    upsert_comment_in_block, upsert_resx_value_in_content, validate_set_entry, SetEntry,
};
use resxguard::text::chars_of;
use resxguard::upsert::{upsert_entries, Notice};

fn enc() -> FileEncoding {
    FileEncoding {
        encoding: "utf-8".to_string(),
        name: "utf-8 without BOM".to_string(),
        bom: Vec::new(),
        source: "test".to_string(),
    }
}

fn entry(name: &str, value: &str, comment: Option<&str>) -> SetEntry {
    SetEntry { name: name.to_string(), value: value.to_string(), comment: comment.map(|c| c.to_string()) }
}

#[test]
fn reads_culture_from_file_names() {
    assert_eq!(culture_from_path("Resources.fr.resx").as_deref(), Some("fr"));
    assert_eq!(culture_from_path("dir/Resources.fr-FR.resx").as_deref(), Some("fr-FR"));
    assert_eq!(culture_from_path("x.zh-Hant-TW.RESX").as_deref(), Some("zh-Hant-TW"));
    assert_eq!(culture_from_path("Resources.resx"), None);
    assert_eq!(culture_from_path("Resources.f.resx"), None);
    assert_eq!(culture_from_path("Resources.abcd.resx"), None);
    assert_eq!(culture_from_path("a.b.fr.resx").as_deref(), Some("fr"));
}

#[test]
fn compares_extensions() {
    assert!(extension_eq("a.RESX", "resx"));
    assert!(extension_eq("dir.x/a.resx", "resx"));
    assert!(!extension_eq("a.txt", "resx"));
    assert!(!extension_eq("resx", "resx"));
    assert!(!extension_eq(".resx", "resx"));
    assert!(extension_eq("report.Json", "json"));
    assert!(extension_eq("a.b.resx", "resx"));
    assert!(!extension_eq("a.resx.", "resx"));
    assert!(extension_eq("a.", ""));
}

#[test]
fn names_backups() {
    assert_eq!(backup_path_for("a/Resources.resx"), "a/Resources.resx.bak");
}

#[test]
fn reads_attribute_values() {
    assert_eq!(attr_value(r#" name="a&amp;b" type="x""#, "name").as_deref(), Some("a&b"));
    assert_eq!(attr_value(r#" NAME = 'single'"#, "name").as_deref(), Some("single"));
    assert_eq!(attr_value(r#" xname="no" name="yes""#, "name").as_deref(), Some("yes"));
    assert_eq!(attr_value(r#" éname="no""#, "name"), None);
    assert_eq!(attr_value(r#" data-name="dash""#, "name").as_deref(), Some("dash"));
    assert_eq!(attr_value(r#" name=unquoted"#, "name"), None);
    assert_eq!(attr_value(r#" type="x""#, "type").as_deref(), Some("x"));
}

#[test]
fn recognises_binary_resources() {
    let b64 = "QUJD".repeat(32);
    assert!(is_base64_like(&chars_of(&b64)));
    assert!(!is_base64_like(&chars_of(&"QUJD".repeat(31))));
    assert!(!is_base64_like(&chars_of(&format!("{}!", "QUJD".repeat(32)))));
    let spaced = format!("{}\n  {}", "QUJD".repeat(16), "QUJD".repeat(16));
    assert!(is_base64_like(&chars_of(&spaced)));
    let attrs = chars_of(r#" name="Img" type="System.Drawing.Bitmap, System.Drawing""#);
    assert!(is_non_text_data(&attrs, &chars_of("<data><value>x</value></data>")));
    let plain = chars_of(r#" name="Txt""#);
    assert!(!is_non_text_data(&plain, &chars_of("<data><value>Hello</value></data>")));
    let block = format!("<data><value>{}</value></data>", b64);
    assert!(is_non_text_data(&plain, &chars_of(&block)));
}

#[test]
fn skips_binary_blocks() {
    let b64 = "Ã©Ã©".to_string();
    let xml = format!(
        r#"<root><data name="Img" mimetype="application/x-microsoft.net.object.binary.base64"><value>{}</value></data></root>"#,
        b64
    );
    let (out, rows, changed) =
        process_resx_text("R.resx", &xml, &enc(), None, Mode::Safe, 2, false, true, true).unwrap();
    assert_eq!(out, xml);
    assert!(rows.is_empty());
    assert!(!changed);
}

#[test]
fn repairs_values_and_comments() {
    let xml = "<root>\n  <data name=\"A\"><value>CrÃ©ez</value><comment>lâ€™Ã©diteur</comment></data>\n</root>";
    let (out, rows, changed) =
        process_resx_text("R.fr.resx", xml, &enc(), Some("fr"), Mode::Safe, 2, false, true, true).unwrap();
    assert!(changed);
    assert_eq!(out, "<root>\n  <data name=\"A\"><value>Créez</value><comment>l’éditeur</comment></data>\n</root>");
    assert_eq!(rows.len(), 2);
    assert_eq!(rows[0].kind, ReportKind::Value);
    assert_eq!(rows[0].status, ReportStatus::Corrected);
    assert_eq!(rows[0].resource, "A");
    assert_eq!(rows[0].culture, "fr");
    assert_eq!(rows[0].encoding_used, "windows-1252");
    assert_eq!(rows[1].kind, ReportKind::Comment);
}

#[test]
fn check_keeps_text_and_finds_the_same() {
    let xml = "<root><data name=\"A\"><value>CrÃ©ez &amp; co</value></data></root>";
    let (checked, check_rows, c1) =
        process_resx_text("R.resx", xml, &enc(), None, Mode::Safe, 2, false, true, false).unwrap();
    let (repaired, repair_rows, c2) =
        process_resx_text("R.resx", xml, &enc(), None, Mode::Safe, 2, false, true, true).unwrap();
    assert_eq!(checked, xml);
    assert_eq!(repaired, "<root><data name=\"A\"><value>Créez &amp; co</value></data></root>");
    assert_eq!(c1, c2);
    assert_eq!(check_rows.len(), repair_rows.len());
    let mut marked = check_rows.clone();
    mark_correctable(&mut marked);
    assert_eq!(marked[0].status, ReportStatus::Correctable);
    assert_eq!(check_rows[0].status, ReportStatus::Corrected);
}

#[test]
fn reports_text_that_stays_suspicious() {
    let xml = "<root><data name=\"A\"><value>x\u{FFFD}y</value></data></root>";
    let (out, rows, changed) =
        process_resx_text("R.resx", xml, &enc(), None, Mode::Safe, 2, false, true, true).unwrap();
    assert_eq!(out, xml);
    assert!(!changed);
    assert_eq!(rows.len(), 1);
    assert_eq!(rows[0].status, ReportStatus::StillSuspicious);
    assert_eq!(rows[0].resource, "A");
}

#[test]
fn names_unknown_resources() {
    let xml = "<root><data><value>CrÃ©ez</value></data></root>";
    let (_, rows, _) = process_resx_text("R.resx", xml, &enc(), None, Mode::Safe, 2, false, true, false).unwrap();
    assert_eq!(rows[0].resource, "(unknown)");
}

#[test]
fn detects_overlapping_pieces() {
    assert!(resx_text_processable("<root><data name=\"a\"><value>x</value></data></root>", true));
    assert!(!resx_text_processable("<data><value>a<comment>b</comment></value></data>", true));
    assert!(resx_text_processable("no data here", true));
}

#[test]
fn validates_names_and_comments() {
    match validate_set_entry(&entry("  ", "v", None), false) {
        Err(AppError::Message(m)) => assert_eq!(m, "resource name cannot be empty"),
        other => panic!("unexpected: {:?}", other),
    }
    match validate_set_entry(&entry("CrÃ©ez", "v", None), false) {
        Err(AppError::Message(m)) => assert_eq!(
            m,
            "refusing to set suspicious name for resource 'CrÃ©ez'; run check/repair first or pass --allow-suspicious"
        ),
        other => panic!("unexpected: {:?}", other),
    }
    match validate_set_entry(&entry("K", "v", Some("lâ€™")), false) {
        Err(AppError::Message(m)) => assert!(m.starts_with("refusing to set suspicious comment")),
        other => panic!("unexpected: {:?}", other),
    }
    assert!(validate_set_entry(&entry("K", "CrÃ©ez", None), true).is_ok());
    assert!(validate_set_entry(&entry("", "v", None), true).is_err());
}

#[test]
fn builds_rows_for_refused_entries() {
    let e = entry("K", "CrÃ©ez", None);
    let r = invalid_import_row("R.resx", None, &enc(), &e, "refusing to set suspicious value");
    assert_eq!(r.status, ReportStatus::RejectedSuspicious);
    assert_eq!(r.kind, ReportKind::Value);
    assert_eq!(r.old_preview, "CrÃ©ez");
    assert_eq!(r.before_score, 1);
    let blank = entry(" ", "v", None);
    let r2 = invalid_import_row("R.resx", None, &enc(), &blank, "resource name cannot be empty");
    assert_eq!(r2.status, ReportStatus::RejectedInvalid);
    assert_eq!(r2.kind, ReportKind::Name);
    let other = entry("K", "v", None);
    let r3 = invalid_import_row("R.resx", None, &enc(), &other, "boom");
    assert_eq!(r3.kind, ReportKind::Value);
    assert_eq!(r3.old_preview, "boom");
}

#[test]
fn lays_out_new_markup_like_the_file() {
    assert_eq!(detect_newline("a\r\nb"), "\r\n");
    assert_eq!(detect_newline("a\nb"), "\n");
    assert_eq!(detect_data_indent("<root>\n\t <data name=\"x\">").as_deref(), Some("\t "));
    assert_eq!(detect_data_indent("<root>  <data name=\"x\">"), None);
    assert_eq!(detect_data_indent("<database>"), None);
    assert_eq!(detect_current_block_indent("<data name=\"x\">"), "");
    assert_eq!(detect_current_block_indent("x<data>"), "  ");
}

#[test]
fn sets_comments_in_blocks() {
    assert_eq!(
        upsert_comment_in_block("<data><value>v</value><comment>old</comment></data>", "new & <b>"),
        "<data><value>v</value><comment>new &amp; &lt;b&gt;</comment></data>"
    );
    assert_eq!(
        upsert_comment_in_block("  <data name=\"a\">\r\n    <value>v</value>\r\n  </data>", "c"),
        "  <data name=\"a\">\r\n    <value>v</value>\r\n    <comment>c</comment>\r\n  </data>"
    );
    assert_eq!(upsert_comment_in_block("<data/>", "c"), "<data/>");
}

#[test]
fn finds_blocks_by_name() {
    let xml = "<root><data name=\"a\"><value>1</value></data><data name=\"b&amp;c\"><value>2</value></data></root>";
    let info = find_data_block_by_name(xml, "b&c").unwrap();
    assert_eq!(info.name, "b&c");
    assert_eq!(&xml[info.start..info.end], "<data name=\"b&amp;c\"><value>2</value></data>");
    assert!(find_data_block_by_name(xml, "z").is_none());
    let accented = "<root><!-- é日本 --><data name=\"é\"><value>ü</value></data></root>";
    let info = find_data_block_by_name(accented, "é").unwrap();
    assert_eq!(info.start, accented.find("<data").unwrap());
    assert_eq!(&accented[info.start..info.end], "<data name=\"é\"><value>ü</value></data>");
}

#[test]
fn adds_blocks_with_file_layout() {
    let xml = "<root>\r\n  <data name=\"a\">\r\n    <value>1</value>\r\n  </data>\r\n</root>";
    let (out, row, changed) =
        upsert_resx_value_in_content("R.resx", xml, &enc(), None, &entry("b", "x<y", None), true).unwrap();
    assert!(changed);
    assert_eq!(row.status, ReportStatus::Added);
    assert_eq!(
        out,
        "<root>\r\n  <data name=\"a\">\r\n    <value>1</value>\r\n  </data>\r\n  <data name=\"b\" xml:space=\"preserve\">\r\n    <value>x&lt;y</value>\r\n  </data>\r\n</root>"
    );
    let (out2, _, _) =
        upsert_resx_value_in_content("R.resx", "<root></root>", &enc(), None, &entry("b", "v", None), true).unwrap();
    assert_eq!(out2, "<root>\n  <data name=\"b\" xml:space=\"preserve\">\n    <value>v</value>\n  </data>\n</root>");
}

#[test]
fn refuses_what_cannot_be_set() {
    match upsert_resx_value_in_content("R.resx", "<doc/>", &enc(), None, &entry("b", "v", None), true) {
        Err(AppError::Message(m)) => assert_eq!(m, "cannot add resource because </root> was not found: R.resx"),
        other => panic!("unexpected: {:?}", other),
    }
    match upsert_resx_value_in_content("R.resx", "<root></root>", &enc(), None, &entry("b", "v", None), false) {
        Err(AppError::Message(m)) => assert_eq!(m, "resource not found: b"),
        other => panic!("unexpected: {:?}", other),
    }
    let no_value = "<root><data name=\"b\"></data></root>";
    match upsert_resx_value_in_content("R.resx", no_value, &enc(), None, &entry("b", "v", None), true) {
        Err(AppError::Message(m)) => assert_eq!(m, "resource has no <value>: b"),
        other => panic!("unexpected: {:?}", other),
    }
}

#[test]
fn reports_unchanged_values() {
    let xml = "<root><data name=\"a\"><value>same</value></data></root>";
    let (out, row, changed) =
        upsert_resx_value_in_content("R.resx", xml, &enc(), None, &entry("a", "same", None), true).unwrap();
    assert!(!changed);
    assert_eq!(out, xml);
    assert_eq!(row.status, ReportStatus::Unchanged);
    assert_eq!(row.old_preview, "same");
}

#[test]
fn imports_and_continues_on_error() {
    let xml = "<root>\n</root>";
    let entries = vec![
        entry("Test.Import.Valid", "Valeur propre", Some("OK")),
        entry("Test.Import.Bad", "CrÃ©ez un visuel", Some("Must be rejected")),
    ];
    let out = upsert_entries("R.fr.resx", xml, &enc(), Some("fr"), &entries, true, false, false, true).unwrap();
    assert!(out.changed);
    assert_eq!(out.applied, 1);
    assert_eq!(out.rows.len(), 2);
    assert_eq!(out.rows[0].status, ReportStatus::Added);
    assert_eq!(out.rows[1].status, ReportStatus::RejectedSuspicious);
    assert!(matches!(&out.notices[0], Notice::Rejected(m) if m.starts_with("refusing to set suspicious value")));
    assert!(out.content.contains("<value>Valeur propre</value>"));
    assert!(!out.content.contains("Test.Import.Bad"));
    let stop = upsert_entries("R.fr.resx", xml, &enc(), None, &entries, true, false, false, false);
    match stop {
        Err(failure) => {
            assert!(matches!(failure.error, AppError::Message(_)));
            assert!(failure.notices.is_empty());
        }
        Ok(_) => panic!("expected the run to stop"),
    }
}

#[test]
fn imports_update_only() {
    let xml = "<root><data name=\"a\"><value>1</value></data></root>";
    let entries = vec![entry("a", "2", None), entry("missing", "3", None)];
    let skipped = upsert_entries("R.resx", xml, &enc(), None, &entries, false, false, true, false).unwrap();
    assert_eq!(skipped.rows[0].status, ReportStatus::Updated);
    assert_eq!(skipped.rows[1].status, ReportStatus::SkippedMissing);
    assert!(matches!(&skipped.notices[0], Notice::Missing(ReportStatus::SkippedMissing, n) if n == "missing"));
    assert_eq!(skipped.content, "<root><data name=\"a\"><value>2</value></data></root>");
    let reported = upsert_entries("R.resx", xml, &enc(), None, &entries, false, false, false, true).unwrap();
    assert_eq!(reported.rows[1].status, ReportStatus::Missing);
    match upsert_entries("R.resx", xml, &enc(), None, &entries, false, false, false, false) {
        Err(failure) => match failure.error {
            AppError::Message(m) => assert_eq!(m, "resource not found: missing"),
            other => panic!("unexpected: {:?}", other),
        },
        Ok(o) => panic!("unexpected: {} rows", o.rows.len()),
    }
    let mixed = vec![entry("bad", "CrÃ©ez", None), entry("missing", "3", None)];
    match upsert_entries("R.resx", xml, &enc(), None, &mixed, false, false, false, true) {
        Ok(o) => assert_eq!(o.notices.len(), 2),
        Err(_) => panic!("continue_on_error keeps going"),
    }
    match upsert_entries("R.resx", xml, &enc(), None, &mixed, false, false, true, false) {
        Err(failure) => {
            assert!(matches!(failure.error, AppError::Message(_)));
            assert_eq!(failure.notices.len(), 0);
        }
        Ok(_) => panic!("a refused entry stops the run"),
    }
    let failing = vec![entry("b", "v", None)];
    let failed = upsert_entries("R.resx", "<doc/>", &enc(), None, &failing, true, false, false, true).unwrap();
    assert_eq!(failed.rows[0].status, ReportStatus::Failed);
    assert!(!failed.changed);
}

#[test]
fn check_verdicts() {
    let xml = "<root><data name=\"A\"><value>CrÃ©ez</value></data></root>";
    let (_, rows, _) = process_resx_text("R.resx", xml, &enc(), None, Mode::Safe, 2, false, true, false).unwrap();
    assert!(check_verdict(&rows, false).is_ok());
    assert!(check_verdict(&rows, true).is_err());
    assert!(check_verdict(&Vec::new(), true).is_ok());
}

#[test]
fn set_value_reads_back() {
    let xml = "<root>\n  <data name=\"k\">\n    <value>old</value>\n  </data>\n</root>";
    let value = "a < b & \"c\" 'd'";
    let (out, _, changed) =
        upsert_resx_value_in_content("R.resx", xml, &enc(), None, &entry("k", value, None), false).unwrap();
    assert!(changed);
    let info = find_data_block_by_name(&out, "k").unwrap();
    let block = &out[info.start..info.end];
    let open = block.find("<value>").unwrap() + "<value>".len();
    let close = block.find("</value>").unwrap();
    assert_eq!(resxguard::entities::xml_unescape(&block[open..close]), value);
}

#[test]
fn refused_entry_is_only_reported() {
    let xml = "<root>\n  <data name=\"a\">\n    <value>1</value>\n  </data>\n</root>";
    let with_bad = vec![entry("a", "2", None), entry("bad", "CrÃ©ez", None), entry("c", "3", None)];
    let without = vec![entry("a", "2", None), entry("c", "3", None)];
    let r1 = upsert_entries("R.resx", xml, &enc(), None, &with_bad, true, false, false, true).unwrap();
    let r2 = upsert_entries("R.resx", xml, &enc(), None, &without, true, false, false, true).unwrap();
    assert_eq!(r1.content, r2.content);
    assert_eq!(r1.changed, r2.changed);
    assert_eq!(r1.applied, r2.applied);
    assert_eq!(r1.rows.len(), 3);
    assert_eq!(r1.rows[1].status, ReportStatus::RejectedSuspicious);
    assert_eq!(r1.rows[1].kind, ReportKind::Value);
    let statuses: Vec<_> = r1.rows.iter().enumerate().filter(|(i, _)| *i != 1).map(|(_, r)| r.status).collect();
    assert_eq!(statuses, r2.rows.iter().map(|r| r.status).collect::<Vec<_>>());
}

#[test]
fn setting_twice_changes_nothing_more() {
    let xml = "<root>\n  <data name=\"k\">\n    <value>old</value>\n    <comment>c</comment>\n  </data>\n</root>";
    for comment in [None, Some("new comment")] {
        let e = entry("k", "a < b é", comment);
        let (first, row1, changed1) = upsert_resx_value_in_content("R.resx", xml, &enc(), None, &e, false).unwrap();
        assert!(changed1);
        assert_eq!(row1.status, ReportStatus::Updated);
        let (again, row2, changed2) = upsert_resx_value_in_content("R.resx", &first, &enc(), None, &e, false).unwrap();
        assert_eq!(again, first);
        assert!(!changed2);
        assert_eq!(row2.status, ReportStatus::Unchanged);
    }
    let added = entry("new", "v", Some("c"));
    let (first, _, _) = upsert_resx_value_in_content("R.resx", xml, &enc(), None, &added, true).unwrap();
    let (again, row, changed) = upsert_resx_value_in_content("R.resx", &first, &enc(), None, &added, true).unwrap();
    assert_eq!(again, first);
    assert!(!changed);
    assert_eq!(row.status, ReportStatus::Unchanged);
}

#[test]
fn setting_twice_with_comment_first_changes_nothing_more() {
    let xml = "<root>\n  <data name=\"k\">\n    <comment>old note</comment>\n    <value>old</value>\n  </data>\n</root>";
    let e = entry("k", "x & y", Some("new <note>"));
    let (first, row1, changed1) = upsert_resx_value_in_content("R.resx", xml, &enc(), None, &e, false).unwrap();
    assert!(changed1);
    assert_eq!(row1.status, ReportStatus::Updated);
    assert_eq!(
        first,
        "<root>\n  <data name=\"k\">\n    <comment>new &lt;note&gt;</comment>\n    <value>x &amp; y</value>\n  </data>\n</root>"
    );
    let (again, row2, changed2) = upsert_resx_value_in_content("R.resx", &first, &enc(), None, &e, false).unwrap();
    assert_eq!(again, first);
    assert!(!changed2);
    assert_eq!(row2.status, ReportStatus::Unchanged);
}
