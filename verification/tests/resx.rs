use resxguard::cli::Mode;
use resxguard::encoding::FileEncoding;
use resxguard::report::{ReportKind, ReportStatus};
use resxguard::resx::{process_resx_text, upsert_resx_value_in_content, validate_set_entry, SetEntry};

fn enc() -> FileEncoding {
    FileEncoding {
        encoding: "utf-8".to_string(),
        name: "utf-8 without BOM".to_string(),
        bom: Vec::new(),
        source: "test".to_string(),
    }
}

#[test]
fn repairs_mojibake_in_data_name_attribute_when_enabled() {
    let xml = r#"<root><data name="ImageStudio_Ã‰diteur"><value>Hello</value></data></root>"#;
    let (new_xml, rows, changed) = process_resx_text(
        "Resources.en.resx",
        xml,
        &enc(),
        Some("en"),
        Mode::Safe,
        2,
        false,
        true,
        true,
    )
    .unwrap();
    assert!(changed);
    assert!(new_xml.contains("ImageStudio_Éditeur"));
    assert!(rows.iter().any(|r| r.kind == ReportKind::Key));
}

#[test]
fn ignores_mojibake_in_data_name_attribute_when_disabled() {
    let xml = r#"<root><data name="ImageStudio_Ã‰diteur"><value>Hello</value></data></root>"#;
    let (new_xml, rows, changed) = process_resx_text(
        "Resources.en.resx",
        xml,
        &enc(),
        Some("en"),
        Mode::Safe,
        2,
        false,
        false,
        true,
    )
    .unwrap();
    assert!(!changed);
    assert_eq!(new_xml, xml);
    assert!(rows.is_empty());
}

#[test]
fn adds_missing_resource_when_create_enabled() {
    let xml = "<root>\n</root>";
    let entry = SetEntry {
        name: "Login.Button".to_string(),
        value: "Connexion".to_string(),
        comment: Some("Bouton de connexion".to_string()),
    };
    let (new_xml, row, changed) =
        upsert_resx_value_in_content("Resources.fr.resx", xml, &enc(), Some("fr"), &entry, true).unwrap();
    assert!(changed);
    assert_eq!(row.status, ReportStatus::Added);
    assert!(new_xml.contains(r#"<data name="Login.Button" xml:space="preserve">"#));
    assert!(new_xml.contains("<value>Connexion</value>"));
    assert!(new_xml.contains("<comment>Bouton de connexion</comment>"));
}

#[test]
fn updates_existing_resource_value_without_rewriting_full_xml() {
    let xml = r#"<root><data name="Login.Button" xml:space="preserve"><value>Login</value></data></root>"#;
    let entry = SetEntry {
        name: "Login.Button".to_string(),
        value: "Connexion".to_string(),
        comment: None,
    };
    let (new_xml, row, changed) =
        upsert_resx_value_in_content("Resources.fr.resx", xml, &enc(), Some("fr"), &entry, true).unwrap();
    assert!(changed);
    assert_eq!(row.status, ReportStatus::Updated);
    assert_eq!(
        new_xml,
        r#"<root><data name="Login.Button" xml:space="preserve"><value>Connexion</value></data></root>"#
    );
}

#[test]
fn validates_set_entries() {
    let ok = SetEntry {
        name: "Test.Key".to_string(),
        value: "Valeur accentuée éàç".to_string(),
        comment: None,
    };
    assert!(validate_set_entry(&ok, false).is_ok());
    let bad = SetEntry {
        name: "Test.Key".to_string(),
        value: "CrÃ©ez un visuel avec lâ€™éditeur".to_string(),
        comment: None,
    };
    assert!(validate_set_entry(&bad, false).is_err());
}
