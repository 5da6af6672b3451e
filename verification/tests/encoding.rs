use resxguard::encoding::{decode_file, detect_encoding, encode_file, load_text, xml_declared_encoding, FileEncoding};
use resxguard::error::AppError;

fn enc(label: &str, name: &str, bom: &[u8]) -> FileEncoding {
    FileEncoding { encoding: label.to_string(), name: name.to_string(), bom: bom.to_vec(), source: "test".to_string() }
}

#[test]
fn detects_utf8_bom() {
    let e = detect_encoding(&[0xEF, 0xBB, 0xBF, b'<']).unwrap();
    assert_eq!(e.encoding, "utf-8");
    assert_eq!(e.name, "UTF-8 with BOM");
    assert_eq!(e.bom, vec![0xEF, 0xBB, 0xBF]);
    assert_eq!(e.source, "BOM");
}

#[test]
fn refuses_utf32() {
    match detect_encoding(&[0xFF, 0xFE, 0x00, 0x00, 0x3C, 0, 0, 0]) {
        Err(AppError::UnsupportedEncoding(m)) => assert_eq!(m, "UTF-32 is not supported"),
        other => panic!("unexpected: {:?}", other),
    }
    assert!(matches!(detect_encoding(&[0x00, 0x00, 0xFE, 0xFF]), Err(AppError::UnsupportedEncoding(_))));
}

#[test]
fn detects_utf16_boms() {
    let le = detect_encoding(&[0xFF, 0xFE, b'<', 0]).unwrap();
    assert_eq!(le.encoding, "utf-16le");
    assert_eq!(le.name, "UTF-16 LE with BOM");
    let be = detect_encoding(&[0xFE, 0xFF, 0, b'<']).unwrap();
    assert_eq!(be.encoding, "utf-16be");
    assert_eq!(be.name, "UTF-16 BE with BOM");
}

#[test]
fn detects_declared_encoding() {
    let bytes = b"<?xml version=\"1.0\" encoding=\"iso-8859-1\"?><root/>";
    let e = detect_encoding(bytes).unwrap();
    assert_eq!(e.encoding, "iso-8859-1");
    assert_eq!(e.name, "iso-8859-1 without BOM");
    assert_eq!(e.source, "XML declaration");
    assert!(e.bom.is_empty());
}

#[test]
fn unknown_declared_label_falls_back_to_validation() {
    let e = detect_encoding(b"<?xml version=\"1.0\" encoding=\"no-such-thing\"?><root/>").unwrap();
    assert_eq!(e.name, "UTF-8 without BOM");
    assert_eq!(e.source, "UTF-8 strict validation");
    let w = detect_encoding(&[b'<', b'a', 0xE9, b'>']).unwrap();
    assert_eq!(w.encoding, "windows-1252");
    assert_eq!(w.name, "Windows-1252");
    assert_eq!(w.source, "fallback");
}

#[test]
fn reads_declaration_labels() {
    assert_eq!(xml_declared_encoding(b"<?xml version=\"1.0\" encoding=\"utf-8\"?>").as_deref(), Some("utf-8"));
    assert_eq!(xml_declared_encoding(b"<?XML Encoding = 'UTF-16' ?>").as_deref(), Some("UTF-16"));
    assert_eq!(xml_declared_encoding(b"<?xml version=\"1.0\"?><root encoding=\"x\"/>"), None);
    assert_eq!(xml_declared_encoding(b"<?xml encoding=\"a\" encoding=\"b\"?>").as_deref(), Some("b"));
    assert_eq!(xml_declared_encoding(b"<?xmlencoding=\"a\"?>"), None);
    assert_eq!(xml_declared_encoding(b"<root/>"), None);
}

#[test]
fn decodes_without_bom() {
    let e = enc("utf-8", "UTF-8 with BOM", &[0xEF, 0xBB, 0xBF]);
    assert_eq!(decode_file(&[0xEF, 0xBB, 0xBF, b'a', 0xC3, 0xA9], &e).unwrap(), "aé");
    let w = enc("windows-1252", "Windows-1252", &[]);
    assert_eq!(decode_file(&[0xE9], &w).unwrap(), "é");
}

#[test]
fn reports_decoding_errors() {
    let e = enc("utf-8", "UTF-8 without BOM", &[]);
    match decode_file(&[0xC3], &e) {
        Err(AppError::Message(m)) => assert_eq!(m, "decoding errors using UTF-8 without BOM"),
        other => panic!("unexpected: {:?}", other),
    }
    assert!(matches!(decode_file(b"x", &enc("nope", "n", &[])), Err(AppError::UnsupportedEncoding(_))));
}

#[test]
fn encodes_with_bom() {
    let e = enc("utf-8", "UTF-8 with BOM", &[0xEF, 0xBB, 0xBF]);
    assert_eq!(encode_file("é", &e).unwrap(), vec![0xEF, 0xBB, 0xBF, 0xC3, 0xA9]);
    let w = enc("windows-1252", "Windows-1252", &[]);
    assert_eq!(encode_file("é", &w).unwrap(), vec![0xE9]);
}

#[test]
fn reports_encoding_errors() {
    let w = enc("windows-1252", "Windows-1252", &[]);
    match encode_file("日本", &w) {
        Err(AppError::Message(m)) => assert_eq!(m, "encoding errors using Windows-1252"),
        other => panic!("unexpected: {:?}", other),
    }
}

#[test]
fn loads_text() {
    let (e, t) = load_text(&[0xEF, 0xBB, 0xBF, b'h', b'i']).unwrap();
    assert_eq!(e.name, "UTF-8 with BOM");
    assert_eq!(t, "hi");
}

#[test]
fn saving_keeps_the_bom() {
    for bytes in [vec![0xEF, 0xBB, 0xBF, b'h', b'i'], vec![0xFF, 0xFE, b'h', 0], vec![0xFE, 0xFF, 0, b'h']] {
        let (e, t) = load_text(&bytes).unwrap();
        assert_eq!(t, "h".to_string() + if bytes[0] == 0xEF { "i" } else { "" });
        let out = encode_file("x", &e).unwrap();
        assert!(bytes.starts_with(&e.bom));
        assert!(out.starts_with(&e.bom));
        assert!(!e.bom.is_empty());
    }
}

#[test]
fn utf16_files_round_trip_as_utf16() {
    let le_bytes = vec![0xFF, 0xFE, b'h', 0, 0xE9, 0, 0x3D, 0xD8, 0x00, 0xDE];
    let (le, text) = load_text(&le_bytes).unwrap();
    assert_eq!(text, "hé\u{1F600}");
    assert_eq!(encode_file(&text, &le).unwrap(), le_bytes);
    let be_bytes = vec![0xFE, 0xFF, 0, b'h', 0, 0xE9, 0xD8, 0x3D, 0xDE, 0x00];
    let (be, text) = load_text(&be_bytes).unwrap();
    assert_eq!(text, "hé\u{1F600}");
    assert_eq!(encode_file(&text, &be).unwrap(), be_bytes);
    let declared = enc("utf-16", "utf-16 without BOM", &[]);
    assert_eq!(encode_file("a", &declared).unwrap(), vec![b'a', 0]);
}
