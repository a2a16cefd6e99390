// A file read and written back without an edit is the same file.

use comma::document::{Dialect, Document};

/// Bytes with line endings and control characters made visible.
fn visible(bytes: &[u8]) -> String {
    let mut out = String::new();
    for &byte in bytes {
        match byte {
            b'\n' => out.push_str("\\n\n"),
            b'\r' => out.push_str("\\r"),
            b'\t' => out.push_str("\\t"),
            0x20..=0x7E => out.push(byte as char),
            _ => out.push_str(&format!("\\x{byte:02x}")),
        }
    }
    out
}

fn assert_round_trips(original: &[u8], dialect: Dialect) {
    let document = Document::from_bytes(original, dialect).expect("valid UTF-8");
    assert_eq!(visible(&document.to_bytes()), visible(original));
}

#[test]
fn an_unterminated_quote_still_round_trips() {
    let original = br#"a,b
1,"never closed
"#;
    let document = Document::from_bytes(original, comma::document::Dialect::comma()).unwrap();
    assert_eq!(visible(&document.to_bytes()), visible(original));
}

#[test]
fn odd_quoting_mixed_line_endings_and_ragged_records_round_trip() {
    assert_round_trips(b"a,\"b\"x, \"c\" \r\nd\n\n\"e\"\"f\",\r\ng,h,i,j", Dialect::comma());
    assert_round_trips(b"\xef\xbb\xbf;\"1;2\";3\r\n", Dialect::semicolon());
    assert_round_trips("Straße|München\n".as_bytes(), Dialect::pipe());
    assert_round_trips(b"a\x1fb\nc\x1e\x1e", Dialect::unit_separator());
    assert_round_trips(b"", Dialect::comma());
    assert_round_trips(b"\n", Dialect::tab());
}
