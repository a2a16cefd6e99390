// What a file reads as.

use comma::document::{Dialect, DialectError, Document, LoadError};

fn parse(text: &str) -> Document {
    Document::from_bytes(text.as_bytes(), Dialect::comma()).expect("valid UTF-8")
}

#[test]
fn a_file_that_ends_with_a_newline_has_no_extra_record() {
    let document = parse("a,b\n");
    assert_eq!(document.row_count(), 1);
}

#[test]
fn a_blank_line_is_a_record_of_one_empty_field() {
    let document = parse("a\n\nb\n");
    assert_eq!(document.row_count(), 3);
    assert_eq!(document.value(1, 0), "");
    assert_eq!(document.field_count(1), 1);
}

#[test]
fn an_empty_file_has_no_records() {
    let document = parse("");
    assert_eq!(document.row_count(), 0);
    assert_eq!(document.column_count(), 0);
}

#[test]
fn a_lone_carriage_return_is_data_rather_than_a_line_ending() {
    let document = parse("a\rb,c\n");
    assert_eq!(document.row_count(), 1);
    assert_eq!(document.value(0, 0), "a\rb");
}

#[test]
fn a_dialect_needs_two_different_ascii_characters() {
    assert_eq!(Dialect::new('¦', '"'), Err(DialectError::NotAscii));
    assert_eq!(Dialect::new('\n', '"'), Err(DialectError::LineBreak));
    assert_eq!(Dialect::new(',', ','), Err(DialectError::SameCharacter));
    assert!(Dialect::new('|', '\'').is_ok());
}

#[test]
fn a_file_that_is_not_utf8_is_refused_rather_than_guessed_at() {
    // 0xFF cannot appear anywhere in UTF-8.
    let error = Document::from_bytes(b"a,b\n1,\xff\n", Dialect::comma())
        .err()
        .expect("the file is refused");
    assert_eq!(error, LoadError::NotUtf8 { valid_up_to: 6 });
}

#[test]
fn quotes_hold_delimiters_and_line_breaks_and_doubled_quotes_become_one() {
    let document = parse("name,note\n\"Lovelace, Ada\",\"said \"\"hi\"\"\nand left\"\n");
    assert_eq!(document.row_count(), 2);
    assert_eq!(document.value(1, 0), "Lovelace, Ada");
    assert_eq!(document.value(1, 1), "said \"hi\"\nand left");
}

#[test]
fn characters_after_a_closing_quote_belong_to_the_value() {
    let document = parse("\"a\"b,c\n");
    assert_eq!(document.value(0, 0), "ab");
    assert_eq!(document.value(0, 1), "c");
}

#[test]
fn ragged_records_keep_their_own_widths_and_read_empty_past_their_ends() {
    let document = parse("a,b,c\nd\ne,f\n");
    assert_eq!(document.column_count(), 3);
    assert_eq!(document.field_count(1), 1);
    assert_eq!(document.value(1, 2), "");
    assert_eq!(document.value(2, 1), "f");
}

#[test]
fn a_byte_order_mark_is_kept_but_is_not_part_of_the_first_value() {
    let bytes = b"\xef\xbb\xbfa,b\n1,2\n";
    let document = Document::from_bytes(bytes, Dialect::comma()).expect("valid UTF-8");
    assert_eq!(document.value(0, 0), "a");
    assert_eq!(document.to_bytes(), bytes.to_vec());
}

#[test]
fn a_tab_file_splits_at_tabs_only() {
    let document =
        Document::from_bytes(b"a\tb, c\n", Dialect::tab()).expect("valid UTF-8");
    assert_eq!(document.value(0, 1), "b, c");
    assert_eq!(document.dialect(), Dialect::tab());
}

#[test]
fn the_record_separator_ends_records_and_a_line_break_is_text() {
    let bytes = b"a\x1fb\nc\x1ed\x1fe\x1e";
    let document = Document::from_bytes(bytes, Dialect::unit_separator()).expect("valid UTF-8");
    assert_eq!(document.row_count(), 2);
    assert_eq!(document.field_count(0), 2);
    assert_eq!(document.value(0, 0), "a");
    assert_eq!(document.value(0, 1), "b\nc");
    assert_eq!(document.value(1, 0), "d");
    assert_eq!(document.value(1, 1), "e");
    assert_eq!(document.to_bytes(), bytes.to_vec());
}

#[test]
fn a_value_holding_the_record_separator_is_quoted_and_read_back() {
    let mut document = Document::from_bytes(b"a\x1fb\x1e", Dialect::unit_separator()).unwrap();
    document.set_value(0, 1, "x\u{1e}y\nz");
    let written = document.to_bytes();
    assert_eq!(written, b"a\x1f\"x\x1ey\nz\"\x1e".to_vec());
    let reloaded = Document::from_bytes(&written, Dialect::unit_separator()).unwrap();
    assert_eq!(reloaded.row_count(), 1);
    assert_eq!(reloaded.value(0, 1), "x\u{1e}y\nz");
}

#[test]
fn a_refusal_says_what_was_wrong_in_words() {
    assert_eq!(
        LoadError::NotUtf8 { valid_up_to: 1207 }.message(),
        "This file is not valid UTF-8 text. The first byte Comma could not read is at offset 1207."
    );
    assert_eq!(
        LoadError::NotUtf8 { valid_up_to: 0 }.message(),
        "This file is not valid UTF-8 text. The first byte Comma could not read is at offset 0."
    );
    assert_eq!(
        DialectError::SameCharacter.message(),
        "the delimiter and quote character must differ"
    );
    assert_eq!(
        Dialect::new('é', '"').err().map(|error| error.message()),
        Some("the delimiter and quote character must be ASCII")
    );
}
