// What the grid asks of a document.

use comma::document::{Dialect, Document};
use comma::grid::{column_titles, gutter_digits, lines_in, row_lines};

fn load(text: &str) -> Document {
    Document::from_bytes(text.as_bytes(), Dialect::comma()).expect("valid UTF-8")
}

#[test]
fn a_header_names_the_columns_and_letters_fill_its_holes() {
    let document = load("id,,city\n1,Ada,London,extra\n");
    assert_eq!(column_titles(&document, true), ["id", "B", "city", "D"]);
    assert_eq!(column_titles(&document, false), ["A", "B", "C", "D"]);
}

#[test]
fn an_empty_document_has_no_titles() {
    let document = load("");
    assert!(column_titles(&document, true).is_empty());
}

#[test]
fn the_gutter_is_as_wide_as_the_widest_row_number() {
    assert_eq!(gutter_digits(0), 1);
    assert_eq!(gutter_digits(9), 1);
    assert_eq!(gutter_digits(10), 2);
    assert_eq!(gutter_digits(99), 2);
    assert_eq!(gutter_digits(12345), 5);
    assert_eq!(gutter_digits(usize::MAX), usize::MAX.to_string().len() as i32);
}

#[test]
fn a_row_is_as_tall_as_its_tallest_value() {
    let document = load("a,\"b\nc\nd\",e\nf\n\"\"\n");
    assert_eq!(row_lines(&document, 0), 3);
    assert_eq!(row_lines(&document, 1), 1);
    assert_eq!(row_lines(&document, 2), 1);
    assert_eq!(lines_in("one\ntwo\n"), 3);
    assert_eq!(lines_in(""), 1);
}
