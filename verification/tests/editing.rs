// Editing a document, and taking the edits back.

use comma::document::{Dialect, Document, Extent};

fn load(text: &str) -> Document {
    Document::from_bytes(text.as_bytes(), Dialect::comma()).expect("valid UTF-8")
}

fn written(document: &Document) -> String {
    String::from_utf8(document.to_bytes()).expect("a document writes UTF-8")
}

const PLAIN: &str = "id,name,city\r\n1,Ada,London\r\n2,\"Grace\",Arlington\r\n";

#[test]
fn editing_one_cell_changes_that_field_and_nothing_else() {
    let mut document = load(PLAIN);
    document.set_value(1, 1, "Augusta");
    assert_eq!(
        written(&document),
        "id,name,city\r\n1,Augusta,London\r\n2,\"Grace\",Arlington\r\n"
    );
}

#[test]
fn an_edited_value_is_quoted_only_when_it_has_to_be() {
    let mut document = load(PLAIN);
    document.set_value(1, 1, "Lovelace, Ada");
    document.set_value(1, 2, "say \"hi\"");
    document.set_value(2, 2, "two\nlines");
    assert_eq!(
        written(&document),
        "id,name,city\r\n1,\"Lovelace, Ada\",\"say \"\"hi\"\"\"\r\n2,\"Grace\",\"two\nlines\"\r\n"
    );
}

#[test]
fn a_value_holding_a_newline_survives_a_save_and_a_reload() {
    let mut document = load(PLAIN);
    document.set_value(1, 2, "London\nEngland");
    let reloaded = load(&written(&document));
    assert_eq!(reloaded.value(1, 2), "London\nEngland");
    assert_eq!(reloaded.row_count(), 3);
}

#[test]
fn editing_past_the_end_of_a_short_record_widens_it() {
    let mut document = load("a,b,c\nd\n");
    document.set_value(1, 2, "x");
    assert_eq!(written(&document), "a,b,c\nd,,x\n");
    document.undo();
    assert_eq!(written(&document), "a,b,c\nd\n");
}

#[test]
fn setting_a_cell_to_what_it_already_holds_changes_nothing() {
    let mut document = load(PLAIN);
    document.set_value(2, 1, "Grace");
    assert!(!document.is_modified());
    assert!(!document.can_undo());
    assert_eq!(written(&document), PLAIN);
}

#[test]
fn undo_puts_the_original_bytes_back_and_redo_the_edit() {
    let mut document = load(PLAIN);
    document.set_value(2, 1, "Hopper");
    let edited = written(&document);
    assert!(document.is_modified());

    assert_eq!(document.undo(), Some(Extent::Record(2)));
    assert_eq!(written(&document), PLAIN);
    assert!(!document.is_modified());
    assert_eq!(document.undo(), None);

    assert_eq!(document.redo(), Some(Extent::Record(2)));
    assert_eq!(written(&document), edited);
    assert_eq!(document.redo(), None);
}

#[test]
fn a_new_edit_discards_what_was_undone() {
    let mut document = load(PLAIN);
    document.set_value(1, 1, "x");
    document.undo();
    assert!(document.can_redo());
    document.set_value(1, 1, "y");
    assert!(!document.can_redo());
    assert_eq!(document.value(1, 1), "y");
}

#[test]
fn a_saved_state_that_can_no_longer_be_reached_stays_modified() {
    let mut document = load(PLAIN);
    document.set_value(1, 1, "x");
    document.mark_saved();
    assert!(!document.is_modified());
    document.undo();
    assert!(document.is_modified());
    document.set_value(1, 1, "y");
    document.undo();
    assert!(document.is_modified(), "the saved state is gone for good");
    document.redo();
    assert!(document.is_modified());
}

#[test]
fn a_document_can_be_told_it_no_longer_matches_its_file() {
    let mut document = load(PLAIN);
    assert!(!document.is_modified());
    document.mark_modified();
    assert!(document.is_modified());
}

#[test]
fn rows_and_columns_come_and_go_and_come_back() {
    let mut document = load("a,b\nc,d\n");
    assert_eq!(document.insert_row(1), Extent::Rows { at: 1, gone: 0, come: 1 });
    assert_eq!(written(&document), "a,b\n,\nc,d\n");
    document.delete_row(0);
    assert_eq!(written(&document), ",\nc,d\n");
    document.insert_column(1);
    assert_eq!(written(&document), ",,\nc,,d\n");
    document.delete_column(0);
    assert_eq!(written(&document), ",\n,d\n");
    while document.undo().is_some() {}
    assert_eq!(written(&document), "a,b\nc,d\n");
    assert!(!document.is_modified());
}

#[test]
fn reordering_moves_the_fields_and_leaves_the_line_endings_in_place() {
    let mut document = load("h\r\nb\na\r\n");
    document.reorder_rows(vec![0, 2, 1]);
    assert_eq!(written(&document), "h\r\na\nb\r\n");
    document.undo();
    assert_eq!(written(&document), "h\r\nb\na\r\n");
}

#[test]
fn a_row_added_to_a_file_with_no_final_line_break_takes_over_ending_it() {
    let mut document = load("a\nb");
    document.insert_row(2);
    assert_eq!(written(&document), "a\nb\n");
    document.delete_row(2);
    assert_eq!(written(&document), "a\nb");
}

#[test]
fn replacing_in_some_rows_touches_only_those() {
    let mut document = load("ab,Ab\nab,x\nab\n");
    let changed = document.replace_in(&[0, 2], "ab", "Z");
    assert_eq!(changed, 3);
    assert_eq!(written(&document), "Z,Z\nab,x\nZ\n");
    document.undo();
    assert_eq!(written(&document), "ab,Ab\nab,x\nab\n");
    assert_eq!(document.replace_in(&[1], "nothing", "x"), 0);
    assert!(document.can_redo(), "a replacement that found nothing is not a change");
}

#[test]
fn a_row_inserted_before_an_unterminated_last_record_ends_like_the_file() {
    let mut document = load("id,name\n1,Ada");
    assert_eq!(
        document.insert_row(1),
        Extent::Rows {
            at: 1,
            gone: 0,
            come: 1
        }
    );
    assert_eq!(document.row_count(), 3);
    assert_eq!(document.to_bytes(), b"id,name\n,\n1,Ada".to_vec());
    let reloaded = Document::from_bytes(&document.to_bytes(), Dialect::comma()).unwrap();
    assert_eq!(reloaded.row_count(), 3);
}

#[test]
fn undo_and_redo_report_what_they_moved() {
    let mut document = load("a,b\n\"x\",ada\nAda,c\n");
    assert_eq!(document.replace_in(&[1, 2], "ada", "Eve"), 2);
    assert_eq!(document.to_bytes(), b"a,b\n\"x\",Eve\nEve,c\n".to_vec());
    assert_eq!(document.undo(), Some(Extent::Shape));
    assert_eq!(document.to_bytes(), b"a,b\n\"x\",ada\nAda,c\n".to_vec());
    assert!(!document.can_undo());
    assert_eq!(document.redo(), Some(Extent::Shape));

    document.undo();
    document.set_value(1, 1, "one");
    assert_eq!(document.undo(), Some(Extent::Record(1)));
    assert_eq!(document.redo(), Some(Extent::Record(1)));

    document.insert_column(1);
    assert_eq!(document.undo(), Some(Extent::Shape));
    assert_eq!(
        document.redo(),
        Some(Extent::Columns {
            at: 1,
            inserted: true
        })
    );
}
