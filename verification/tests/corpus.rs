// A small corpus of the files Comma meets in the wild, and what reading,
// editing, reshaping, sniffing and exporting each of them has to do.

use comma::document::{sniff, sniff_header, Dialect, Document, Extent};
use comma::export::{self, Sheet};

/// The corpus, by file name.
fn read(name: &str) -> Vec<u8> {
    let text: &[u8] = match name {
        "plain.csv" => b"id,name,city\n1,Ada,London\n2,Grace,Arlington\n",
        "quoted.csv" => {
            b"id,text\n1,\"Hello, world\"\n2,\"line one\nline two\"\n3,\"She said \"\"yes\"\"\"\n4,plain\n"
        }
        "crlf.csv" => {
            b"id,name,note\r\n1,Ada,\"first program, 1843\"\r\n2,Grace,\"compiler\"\r\n"
        }
        "mixed-endings.csv" => b"a,b\r\nc,d\ne,f\r\n",
        "no-trailing-newline.csv" => b"id,name\n1,Ada",
        "ragged.csv" => b"a,b,c\nd\n\ne,f,g,h,i\n",
        "bom.csv" => b"\xef\xbb\xbfid,name\n1,Ada\n2,Grace\n",
        "text-preservation.csv" => {
            b"account,code,amount,date\n0001234567890123,007,000.50,2026-01-02\n9007199254740993,042,1.23E+15,01/02/2026\n"
        }
        "odd-quoting.csv" => b"a,b,c\n\"plain\",\"x\"y,\"\"\n,unquoted,\"z\"\n",
        "semicolon.csv" => b"id;name;note\n1;Ada;\"has;semicolon\"\n2;Grace;plain\n",
        "european.csv" => b"item;price;count\nApples;1,49;3\nPears;2,05;12\n",
        "tabs.tsv" => b"id\tname\tnote\n1\tAda\tcommas, need no quoting here\n2\tGrace\tplain\n",
        "pipe.csv" => b"id|name|city\n1|Ada|London\n2|Grace|Arlington\n",
        "ascii-separated.dsv" => {
            b"id\x1fnote\x1e1\x1fline one\nline two\x1e2\x1fplain\x1e"
        }
        "whitespace.csv" => b" a , b ,c \nx,   ,z\n",
        "german.csv" => {
            "Stadt,Straße\nMünchen,Leopoldstraße\nNürnberg,Weißenburgstraße\n".as_bytes()
        }
        "empty.csv" => b"",
        "newline-only.csv" => b"\n",
        other => panic!("no corpus file named {other}"),
    };
    text.to_vec()
}

/// The dialect each corpus file is written in.
fn dialect(name: &str) -> Dialect {
    match name {
        "semicolon.csv" => Dialect::semicolon(),
        "tabs.tsv" => Dialect::tab(),
        _ => Dialect::comma(),
    }
}

fn load(name: &str) -> Document {
    Document::from_bytes(&read(name), dialect(name))
        .unwrap_or_else(|error| panic!("could not load {name}: {error:?}"))
}

/// Bytes with line endings and other control characters made visible, so a
/// failed comparison says which byte moved.
fn visible(bytes: &[u8]) -> String {
    let mut out = String::new();
    for &byte in bytes {
        match byte {
            b'\n' => out.push_str("\\n\n"),
            b'\r' => out.push_str("\\r"),
            b'\t' => out.push_str("\\t"),
            0x20..=0x7E => out.push(byte as char),
            _ => out.push_str(&format!("\\x{byte:02x}")),
        }
    }
    out
}

/// The line numbers on which two files differ, counting a line as everything up
/// to and including its terminator.
fn differing_lines(before: &[u8], after: &[u8]) -> Vec<usize> {
    let before = String::from_utf8_lossy(before);
    let after = String::from_utf8_lossy(after);
    let before: Vec<&str> = before.split_inclusive('\n').collect();
    let after: Vec<&str> = after.split_inclusive('\n').collect();

    assert_eq!(
        before.len(),
        after.len(),
        "the number of lines changed, so a line-by-line comparison would mislead"
    );

    (0..before.len())
        .filter(|&line| before[line] != after[line])
        .collect()
}

/// The file a document would write, as text.
fn written(document: &Document) -> String {
    String::from_utf8(document.to_bytes()).expect("the corpus is UTF-8")
}

const EVERY_FILE: [&str; 16] = [
    "plain.csv",
    "quoted.csv",
    "crlf.csv",
    "mixed-endings.csv",
    "no-trailing-newline.csv",
    "ragged.csv",
    "bom.csv",
    "text-preservation.csv",
    "odd-quoting.csv",
    "semicolon.csv",
    "european.csv",
    "tabs.tsv",
    "pipe.csv",
    "ascii-separated.dsv",
    "whitespace.csv",
    "german.csv",
];

// What an edit costs the file.

#[test]
fn editing_one_cell_changes_one_line() {
    let name = "crlf.csv";
    let original = read(name);
    let mut document = load(name);

    document.set_value(1, 1, "Ada Lovelace");

    let written = document.to_bytes();
    assert_eq!(differing_lines(&original, &written), vec![1]);
}

#[test]
fn the_untouched_lines_are_untouched_byte_for_byte() {
    let name = "odd-quoting.csv";
    let original = read(name);
    let mut document = load(name);

    document.set_value(1, 0, "changed");

    let written = document.to_bytes();
    let before = String::from_utf8_lossy(&original);
    let after = String::from_utf8_lossy(&written);
    let before: Vec<&str> = before.split_inclusive('\n').collect();
    let after: Vec<&str> = after.split_inclusive('\n').collect();

    assert_eq!(before[0], after[0]);
    assert_eq!(before[2], after[2]);
}

#[test]
fn an_edit_does_not_disturb_odd_quoting_elsewhere_in_the_same_line() {
    let mut document = load("odd-quoting.csv");
    document.set_value(1, 0, "changed");

    let written = String::from_utf8(document.to_bytes()).unwrap();
    let line = written.lines().nth(1).unwrap();
    assert_eq!(line, r#"changed,"x"y,"""#);
}

#[test]
fn a_value_containing_a_quote_is_escaped_on_the_way_out() {
    let mut document = load("plain.csv");
    document.set_value(1, 1, r#"Ada "the Countess""#);

    let written = String::from_utf8(document.to_bytes()).unwrap();
    assert_eq!(
        written.lines().nth(1).unwrap(),
        r#"1,"Ada ""the Countess""",London"#
    );
}

#[test]
fn a_value_containing_a_newline_survives_a_save_and_a_reload() {
    let mut document = load("plain.csv");
    document.set_value(1, 2, "London\nEngland");

    let written = document.to_bytes();
    let reloaded = Document::from_bytes(&written, Dialect::comma()).unwrap();

    assert_eq!(reloaded.value(1, 2), "London\nEngland");
    assert_eq!(reloaded.row_count(), 3);
}

#[test]
fn a_line_ending_belongs_to_its_own_line() {
    let name = "mixed-endings.csv";
    let original = read(name);
    let mut document = load(name);

    document.set_value(1, 0, "C");

    let written = document.to_bytes();
    assert_eq!(
        visible(&written),
        visible(b"a,b\r\nC,d\ne,f\r\n"),
        "editing a line-feed line must not give it a carriage return"
    );
    assert_eq!(differing_lines(&original, &written), vec![1]);
}

#[test]
fn saving_a_document_with_a_byte_order_mark_keeps_it() {
    let mut document = load("bom.csv");
    document.set_value(1, 1, "Lovelace");

    let written = document.to_bytes();
    assert_eq!(&written[..3], &[0xEF, 0xBB, 0xBF]);
}

#[test]
fn a_document_reports_whether_it_has_been_changed() {
    let mut document = load("plain.csv");
    assert!(!document.is_modified());

    document.set_value(1, 1, "Lovelace");
    assert!(document.is_modified());

    document.mark_saved();
    assert!(!document.is_modified());
}

#[test]
fn undo_puts_the_original_bytes_back() {
    let name = "odd-quoting.csv";
    let original = read(name);
    let mut document = load(name);

    document.set_value(1, 1, "changed");
    assert_ne!(visible(&document.to_bytes()), visible(&original));

    assert_eq!(
        document.undo(),
        Some(Extent::Record(1)),
        "undo reports the row it restored"
    );
    assert_eq!(
        visible(&document.to_bytes()),
        visible(&original),
        "undo has to restore the field's original spelling, not just its value"
    );
}

#[test]
fn redo_puts_the_edit_back() {
    let mut document = load("plain.csv");

    document.set_value(1, 1, "Lovelace");
    document.undo();
    assert_eq!(document.value(1, 1), "Ada");

    assert_eq!(document.redo(), Some(Extent::Record(1)));
    assert_eq!(document.value(1, 1), "Lovelace");
    assert!(!document.can_redo());
}

#[test]
fn undo_runs_out_at_the_file_it_started_from() {
    let mut document = load("plain.csv");
    assert!(!document.can_undo());
    assert!(!document.can_redo());

    document.set_value(1, 1, "one");
    document.set_value(1, 1, "two");

    assert_eq!(document.undo(), Some(Extent::Record(1)));
    assert_eq!(document.undo(), Some(Extent::Record(1)));
    assert_eq!(document.undo(), None);
    assert_eq!(document.value(1, 1), "Ada");
}

#[test]
fn undoing_a_widening_edit_narrows_the_record_again() {
    let name = "ragged.csv";
    let original = read(name);
    let mut document = load(name);

    document.set_value(1, 2, "z");
    assert_eq!(document.field_count(1), 3);

    document.undo();
    assert_eq!(document.field_count(1), 1);
    assert_eq!(visible(&document.to_bytes()), visible(&original));
}

#[test]
fn undoing_back_to_the_saved_state_is_not_modified() {
    let mut document = load("plain.csv");
    document.set_value(1, 1, "Lovelace");
    document.mark_saved();

    document.set_value(2, 1, "Hopper");
    assert!(document.is_modified());

    document.undo();
    assert!(
        !document.is_modified(),
        "this is the file that was written, so there is nothing to write"
    );

    document.redo();
    assert!(document.is_modified());
}

#[test]
fn every_corpus_file_survives_an_edit_and_a_reload() {
    for name in EVERY_FILE {
        let mut document = load(name);
        document.set_value(0, 0, "edited");

        let written = document.to_bytes();
        let reloaded = Document::from_bytes(&written, dialect(name))
            .unwrap_or_else(|error| panic!("{name} would not reload after an edit: {error:?}"));

        assert_eq!(reloaded.value(0, 0), "edited", "{name}");
        assert_eq!(
            visible(&reloaded.to_bytes()),
            visible(&written),
            "{name} did not settle after one save"
        );
    }
}

// What the grid shows: the values behind the bytes.

#[test]
fn quotes_are_not_part_of_the_value() {
    let document = load("quoted.csv");
    assert_eq!(document.value(1, 1), "Hello, world");
}

#[test]
fn a_quoted_field_can_hold_a_newline() {
    let document = load("quoted.csv");
    assert_eq!(document.value(2, 1), "line one\nline two");
    assert_eq!(document.row_count(), 5);
}

#[test]
fn doubled_quotes_become_one() {
    let document = load("quoted.csv");
    assert_eq!(document.value(3, 1), "She said \"yes\"");
}

#[test]
fn characters_after_a_closing_quote_are_kept() {
    let document = load("odd-quoting.csv");
    assert_eq!(document.value(1, 1), "xy");
}

#[test]
fn an_empty_quoted_field_is_an_empty_value() {
    let document = load("odd-quoting.csv");
    assert_eq!(document.value(1, 2), "");
    assert_eq!(document.value(2, 0), "");
}

#[test]
fn nothing_is_interpreted_as_a_number_or_a_date() {
    let document = load("text-preservation.csv");
    assert_eq!(document.value(1, 0), "0001234567890123");
    assert_eq!(document.value(1, 1), "007");
    assert_eq!(document.value(1, 2), "000.50");
    assert_eq!(document.value(2, 0), "9007199254740993");
    assert_eq!(document.value(2, 2), "1.23E+15");
    assert_eq!(document.value(2, 3), "01/02/2026");
}

#[test]
fn whitespace_around_a_value_belongs_to_it() {
    let document = load("whitespace.csv");
    assert_eq!(document.value(0, 0), " a ");
    assert_eq!(document.value(0, 1), " b ");
    assert_eq!(document.value(0, 2), "c ");
    assert_eq!(document.value(1, 1), "   ");
}

#[test]
fn ragged_records_keep_their_own_widths() {
    let document = load("ragged.csv");
    assert_eq!(document.row_count(), 4);
    assert_eq!(document.column_count(), 5);
    assert_eq!(document.field_count(0), 3);
    assert_eq!(document.field_count(1), 1);
    assert_eq!(document.field_count(2), 1);
    assert_eq!(document.field_count(3), 5);
}

#[test]
fn a_column_a_record_does_not_reach_reads_as_empty() {
    let document = load("ragged.csv");
    assert_eq!(document.value(1, 4), "");
}

#[test]
fn the_byte_order_mark_is_not_part_of_the_first_value() {
    let document = load("bom.csv");
    assert_eq!(document.value(0, 0), "id");
}

#[test]
fn a_file_that_ends_without_a_newline_has_no_extra_record() {
    let document = load("no-trailing-newline.csv");
    assert_eq!(document.row_count(), 2);
}

#[test]
fn the_delimiter_decides_where_fields_split() {
    let document = load("semicolon.csv");
    assert_eq!(document.value(1, 2), "has;semicolon");
    assert_eq!(document.field_count(1), 3);
}

#[test]
fn a_comma_is_ordinary_text_in_a_tab_file() {
    let document = load("tabs.tsv");
    assert_eq!(document.value(1, 2), "commas, need no quoting here");
}

#[test]
fn multi_byte_characters_survive() {
    let document = load("german.csv");
    assert_eq!(document.value(0, 1), "Straße");
    assert_eq!(document.value(1, 0), "München");
    assert_eq!(document.value(2, 1), "Weißenburgstraße");
}

// A file read and written back with no edits is the same file, byte for byte.

fn assert_round_trips(name: &str) {
    let original = read(name);
    let document = Document::from_bytes(&original, dialect(name))
        .unwrap_or_else(|error| panic!("could not load {name}: {error:?}"));
    let written = document.to_bytes();

    assert_eq!(
        visible(&written),
        visible(&original),
        "{name} did not come back out the way it went in"
    );
}

#[test]
fn plain_file() {
    assert_round_trips("plain.csv");
}

#[test]
fn quoted_fields_with_delimiters_and_newlines() {
    assert_round_trips("quoted.csv");
}

#[test]
fn crlf_line_endings_with_a_quoted_final_field() {
    assert_round_trips("crlf.csv");
}

#[test]
fn mixed_line_endings_in_one_file() {
    assert_round_trips("mixed-endings.csv");
}

#[test]
fn no_trailing_newline_stays_missing() {
    assert_round_trips("no-trailing-newline.csv");
}

#[test]
fn ragged_records_stay_ragged() {
    assert_round_trips("ragged.csv");
}

#[test]
fn byte_order_mark_is_preserved() {
    assert_round_trips("bom.csv");
}

#[test]
fn values_that_look_like_numbers_and_dates() {
    assert_round_trips("text-preservation.csv");
}

#[test]
fn quoting_the_file_did_not_need() {
    assert_round_trips("odd-quoting.csv");
}

#[test]
fn semicolon_delimited() {
    assert_round_trips("semicolon.csv");
}

#[test]
fn tab_delimited() {
    assert_round_trips("tabs.tsv");
}

#[test]
fn pipe_delimited() {
    assert_round_trips("pipe.csv");
}

#[test]
fn ascii_separators_with_a_line_break_inside_a_field() {
    assert_round_trips("ascii-separated.dsv");
}

#[test]
fn decimal_commas_inside_a_semicolon_file() {
    assert_round_trips("european.csv");
}

#[test]
fn surrounding_whitespace_is_data() {
    assert_round_trips("whitespace.csv");
}

#[test]
fn multi_byte_characters() {
    assert_round_trips("german.csv");
}

#[test]
fn empty_file() {
    assert_round_trips("empty.csv");
}

#[test]
fn a_file_of_one_newline() {
    assert_round_trips("newline-only.csv");
}

// Guessing the dialect, and whether the first record names the columns.

fn sniffed(name: &str) -> Dialect {
    sniff(&read(name))
}

fn headed(name: &str) -> bool {
    let bytes = read(name);
    sniff_header(&bytes, sniff(&bytes))
}

#[test]
fn every_corpus_file_is_recognised_as_what_it_is() {
    for (name, expected) in [
        ("plain.csv", Dialect::comma()),
        ("quoted.csv", Dialect::comma()),
        ("crlf.csv", Dialect::comma()),
        ("mixed-endings.csv", Dialect::comma()),
        ("no-trailing-newline.csv", Dialect::comma()),
        ("bom.csv", Dialect::comma()),
        ("text-preservation.csv", Dialect::comma()),
        ("odd-quoting.csv", Dialect::comma()),
        ("whitespace.csv", Dialect::comma()),
        ("german.csv", Dialect::comma()),
        ("semicolon.csv", Dialect::semicolon()),
        ("european.csv", Dialect::semicolon()),
        ("tabs.tsv", Dialect::tab()),
        ("pipe.csv", Dialect::pipe()),
        ("ascii-separated.dsv", Dialect::unit_separator()),
    ] {
        assert_eq!(sniffed(name), expected, "{name} was read as the wrong kind");
    }
}

#[test]
fn a_file_too_ragged_to_judge_falls_back_to_comma() {
    assert_eq!(sniffed("ragged.csv"), Dialect::comma());
}

#[test]
fn every_corpus_file_is_read_as_having_the_titles_it_has() {
    for name in [
        "plain.csv",
        "quoted.csv",
        "crlf.csv",
        "mixed-endings.csv",
        "no-trailing-newline.csv",
        "bom.csv",
        "text-preservation.csv",
        "odd-quoting.csv",
        "whitespace.csv",
        "german.csv",
        "ragged.csv",
        "semicolon.csv",
        "european.csv",
        "tabs.tsv",
        "pipe.csv",
        "ascii-separated.dsv",
    ] {
        assert!(headed(name), "{name} lost the titles it has");
    }
}

// Rows and columns coming and going.

#[test]
fn a_row_inserted_above_is_blank_and_as_wide_as_the_table() {
    let mut document = load("plain.csv");

    document.insert_row(1);

    assert_eq!(document.row_count(), 4);
    assert_eq!(document.field_count(1), 3);
    assert_eq!(
        written(&document),
        "id,name,city\n,,\n1,Ada,London\n2,Grace,Arlington\n"
    );
}

#[test]
fn an_inserted_row_ends_the_way_the_file_ends_its_records() {
    let mut document = load("crlf.csv");

    document.insert_row(1);

    let text = written(&document);
    assert_eq!(
        text.lines().count(),
        4,
        "a file of carriage-return line endings must not gain a bare line feed"
    );
    assert!(text.starts_with("id,name,note\r\n,,\r\n1,Ada,"), "{text}");
}

#[test]
fn a_row_added_to_a_file_with_no_trailing_newline_takes_over_ending_it() {
    let name = "no-trailing-newline.csv";
    let mut document = load(name);

    document.insert_row(2);

    assert_eq!(
        visible(&document.to_bytes()),
        visible(b"id,name\n1,Ada\n,"),
        "the record that stopped being last needs the terminator it did without"
    );
    assert_eq!(
        visible(&document.to_bytes()),
        visible(&{
            document.undo();
            document.redo();
            document.to_bytes()
        }),
        "and doing it again has to arrive at the same file"
    );
}

#[test]
fn deleting_the_last_row_leaves_the_file_ending_as_it_did() {
    let mut document = load("no-trailing-newline.csv");

    document.delete_row(1);

    assert_eq!(
        visible(&document.to_bytes()),
        visible(b"id,name"),
        "the file ended without a terminator and still should"
    );
}

#[test]
fn deleting_a_row_takes_that_line_and_no_other() {
    let name = "odd-quoting.csv";
    let original = String::from_utf8(read(name)).unwrap();
    let mut document = load(name);

    document.delete_row(1);

    let text = written(&document);
    assert_eq!(text.lines().count(), 2);
    assert_eq!(
        text.lines().next().unwrap(),
        original.lines().next().unwrap()
    );
    assert_eq!(
        text.lines().nth(1).unwrap(),
        original.lines().nth(2).unwrap()
    );
}

#[test]
fn a_line_ending_goes_with_the_line_it_belonged_to() {
    let mut document = load("mixed-endings.csv");

    document.delete_row(0);

    assert_eq!(
        visible(&document.to_bytes()),
        visible(b"c,d\ne,f\r\n"),
        "deleting the carriage-return line must not give its ending to another"
    );
}

#[test]
fn an_inserted_column_stops_at_the_records_that_do_not_reach_it() {
    let mut document = load("ragged.csv");

    document.insert_column(4);

    assert_eq!(written(&document), "a,b,c\nd\n\ne,f,g,h,,i\n");
}

#[test]
fn a_column_inserted_at_a_records_edge_reaches_it() {
    let mut document = load("ragged.csv");

    document.insert_column(1);

    assert_eq!(written(&document), "a,,b,c\nd,\n,\ne,,f,g,h,i\n");
}

#[test]
fn a_column_can_be_added_at_the_end_of_a_table() {
    let mut document = load("plain.csv");

    document.insert_column(document.column_count());

    assert_eq!(document.column_count(), 4);
    assert_eq!(
        written(&document),
        "id,name,city,\n1,Ada,London,\n2,Grace,Arlington,\n"
    );
}

#[test]
fn a_deleted_column_leaves_the_records_that_never_had_it() {
    let mut document = load("ragged.csv");

    document.delete_column(1);

    assert_eq!(written(&document), "a,c\nd\n\ne,g,h,i\n");
}

#[test]
fn undoing_a_column_puts_back_the_spelling_of_the_fields_it_took() {
    // Column 1 of this file holds `b`, then `"x"y`, then `unquoted`. The middle
    // one is written in a way Comma would never produce, so a column restored
    // from its values rather than from its fields would be plain to see.
    let name = "odd-quoting.csv";
    let original = read(name);
    let mut document = load(name);

    document.delete_column(1);
    assert_ne!(visible(&document.to_bytes()), visible(&original));

    assert_eq!(document.undo(), Some(Extent::Shape));
    assert_eq!(visible(&document.to_bytes()), visible(&original));
}

#[test]
fn reordering_moves_the_fields_and_leaves_the_line_endings_where_they_are() {
    let mut document = load("mixed-endings.csv");

    document.reorder_rows(vec![2, 1, 0]);

    assert_eq!(
        visible(&document.to_bytes()),
        visible(b"e,f\r\nc,d\na,b\r\n")
    );
}

#[test]
fn reordering_a_file_that_ends_without_a_newline_still_ends_without_one() {
    let mut document = load("no-trailing-newline.csv");

    document.reorder_rows(vec![1, 0]);

    assert_eq!(visible(&document.to_bytes()), visible(b"1,Ada\nid,name"));
}

#[test]
fn undoing_a_reordering_puts_every_row_back() {
    let name = "odd-quoting.csv";
    let original = read(name);
    let mut document = load(name);

    document.reorder_rows(vec![2, 0, 1]);
    assert_eq!(document.value(0, 1), "unquoted");

    assert_eq!(document.undo(), Some(Extent::Shape));
    assert_eq!(
        visible(&document.to_bytes()),
        visible(&original),
        "an order taken back has to restore each field's original spelling too"
    );
}

#[test]
fn a_structural_change_is_one_thing_to_undo() {
    let mut document = load("plain.csv");

    document.insert_column(1);
    assert_eq!(document.column_count(), 4);

    assert_eq!(document.undo(), Some(Extent::Shape));
    assert_eq!(document.column_count(), 3);
    assert!(
        !document.can_undo(),
        "three records changed, but the user did one thing"
    );
}

#[test]
fn a_row_change_says_which_rows_it_spliced() {
    let mut document = load("plain.csv");

    assert_eq!(
        document.insert_row(1),
        Extent::Rows {
            at: 1,
            gone: 0,
            come: 1
        }
    );
    assert_eq!(
        document.undo(),
        Some(Extent::Rows {
            at: 1,
            gone: 1,
            come: 0
        }),
        "taking an insertion back is the same splice read the other way"
    );
    assert_eq!(
        document.delete_row(1),
        Extent::Rows {
            at: 1,
            gone: 1,
            come: 0
        }
    );
}

#[test]
fn appending_to_a_file_with_no_final_newline_says_the_last_row_moved_too() {
    let mut document = load("no-trailing-newline.csv");

    assert_eq!(
        document.insert_row(document.row_count()),
        Extent::Rows {
            at: 1,
            gone: 1,
            come: 2
        }
    );
}

#[test]
fn undo_says_a_cell_edit_moved_only_its_own_row() {
    let mut document = load("plain.csv");
    document.set_value(1, 1, "Lovelace");

    assert_eq!(document.undo(), Some(Extent::Record(1)));
}

/// Something done to a document, named so a failure says which one it was.
type Change = (&'static str, fn(&mut Document) -> Extent);

/// One of each kind of structural change, aimed at a position every corpus file
/// has.
fn changes() -> Vec<Change> {
    vec![
        ("an inserted first row", |document| document.insert_row(0)),
        ("an appended row", |document| {
            document.insert_row(document.row_count())
        }),
        ("a deleted first row", |document| document.delete_row(0)),
        ("a deleted last row", |document| {
            document.delete_row(document.row_count() - 1)
        }),
        ("an inserted first column", |document| {
            document.insert_column(0)
        }),
        ("an appended column", |document| {
            document.insert_column(document.column_count())
        }),
        ("a deleted first column", |document| {
            document.delete_column(0)
        }),
    ]
}

#[test]
fn every_corpus_file_survives_each_structural_change_and_its_undo() {
    for name in EVERY_FILE {
        let original = read(name);

        for (what, change) in changes() {
            let mut document = load(name);
            change(&mut document);

            let written = document.to_bytes();
            Document::from_bytes(&written, dialect(name)).unwrap_or_else(|error| {
                panic!("{name} would not reload after {what}: {error:?}")
            });

            document.undo();
            assert_eq!(
                visible(&document.to_bytes()),
                visible(&original),
                "{name} did not come back from {what}"
            );
        }
    }
}

// What an export writes.

/// A sheet showing the whole document in file order, headed by its first record.
fn titled(document: &Document) -> (Vec<String>, Vec<usize>) {
    let columns = (0..document.column_count())
        .map(|column| document.value(0, column).to_string())
        .collect();
    let rows = (1..document.row_count()).collect();
    (columns, rows)
}

/// A sheet showing the whole document in file order, headed by column letters.
fn lettered(document: &Document) -> (Vec<String>, Vec<usize>) {
    let columns = (0..document.column_count())
        .map(|column| format!("{}", (b'A' + column as u8) as char))
        .collect();
    let rows = (0..document.row_count()).collect();
    (columns, rows)
}

/// The single XML document inside an ODS file that holds the table.
fn content_of(ods: &[u8]) -> String {
    let mut archive =
        zip::ZipArchive::new(std::io::Cursor::new(ods)).expect("an export has to be a zip file");
    let mut content = String::new();
    std::io::Read::read_to_string(
        &mut archive
            .by_name("content.xml")
            .expect("an export has to hold its table"),
        &mut content,
    )
    .unwrap();
    content
}

#[test]
fn html_writes_every_value_the_grid_shows() {
    let document = load("plain.csv");
    let (columns, rows) = titled(&document);
    let page = export::html(&Sheet {
        document: &document,
        columns: &columns,
        titled: true,
        rows: &rows,
        name: "plain.csv",
    });

    assert!(page.contains("<th>name</th>"), "{page}");
    assert!(page.contains("<td>Ada</td>"), "{page}");
    assert!(page.contains("<td>Arlington</td>"), "{page}");
    assert!(
        !page.contains("<td>id</td>"),
        "the record the titles came from is not also a row"
    );
}

#[test]
fn html_escapes_what_would_otherwise_be_markup() {
    let mut document = load("plain.csv");
    document.set_value(1, 1, "<b>Ada</b> & \"Grace\"");

    let (columns, rows) = lettered(&document);
    let page = export::html(&Sheet {
        document: &document,
        columns: &columns,
        titled: false,
        rows: &rows,
        name: "plain.csv",
    });

    assert!(
        page.contains("&lt;b&gt;Ada&lt;/b&gt; &amp; &quot;Grace&quot;"),
        "{page}"
    );
    assert!(!page.contains("<b>Ada</b>"));
}

#[test]
fn a_cell_holding_a_line_break_keeps_it() {
    let mut document = load("plain.csv");
    document.set_value(1, 2, "London\nEngland");

    let (columns, rows) = lettered(&document);
    let sheet = Sheet {
        document: &document,
        columns: &columns,
        titled: false,
        rows: &rows,
        name: "plain.csv",
    };

    let page = export::html(&sheet);
    assert!(page.contains("<td>London\nEngland</td>"), "{page}");
    assert!(page.contains("white-space: pre-wrap"));

    let content = content_of(&export::ods(&sheet).expect("the archive is written"));
    assert!(
        content.contains("<text:p>London</text:p><text:p>England</text:p>"),
        "{content}"
    );
}

#[test]
fn every_cell_of_a_spreadsheet_is_written_as_text() {
    let document = load("text-preservation.csv");
    let (columns, rows) = lettered(&document);
    let content = content_of(
        &export::ods(&Sheet {
            document: &document,
            columns: &columns,
            titled: false,
            rows: &rows,
            name: "text-preservation.csv",
        })
        .expect("the archive is written"),
    );

    assert!(
        !content.contains("office:value-type=\"float\""),
        "nothing may be written as a number"
    );
    assert_eq!(
        content.matches("office:value-type=\"string\"").count(),
        document.row_count() * document.column_count()
    );
}

#[test]
fn a_spreadsheet_starts_with_an_uncompressed_mimetype() {
    let document = load("plain.csv");
    let (columns, rows) = lettered(&document);
    let ods = export::ods(&Sheet {
        document: &document,
        columns: &columns,
        titled: false,
        rows: &rows,
        name: "plain.csv",
    })
    .expect("the archive is written");

    let mimetype = "application/vnd.oasis.opendocument.spreadsheet";
    let head = String::from_utf8_lossy(&ods[..120]);
    assert!(head.contains("mimetype"), "{head}");
    assert!(head.contains(mimetype), "{head}");
}
