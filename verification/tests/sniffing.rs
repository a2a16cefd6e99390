// Guessing the dialect, and whether the first record names the columns.

use comma::document::{sniff, sniff_header, Dialect, Document};

#[test]
fn a_delimiter_inside_quotes_does_not_count() {
    let bytes = b"a;b\n\"x,y,z\";\"p,q,r\"\n\"1,2,3\";\"4,5,6\"\n";
    assert_eq!(sniff(bytes), Dialect::semicolon());
}

#[test]
fn a_file_with_no_delimiter_at_all_is_read_as_one_column() {
    let bytes = b"first line\nsecond line\nthird line\n";
    let dialect = sniff(bytes);

    assert_eq!(dialect, Dialect::comma());
    let document = Document::from_bytes(bytes, dialect).unwrap();
    assert_eq!(document.column_count(), 1);
    assert_eq!(document.row_count(), 3);
}

#[test]
fn an_empty_file_does_not_produce_a_wild_guess() {
    assert_eq!(sniff(b""), Dialect::comma());
    assert_eq!(sniff(b"\n"), Dialect::comma());
}

#[test]
fn the_wider_reading_wins_when_two_delimiters_both_fit() {
    let bytes = b"a,b;c,d\ne,f;g,h\n";
    assert_eq!(sniff(bytes), Dialect::comma());
}

#[test]
fn only_the_first_part_of_a_large_file_is_read() {
    let mut bytes = Vec::new();
    while bytes.len() < 1_000_000 {
        bytes.extend_from_slice(b"one\ttwo\tthree\n");
    }
    let tail_starts = bytes.len();
    for _ in 0..1000 {
        bytes.extend_from_slice(b"one,two,three\n");
    }

    assert!(tail_starts > 64 * 1024, "the tail has to be out of sight");
    assert_eq!(sniff(&bytes), Dialect::tab());
}

#[test]
fn a_file_that_is_not_utf8_is_still_sniffed() {
    let bytes = b"name;city\nAda;K\xf6ln\nGrace;M\xfcnchen\n";
    assert_eq!(sniff(bytes), Dialect::semicolon());
    assert!(Document::from_bytes(bytes, Dialect::semicolon()).is_err());
}

#[test]
fn a_column_of_numbers_under_a_word_is_a_column_with_a_title() {
    let bytes = b"id,name\n1,Ada\n2,Grace\n3,Katherine\n";
    assert!(sniff_header(bytes, Dialect::comma()));
}

#[test]
fn a_column_of_numbers_all_the_way_up_has_no_title_on_it() {
    let bytes = b"1,Ada\n2,Grace\n3,Katherine\n";
    assert!(!sniff_header(bytes, Dialect::comma()));
}

#[test]
fn the_columns_that_speak_outvote_the_one_that_is_named_for_a_year() {
    let bytes = b"record,2024,price,count\nr1,1200,19.99,7\nr2,1400,24.50,9\n";
    assert!(sniff_header(bytes, Dialect::comma()));
}

#[test]
fn dates_and_money_and_padded_codes_count_as_figures() {
    let bytes = b"when;paid;code\n2026-01-05;1.234,56;0007\n2026-02-05;987,00;0008\n";
    assert!(sniff_header(bytes, Dialect::semicolon()));
}

#[test]
fn an_index_column_with_no_name_on_it_is_still_a_column_with_a_title() {
    let bytes = b",task,owner\n1,Inventory apps,Alice\n2,Score portfolio,Bob\n";
    assert!(sniff_header(bytes, Dialect::comma()));
}

#[test]
fn a_file_of_nothing_but_words_falls_back_to_titles() {
    let bytes = b"name,role,city\nAlice,Engineer,Portland\nBob,Designer,Austin\n";
    assert!(sniff_header(bytes, Dialect::comma()));
}

#[test]
fn a_first_record_with_a_hole_in_it_is_not_a_set_of_titles() {
    let bytes = b"Application Risk Log,,,\nProject,Owner,Opened,Status\nAtlas,Ada,Monday,open\n";
    assert!(!sniff_header(bytes, Dialect::comma()));
}

#[test]
fn the_same_word_twice_is_not_a_set_of_titles() {
    let bytes = b"London,London,Oxford\nAda,Grace,Katherine\n";
    assert!(!sniff_header(bytes, Dialect::comma()));
}

#[test]
fn a_record_with_nothing_under_it_is_not_a_title() {
    assert!(!sniff_header(b"id,name,city\n", Dialect::comma()));
    assert!(!sniff_header(b"", Dialect::comma()));
    assert!(!sniff_header(b"\n", Dialect::comma()));
}

#[test]
fn gaps_in_a_column_of_figures_do_not_silence_it() {
    let bytes = b"id,name\n1,Ada\n,Grace\n3,Katherine\n";
    assert!(sniff_header(bytes, Dialect::comma()));
}

#[test]
fn a_file_of_tabs_or_pipes_is_recognised() {
    assert_eq!(sniff(b"a\tb\tc\n1\t2\t3\n"), Dialect::tab());
    assert_eq!(sniff(b"a|b\n1|2\n"), Dialect::pipe());
}
