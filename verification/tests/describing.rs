// The words a filter in force reads as.

use comma::filter::{Condition, Operator};
use comma::window::filters::{describe, fill, sentence_for};

#[test]
fn a_description_puts_each_part_where_the_sentence_asks_for_it() {
    assert_eq!(
        fill("%c is between %v and %w", "Price", "10", "100"),
        "Price is between 10 and 100"
    );
    assert_eq!(
        fill("%v enthält %c", "Status", "aktiv", ""),
        "aktiv enthält Status"
    );
}

#[test]
fn a_column_named_like_a_placeholder_goes_in_as_a_name() {
    assert_eq!(fill("%c is %v", "%v", "x", ""), "%v is x");
}

#[test]
fn a_stray_percent_is_left_where_it_stands() {
    assert_eq!(fill("%c is 50%", "Share", "", ""), "Share is 50%");
    assert_eq!(fill("%c is %z", "Share", "", ""), "Share is %z");
}

#[test]
fn an_untranslated_description_reads_as_english() {
    let range = Operator::Between.build("10", "100").unwrap();
    let sentence = sentence_for(range.operator());
    assert_eq!(sentence, "%c is between %v and %w");
    assert_eq!(describe("Price", &range, sentence), "Price is between 10 and 100");
    let empty = sentence_for(Operator::IsEmpty);
    assert_eq!(describe("Notes", &Condition::IsEmpty, empty), "Notes is empty");
}

#[test]
fn a_description_is_written_in_the_sentence_it_is_given() {
    let is = Operator::Is.build("aktiv", "").unwrap();
    assert_eq!(describe("Status", &is, "%c ist %v"), "Status ist aktiv");
    assert_eq!(sentence_for(Operator::DoesNotContain), "%c does not contain %v");
}
