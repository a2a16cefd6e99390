// What order the grid puts a sorted column in.

use std::cmp::Ordering;

use comma::grid::order::compare;

fn sorted(values: &[&str]) -> Vec<String> {
    let mut values: Vec<String> = values.iter().map(|value| value.to_string()).collect();
    values.sort_by(|left, right| compare(left, right, left.cmp(right)));
    values
}

#[test]
fn order_numbers_go_in_number_order_rather_than_text_order() {
    assert_eq!(sorted(&["10", "9", "100"]), ["9", "10", "100"]);
}

#[test]
fn order_a_number_written_with_a_leading_zero_is_still_a_number() {
    assert_eq!(sorted(&["007", "10", "2"]), ["2", "007", "10"]);
}

#[test]
fn order_numbers_come_before_text_and_text_before_blanks() {
    assert_eq!(
        sorted(&["", "apple", "3", "  ", "zebra"]),
        ["3", "apple", "zebra", "", "  "]
    );
}

#[test]
fn order_text_that_only_looks_numeric_is_text() {
    assert_eq!(
        sorted(&["1.234,56", "£5", "1.2.3"]),
        ["1.2.3", "1.234,56", "£5"]
    );
}

#[test]
fn the_grid_sorts_infinities_among_the_numbers() {
    assert_eq!(sorted(&["inf", "10", "-Infinity", "1e400"]), ["-Infinity", "10", "inf", "1e400"]);
    assert_eq!(compare("inf", "1e400", Ordering::Less), Ordering::Equal);
    assert_eq!(compare("-inf", "abc", Ordering::Greater), Ordering::Less);
}

#[test]
fn not_a_number_sorts_as_text_so_the_order_stays_settled() {
    assert_eq!(compare("NaN", "5", Ordering::Less), Ordering::Greater);
    assert_eq!(compare("5", "nan", Ordering::Greater), Ordering::Less);
    assert_eq!(compare("NaN", "text", Ordering::Greater), Ordering::Greater);
    assert_eq!(compare("2", "NaN", Ordering::Less), Ordering::Less);
    assert_eq!(compare("NaN", "1", Ordering::Less), Ordering::Greater);
    assert_eq!(compare("2", "1", Ordering::Less), Ordering::Greater);
    assert_eq!(sorted(&["NaN", "2", "", "1", "apple"]), ["1", "2", "NaN", "apple", ""]);
}
