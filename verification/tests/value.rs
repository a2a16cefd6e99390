// What kind of thing a value is, and what order values go in.

use std::cmp::Ordering;

use comma::decimal::Decimal;
use comma::value::{compare, compare_alike, kind, Kind};

/// Values sorted the way a column is, with byte order standing in for the
/// reader's language where text meets text.
fn sorted(values: &[&str]) -> Vec<String> {
    let mut values: Vec<String> = values.iter().map(|value| value.to_string()).collect();
    values.sort_by(|left, right| compare(left, right, left.cmp(right)));
    values
}

fn alike(value: &str, against: &str) -> Option<Ordering> {
    compare_alike(value, against, value.cmp(against))
}

#[test]
fn value_numbers_go_in_number_order_rather_than_text_order() {
    assert_eq!(sorted(&["10", "9", "100"]), ["9", "10", "100"]);
}

#[test]
fn value_a_number_written_with_a_leading_zero_is_still_a_number() {
    assert_eq!(sorted(&["007", "10", "2"]), ["2", "007", "10"]);
}

#[test]
fn value_numbers_come_before_text_and_text_before_blanks() {
    assert_eq!(
        sorted(&["", "apple", "3", "  ", "zebra"]),
        ["3", "apple", "zebra", "", "  "]
    );
}

#[test]
fn value_text_that_only_looks_numeric_is_text() {
    assert_eq!(
        sorted(&["1.234,56", "£5", "1.2.3"]),
        ["1.2.3", "1.234,56", "£5"]
    );
}

#[test]
fn a_word_that_rust_reads_as_a_number_is_still_a_word() {
    assert_eq!(kind("NaN"), Kind::Text("NaN"));
    assert_eq!(kind("inf"), Kind::Text("inf"));
    assert_eq!(sorted(&["inf", "10", "2"]), ["2", "10", "inf"]);
}

#[test]
fn a_cell_of_spaces_is_blank_rather_than_text() {
    assert_eq!(kind("   "), Kind::Blank);
    assert_eq!(kind(""), Kind::Blank);
}

#[test]
fn numbers_compare_as_numbers_and_text_as_text() {
    assert_eq!(alike("9", "10"), Some(Ordering::Less));
    assert_eq!(alike("apple", "banana"), Some(Ordering::Less));
}

#[test]
fn a_value_of_another_kind_is_neither_above_nor_below() {
    assert_eq!(alike("£5", "100"), None);
    assert_eq!(alike("100", "£5"), None);
    assert_eq!(alike("", "100"), None);
    assert_eq!(alike("  ", "apple"), None);
}

#[test]
fn a_number_is_held_as_its_significant_digits_and_where_the_point_goes() {
    assert_eq!(
        kind(" -0.0150e2 "),
        Kind::Number(Decimal::Finite { negative: true, digits: vec!['1', '5'], exponent: 1 })
    );
    assert_eq!(kind("0"), Kind::Number(Decimal::Zero));
    assert_eq!(kind("-0.000"), Kind::Number(Decimal::Zero));
    assert_eq!(kind("1e-400"), Kind::Number(Decimal::Zero));
    assert_eq!(
        kind("+12"),
        Kind::Number(Decimal::Finite { negative: false, digits: vec!['1', '2'], exponent: 2 })
    );
}

#[test]
fn the_written_forms_of_a_number_are_the_ones_a_float_is_read_from() {
    for number in ["1", "1.", ".5", "1.5e3", "1E-3", "-.5e+2", "00", "1e0001"] {
        assert!(matches!(kind(number), Kind::Number(_)), "{number}");
    }
    for text in [".", "e5", "1e", "1e+", "1.2.3", "--1", "1,5", "0x10", "1_000", "+"] {
        assert_eq!(kind(text), Kind::Text(text), "{text}");
    }
}

#[test]
fn a_number_past_the_largest_double_is_a_word_like_inf() {
    assert!(matches!(kind("1.7976931348623157e308"), Kind::Number(_)));
    // Halfway to 2^1024 is where reading rounds to infinity.
    assert!(matches!(
        kind("1.797693134862315807937289714053034150799341327100378269361737789804449682927647509466490179775872070963302864166928879109465555478519404026306574886715058206819089020007083836762738548458177115317644757302700698555713669596228429148198608349364752927190741684443655107043427115596995080930428801779041744977919999e308"),
        Kind::Number(_)
    ));
    assert_eq!(kind("1.7976931348623158079372897140530341507993413271003782693617377898044496829276475094664901797758720709633028641669288791094655554785194040263065748867150582068190890200070838367627385484581771153176447573027006985557136695962284291481986083493647529271907416844436551070434271155969950809304288017790417449779200e308"), Kind::Text("1.7976931348623158079372897140530341507993413271003782693617377898044496829276475094664901797758720709633028641669288791094655554785194040263065748867150582068190890200070838367627385484581771153176447573027006985557136695962284291481986083493647529271907416844436551070434271155969950809304288017790417449779200e308"));
    assert_eq!(kind("1e400"), Kind::Text("1e400"));
    assert_eq!(
        kind("1e100000000000000000000000000"),
        Kind::Text("1e100000000000000000000000000")
    );
}

#[test]
fn numbers_are_ordered_by_what_they_say() {
    assert_eq!(compare("-2", "-10", Ordering::Less), Ordering::Greater);
    assert_eq!(compare("1e3", "999", Ordering::Less), Ordering::Greater);
    assert_eq!(compare("0.10", "0.1", Ordering::Less), Ordering::Equal);
    assert_eq!(compare("-0", "0", Ordering::Less), Ordering::Equal);
    assert_eq!(compare("0.5", "-0.5", Ordering::Less), Ordering::Greater);
    assert_eq!(compare("123", "12.3e1", Ordering::Greater), Ordering::Equal);
    assert_eq!(compare("1.25", "1.2", Ordering::Less), Ordering::Greater);
}

#[test]
fn text_is_put_in_the_order_it_is_handed() {
    assert_eq!(compare("b", "a", Ordering::Less), Ordering::Less);
    assert_eq!(compare("a", "b", Ordering::Greater), Ordering::Greater);
    // Two blanks are put in the order they are handed too.
    assert_eq!(compare(" ", "", Ordering::Less), Ordering::Less);
    // A number goes before text whatever the text order says.
    assert_eq!(compare("5", "a", Ordering::Greater), Ordering::Less);
}
