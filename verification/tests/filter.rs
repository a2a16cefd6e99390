// The conditions a column can be held to.

use comma::filter::{collated_from, Collated, Condition, Filters, Operator};

/// How the reader's language orders a value against a condition's two values.
/// Byte order stands in for a locale's collation here: it agrees with one on
/// every value these tests compare as text.
fn collation(value: &str, condition: &Condition) -> (Collated, Collated) {
    let (first, second) = condition.values();
    (collated_from(value.cmp(first)), collated_from(value.cmp(second)))
}

fn meets(condition: &Condition, value: &str) -> bool {
    condition.matches(value, collation(value, condition))
}

fn shows(condition: &Condition, values: &[&str]) -> Vec<String> {
    values
        .iter()
        .filter(|value| meets(condition, value))
        .map(|value| value.to_string())
        .collect()
}

fn condition(operator: Operator, first: &str, second: &str) -> Condition {
    operator
        .build(first, second)
        .expect("the test gave every value this operator takes")
}

/// What a row is asked for: its value in each filtered column, in column
/// order, empty past its end.
fn asked<'a>(filters: &Filters, row: &[&'a str]) -> Vec<&'a str> {
    filters
        .iter()
        .into_iter()
        .map(|(column, _)| row.get(column).copied().unwrap_or(""))
        .collect()
}

/// The collations a row needs, one per condition in force.
fn collations(filters: &Filters, row: &[&str]) -> Vec<(Collated, Collated)> {
    filters
        .iter()
        .into_iter()
        .zip(asked(filters, row))
        .map(|((_, condition), value)| collation(value, condition))
        .collect()
}

/// Whether the filters admit a row, asking it only for the filtered columns.
fn admits(filters: &Filters, row: &[&str]) -> bool {
    filters.admits(&asked(filters, row), &collations(filters, row))
}

#[test]
fn contains_looks_inside_a_value_and_is_looks_at_the_whole_of_it() {
    let values = ["active", "inactive", "Active"];

    assert_eq!(
        shows(&condition(Operator::Contains, "active", ""), &values),
        ["active", "inactive", "Active"]
    );
    assert_eq!(
        shows(&condition(Operator::Is, "active", ""), &values),
        ["active", "Active"]
    );
}

#[test]
fn case_is_folded_on_both_sides_as_the_search_bar_folds_it() {
    assert!(meets(&condition(Operator::Is, "ACTIVE", ""), "active"));
    assert!(meets(&condition(Operator::Contains, "ÄRGER", ""), "kein ärger"));
}

#[test]
fn a_value_is_not_trimmed_before_it_is_matched() {
    assert!(!meets(&condition(Operator::Is, "active", ""), " active "));
}

#[test]
fn empty_finds_the_cells_that_look_empty() {
    let values = ["", "   ", "0", "x"];

    assert_eq!(shows(&Condition::IsEmpty, &values), ["", "   "]);
    assert_eq!(shows(&Condition::IsNotEmpty, &values), ["0", "x"]);
}

#[test]
fn a_number_filter_reads_numbers_and_passes_over_everything_else() {
    let values = ["50", "150", "£5", "1.234,56", "", "abc"];

    assert_eq!(
        shows(&condition(Operator::GreaterThan, "100", ""), &values),
        ["150"]
    );
    assert_eq!(
        shows(&condition(Operator::LessThan, "100", ""), &values),
        ["50"]
    );
}

#[test]
fn between_takes_both_ends_with_it() {
    let values = ["9", "10", "50", "100", "101"];

    assert_eq!(
        shows(&condition(Operator::Between, "10", "100"), &values),
        ["10", "50", "100"]
    );
}

#[test]
fn text_can_be_put_in_order_too() {
    let values = ["apple", "mango", "zebra"];

    assert_eq!(
        shows(&condition(Operator::GreaterThan, "banana", ""), &values),
        ["mango", "zebra"]
    );
}

#[test]
fn an_operator_that_needs_a_value_refuses_to_be_built_without_one() {
    assert_eq!(Operator::Contains.build("", ""), None);
    assert_eq!(Operator::Contains.build("   ", ""), None);
    assert_eq!(Operator::Between.build("10", ""), None);
    assert_eq!(Operator::IsEmpty.build("", ""), Some(Condition::IsEmpty));
}

#[test]
fn every_operator_answers_to_its_own_name() {
    for operator in Operator::all() {
        assert_eq!(Operator::from_id(operator.id()), Some(operator));
    }
    assert_eq!(Operator::from_id("sideways"), None);
}

#[test]
fn conditions_are_joined_by_and() {
    let mut filters = Filters::default();
    filters.set(0, condition(Operator::Is, "active", ""));
    filters.set(2, condition(Operator::GreaterThan, "100", ""));

    let row = |values: [&'static str; 3]| admits(&filters, &values);

    assert!(row(["active", "anything", "150"]));
    assert!(!row(["closed", "anything", "150"]));
    assert!(!row(["active", "anything", "50"]));
}

#[test]
fn one_condition_per_column_and_the_last_one_wins() {
    let mut filters = Filters::default();
    filters.set(1, condition(Operator::Is, "a", ""));
    filters.set(1, condition(Operator::Is, "b", ""));

    assert_eq!(filters.len(), 1);
    assert_eq!(filters.on(1), Some(&Condition::Is("b".to_string())));
}

#[test]
fn conditions_read_across_in_column_order_however_they_were_added() {
    let mut filters = Filters::default();
    filters.set(4, Condition::IsEmpty);
    filters.set(1, Condition::IsNotEmpty);
    filters.set(3, Condition::IsEmpty);

    let columns: Vec<usize> = filters.iter().into_iter().map(|(column, _)| column).collect();
    assert_eq!(columns, [1, 3, 4]);
}

#[test]
fn a_condition_follows_its_column_when_another_is_inserted() {
    let mut filters = Filters::default();
    filters.set(2, Condition::IsEmpty);

    filters.column_inserted(0);
    assert_eq!(filters.on(3), Some(&Condition::IsEmpty));

    filters.column_inserted(9);
    assert_eq!(filters.on(3), Some(&Condition::IsEmpty));
}

#[test]
fn a_condition_goes_when_its_own_column_does() {
    let mut filters = Filters::default();
    filters.set(1, Condition::IsEmpty);
    filters.set(3, Condition::IsNotEmpty);

    filters.column_deleted(1);

    assert_eq!(filters.len(), 1, "the condition on column 1 went with it");
    assert_eq!(filters.on(2), Some(&Condition::IsNotEmpty));
}

#[test]
fn taking_a_condition_off_says_whether_there_was_one() {
    let mut filters = Filters::default();
    filters.set(2, Condition::IsEmpty);
    filters.set(5, Condition::IsNotEmpty);

    assert!(filters.clear_column(2));
    assert!(!filters.clear_column(2));
    assert_eq!(filters.on(2), None);
    assert_eq!(filters.on(5), Some(&Condition::IsNotEmpty));
    assert!(!filters.is_empty());

    filters.clear();
    assert!(filters.is_empty());
    assert_eq!(filters.len(), 0);
}

#[test]
fn a_column_inserted_at_a_condition_pushes_it_along() {
    let mut filters = Filters::default();
    filters.set(0, Condition::IsEmpty);
    filters.set(4, Condition::IsNotEmpty);

    filters.column_inserted(4);

    assert_eq!(filters.on(0), Some(&Condition::IsEmpty));
    assert_eq!(filters.on(4), None);
    assert_eq!(filters.on(5), Some(&Condition::IsNotEmpty));
}

#[test]
fn a_row_too_short_for_a_filtered_column_reads_as_empty_there() {
    let mut filters = Filters::default();
    filters.set(3, Condition::IsEmpty);

    let short = ["a", "b"];
    assert!(admits(&filters, &short));

    let long = ["a", "b", "c", "d"];
    assert!(!admits(&filters, &long));
}

#[test]
fn no_filters_admit_every_row() {
    let filters = Filters::default();
    assert!(filters.admits(&[], &[]));
    assert!(admits(&filters, &["x"]));
}

#[test]
fn a_condition_reports_its_operator_and_values() {
    let range = condition(Operator::Between, "10", "100");
    assert_eq!(range.operator(), Operator::Between);
    assert_eq!(range.values(), ("10", "100"));

    let single = condition(Operator::DoesNotContain, "x", "ignored");
    assert_eq!(single.operator(), Operator::DoesNotContain);
    assert_eq!(single.values(), ("x", ""));
    assert!(meets(&single, "abc"));
    assert!(!meets(&single, "xyz"));

    assert_eq!(Condition::IsNotEmpty.values(), ("", ""));
    assert_eq!(Operator::Between.values(), 2);
    assert_eq!(Operator::IsEmpty.values(), 0);
    assert_eq!(Operator::IsNot.values(), 1);
    assert!(meets(&condition(Operator::IsNot, "a", ""), "b"));
}

#[test]
fn the_operators_come_in_the_order_the_picker_lists_them() {
    let ids: Vec<&str> = Operator::all().into_iter().map(|operator| operator.id()).collect();
    assert_eq!(
        ids,
        [
            "contains",
            "does-not-contain",
            "is",
            "is-not",
            "is-empty",
            "is-not-empty",
            "greater-than",
            "less-than",
            "between"
        ]
    );
}

#[test]
fn a_row_is_asked_only_for_the_filtered_columns() {
    let mut filters = Filters::default();
    filters.set(7, Condition::IsNotEmpty);
    filters.set(2, condition(Operator::Is, "x", ""));
    let equal = (Collated::Equal, Collated::Equal);
    assert!(filters.admits(&["x", "something"], &[equal, equal]));
    assert!(!filters.admits(&["x", ""], &[equal, equal]));
    assert!(!filters.admits(&["y", "something"], &[(Collated::Greater, Collated::Greater), equal]));
}
