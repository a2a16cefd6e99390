// Spreadsheet column names.

use comma::grid::letters::column_letter;

#[test]
fn the_first_twenty_six_columns_are_single_letters() {
    assert_eq!(column_letter(0), "A");
    assert_eq!(column_letter(1), "B");
    assert_eq!(column_letter(25), "Z");
}

#[test]
fn the_twenty_seventh_column_carries() {
    assert_eq!(column_letter(26), "AA");
    assert_eq!(column_letter(27), "AB");
    assert_eq!(column_letter(51), "AZ");
    assert_eq!(column_letter(52), "BA");
}

#[test]
fn the_names_match_a_spreadsheet_at_the_awkward_places() {
    assert_eq!(column_letter(701), "ZZ");
    assert_eq!(column_letter(702), "AAA");
    assert_eq!(column_letter(16383), "XFD");
}

#[test]
fn no_two_of_the_first_columns_share_a_name() {
    let names: Vec<String> = (0..2000).map(column_letter).collect();
    let mut sorted = names.clone();
    sorted.sort();
    sorted.dedup();
    assert_eq!(sorted.len(), names.len());
}

#[test]
fn column_names_count_on_in_order() {
    let names: Vec<String> = (0..800).map(column_letter).collect();
    assert_eq!(names[25], "Z");
    assert_eq!(names[26], "AA");
    assert_eq!(names[51], "AZ");
    assert_eq!(names[52], "BA");
    assert_eq!(names[701], "ZZ");
    assert_eq!(names[702], "AAA");
    for pair in names.windows(2) {
        let (a, b) = (&pair[0], &pair[1]);
        assert!(a.len() < b.len() || (a.len() == b.len() && a < b));
        assert!(b.chars().all(|c| c.is_ascii_uppercase()));
    }
}
