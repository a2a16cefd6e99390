// Finding and replacing text, with case folded on both sides.

use comma::search::{contains, equals, replace};

#[test]
fn a_match_ignores_case_on_both_sides() {
    assert!(contains("Ada Lovelace", "lovelace"));
    assert!(contains("ADA", "ada"));
    assert!(contains("ada", "ADA"));
    assert!(!contains("Ada", "grace"));
}

#[test]
fn the_whole_value_matches_in_whichever_case_it_is_written() {
    assert!(equals("Active", "active"));
    assert!(equals("STRASSE", "strasse"));
    assert!(!equals("active", "inactive"));
    assert!(!equals("act", "active"));
    assert!(equals("", ""));
}

#[test]
fn folding_case_can_leave_two_values_the_same_length_or_not() {
    assert!(equals("İ", "i\u{307}"));
}

#[test]
fn nothing_matches_an_empty_needle() {
    assert!(!contains("Ada", ""));
    assert_eq!(replace("Ada", "", "x"), None);
}

#[test]
fn a_value_nothing_matched_is_left_alone() {
    assert_eq!(replace("Ada", "grace", "Grace"), None);
}

#[test]
fn every_occurrence_goes() {
    assert_eq!(
        replace("a and A and a", "a", "x"),
        Some("x xnd x xnd x".to_string())
    );
}

#[test]
fn replacing_keeps_what_it_did_not_match() {
    assert_eq!(
        replace("Lovelace, Ada", "ada", "Augusta"),
        Some("Lovelace, Augusta".to_string())
    );
}

#[test]
fn folding_case_can_change_how_many_bytes_a_character_takes() {
    assert_eq!(replace("Xİ!", "i̇", "y"), Some("Xy!".to_string()));
}

#[test]
fn german_text_matches_whichever_case_it_is_written_in() {
    assert!(contains("Ärger", "ärger"));
    assert_eq!(replace("Straße", "stra", "Gas"), Some("Gasße".to_string()));
}
