// What the window decides: names, keys, presets, recent files and changes on disk.

use comma::document::Dialect;
use comma::window::cursor::{edit_keys, key_for, moves, step, Step};
use comma::window::files::{export_name, Format};
use comma::window::menus::{preset, preset_id, presets};
use comma::window::recent::{offered, Seen, MOST};
use comma::window::watch::{changed_underneath, react, Reaction};

#[test]
fn an_export_is_offered_under_the_file_name_with_the_new_extension() {
    assert_eq!(export_name("data.csv", Format::Html), "data.html");
    assert_eq!(export_name("archive.tar.gz", Format::Ods), "archive.tar.ods");
    assert_eq!(export_name("README", Format::Pdf), "README.pdf");
    assert_eq!(export_name(".hidden", Format::Html), ".html");
}

#[test]
fn each_format_has_its_action_label_and_extension() {
    let formats: Vec<(&str, &str, &str)> = Format::all()
        .into_iter()
        .map(|format| (format.action(), format.label(), format.extension()))
        .collect();
    assert_eq!(
        formats,
        [
            ("export-pdf", "As PDF…", "pdf"),
            ("export-html", "As Web Page…", "html"),
            ("export-ods", "As Spreadsheet…", "ods")
        ]
    );
}

#[test]
fn each_move_and_act_has_the_key_that_asks_for_it() {
    assert_eq!(key_for("next"), Some("Tab"));
    assert_eq!(key_for("start"), Some("<primary>Home"));
    assert_eq!(key_for("edit"), Some("Return"));
    assert_eq!(key_for("sideways"), None);
    assert_eq!(moves().len(), 10);
    assert_eq!(edit_keys(), ["Return", "KP_Enter", "F2"]);
}

#[test]
fn the_delimiter_presets_answer_to_their_names() {
    assert_eq!(preset("tab"), Some(Dialect::tab()));
    assert_eq!(preset("unit-separator"), Some(Dialect::unit_separator()));
    assert_eq!(preset("colon"), None);
    assert_eq!(preset_id(Dialect::pipe()), Some("pipe"));
    assert_eq!(preset_id(Dialect::new('#', '"').unwrap()), None);
    for (id, dialect) in presets() {
        assert_eq!(preset(id), Some(dialect));
        assert_eq!(preset_id(dialect), Some(id));
    }
}

fn entry(mime: &str, ours: bool, local: bool, exists: bool, modified: i64) -> Seen<'_> {
    Seen { mime, ours, local, exists, modified }
}

#[test]
fn the_recent_files_offered_are_readable_or_ours_and_newest_first() {
    let seen = [
        entry("text/csv", false, true, true, 100),
        entry("text/plain", false, true, true, 500),
        entry("text/plain", true, false, false, 300),
        entry("text/csv", false, true, false, 900),
        entry("text/tab-separated-values", false, true, true, 100),
    ];
    assert_eq!(offered(&seen), vec![2, 0, 4]);
}

#[test]
fn no_more_than_twenty_recent_files_are_offered() {
    let seen: Vec<Seen> = (0..25).map(|k| entry("text/csv", false, false, false, k)).collect();
    let expected: Vec<usize> = (5..25).rev().collect();
    assert_eq!(offered(&seen), expected);
    assert_eq!(MOST, 20);
}

#[test]
fn a_file_that_is_gone_or_written_elsewhere_is_reacted_to() {
    let ours = Some(("abc", 10));
    assert_eq!(react(None, ours, false, false), Reaction::Gone);
    assert_eq!(react(Some(("abc", 10)), ours, true, true), Reaction::Settled);
    assert_eq!(react(Some(("abd", 10)), ours, false, false), Reaction::Reload);
    assert_eq!(react(Some(("abc", 11)), ours, true, false), Reaction::Warn);
    assert_eq!(react(Some(("abc", 10)), None, false, true), Reaction::Warn);
    assert_eq!(react(Some(("abc", 10)), None, false, false), Reaction::Reload);
}

#[test]
fn save_asks_whether_the_file_was_written_to_since() {
    assert!(!changed_underneath(Some(("abc", 10)), Some(("abc", 10))));
    assert!(changed_underneath(Some(("abc", 10)), Some(("abc", 12))));
    assert!(changed_underneath(Some(("xyz", 10)), Some(("abc", 10))));
    assert!(!changed_underneath(None, Some(("abc", 10))));
    assert!(!changed_underneath(Some(("abc", 10)), None));
}

#[test]
fn the_keyboard_moves_within_the_table_and_tab_wraps_out_of_it() {
    assert_eq!(step("down", None, 5, 3), Step::Go(0, 0));
    assert_eq!(step("down", Some((2, 1)), 0, 3), Step::Stay);
    assert_eq!(step("up", Some((0, 1)), 5, 3), Step::Go(0, 1));
    assert_eq!(step("down", Some((4, 1)), 5, 3), Step::Go(4, 1));
    assert_eq!(step("down", Some((2, 1)), 5, 3), Step::Go(3, 1));
    assert_eq!(step("left", Some((2, 0)), 5, 3), Step::Go(2, 0));
    assert_eq!(step("right", Some((2, 2)), 5, 3), Step::Go(2, 2));
    assert_eq!(step("row-start", Some((2, 2)), 5, 3), Step::Go(2, 0));
    assert_eq!(step("row-end", Some((2, 0)), 5, 3), Step::Go(2, 2));
    assert_eq!(step("start", Some((2, 2)), 5, 3), Step::Go(0, 0));
    assert_eq!(step("end", Some((0, 0)), 5, 3), Step::Go(4, 2));
    assert_eq!(step("next", Some((2, 2)), 5, 3), Step::Go(3, 0));
    assert_eq!(step("next", Some((4, 2)), 5, 3), Step::Leave);
    assert_eq!(step("previous", Some((3, 0)), 5, 3), Step::Go(2, 2));
    assert_eq!(step("previous", Some((0, 0)), 5, 3), Step::Leave);
    assert_eq!(step("sideways", Some((1, 1)), 5, 3), Step::Stay);
    assert_eq!(step("down", Some((9, 7)), 5, 3), Step::Go(4, 7));
}
