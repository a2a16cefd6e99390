// What Comma starts outside itself, and with what.

use comma::document::Dialect;
use comma::window::place::{command_for, invocation, Tool};

/// Every program the tests ask about, installed.
fn everything() -> Vec<&'static str> {
    vec![
        "ptyxis",
        "kgx",
        "gnome-terminal",
        "x-terminal-emulator",
        "xterm",
        "someterm",
        "/usr/bin/gnome-terminal",
    ]
}

fn nothing() -> Vec<&'static str> {
    Vec::new()
}

fn only(installed: &'static str) -> Vec<&'static str> {
    vec![installed]
}

fn terminal(asked_for: Option<&str>, installed: &[&str]) -> Vec<String> {
    command_for("/tmp/here", asked_for, installed, &[])
        .expect("a terminal was installed for this test")
}

#[test]
fn the_first_terminal_installed_is_the_one_opened() {
    assert_eq!(terminal(None, &everything()), ["ptyxis", "-d", "/tmp/here"]);
    assert_eq!(
        terminal(None, &only("gnome-terminal")),
        ["gnome-terminal", "--working-directory", "/tmp/here"]
    );
}

#[test]
fn a_terminal_with_no_flag_for_it_is_started_in_the_folder_instead() {
    assert_eq!(terminal(None, &only("xterm")), ["xterm"]);
}

#[test]
fn nothing_installed_opens_nothing() {
    assert_eq!(command_for("/tmp/here", None, &nothing(), &[]), None);
}

#[test]
fn the_terminal_asked_for_is_the_one_started() {
    assert_eq!(terminal(Some("xterm"), &everything()), ["xterm"]);
    assert_eq!(
        terminal(Some("xterm"), &only("gnome-terminal")),
        ["gnome-terminal", "--working-directory", "/tmp/here"]
    );
}

#[test]
fn a_terminal_asked_for_by_name_still_gets_its_own_flag() {
    assert_eq!(
        terminal(Some("gnome-terminal"), &everything()),
        ["gnome-terminal", "--working-directory", "/tmp/here"]
    );
    assert_eq!(
        terminal(Some("/usr/bin/gnome-terminal"), &everything()),
        [
            "/usr/bin/gnome-terminal",
            "--working-directory",
            "/tmp/here"
        ]
    );
}

#[test]
fn a_terminal_nobody_knows_is_started_in_the_folder() {
    assert_eq!(terminal(Some("someterm"), &everything()), ["someterm"]);
}

#[test]
fn a_command_follows_whichever_flag_the_terminal_takes() {
    let command = vec!["xled".to_string(), "data.csv".to_string()];
    assert_eq!(
        command_for("/tmp/here", None, &only("gnome-terminal"), &command).unwrap(),
        [
            "gnome-terminal",
            "--working-directory",
            "/tmp/here",
            "--",
            "xled",
            "data.csv"
        ]
    );
    assert_eq!(
        command_for("/tmp/here", None, &only("xterm"), &command).unwrap(),
        ["xterm", "-e", "xled", "data.csv"]
    );
    assert_eq!(
        command_for("/tmp/here", Some("someterm"), &everything(), &command).unwrap(),
        ["someterm", "-e", "xled", "data.csv"]
    );
}

#[test]
fn a_tool_is_told_the_delimiter_comma_is_reading_with() {
    assert_eq!(
        invocation(Tool::Xled, Dialect::semicolon(), true, "/tmp/data.dsv"),
        ["xled", "-d", ";", "/tmp/data.dsv"]
    );
    assert_eq!(
        invocation(Tool::Xled, Dialect::tab(), true, "/tmp/data.tsv"),
        ["xled", "-d", "\\t", "/tmp/data.tsv"]
    );
}

#[test]
fn a_tool_is_told_whether_the_first_row_is_a_header() {
    assert_eq!(
        invocation(Tool::Xled, Dialect::comma(), false, "/tmp/data.csv"),
        ["xled", "-d", ",", "--no-header", "/tmp/data.csv"]
    );
}

#[test]
fn xql_is_told_which_backend_to_use() {
    assert_eq!(
        invocation(Tool::Xql, Dialect::pipe(), true, "/tmp/data.dsv"),
        ["xql", "csv", "-d", "|", "/tmp/data.dsv"]
    );
}

#[test]
fn nved_opens_in_the_view_that_matches_the_file() {
    assert_eq!(
        invocation(Tool::Nved, Dialect::comma(), true, "/tmp/data.csv"),
        ["nved", "+csv", "+headers on", "/tmp/data.csv"]
    );
    assert_eq!(
        invocation(Tool::Nved, Dialect::tab(), true, "/tmp/data.tsv"),
        ["nved", "+tsv", "+headers on", "/tmp/data.tsv"]
    );
    assert_eq!(
        invocation(Tool::Nved, Dialect::unit_separator(), true, "/tmp/data.asv"),
        ["nved", "+asv", "+headers on", "/tmp/data.asv"]
    );
}

#[test]
fn nved_is_told_the_quoting_when_it_is_given_a_bare_delimiter() {
    assert_eq!(
        invocation(Tool::Nved, Dialect::semicolon(), false, "/tmp/data.dsv"),
        [
            "nved",
            "+dsv ;",
            "+quotes on",
            "+headers off",
            "/tmp/data.dsv"
        ]
    );
}

#[test]
fn only_nved_is_offered_a_file_that_ends_its_records_with_a_separator() {
    assert!(Tool::Nved.reads(Dialect::unit_separator()));
    assert!(!Tool::Xled.reads(Dialect::unit_separator()));
    assert!(!Tool::Xql.reads(Dialect::unit_separator()));
    for tool in Tool::all() {
        assert!(tool.reads(Dialect::comma()));
    }
}

#[test]
fn an_empty_name_asked_for_is_no_answer() {
    assert_eq!(terminal(Some(""), &everything()), ["ptyxis", "-d", "/tmp/here"]);
}

#[test]
fn each_tool_has_its_program_and_action() {
    let names: Vec<(&str, &str)> =
        Tool::all().into_iter().map(|tool| (tool.program(), tool.action())).collect();
    assert_eq!(
        names,
        [
            ("xled", "open-with-xled"),
            ("xql", "open-with-xql"),
            ("nved", "open-with-nved")
        ]
    );
}

#[test]
fn a_terminal_is_known_by_its_path_or_its_name() {
    let entry = comma::window::place::entry_for("/usr/bin/kgx").expect("kgx is in the table");
    assert_eq!(entry.program, "kgx");
    assert_eq!(entry.folder, Some("--working-directory"));
    assert_eq!(comma::window::place::entry_for("/usr/bin/"), None);
    assert_eq!(comma::window::place::entry_for("xterm").map(|t| t.command), Some("-e"));
}
