use bookmarks::numbers::{fmt_usize, parse_usize};
use bookmarks::session::{
    apply_delete, dispatch, parse_command, parse_delete_index, render_listing, trim, Action,
    Command,
};
use bookmarks::store::StoreError;

fn three_entries() -> Vec<String> {
    vec![
        String::from("Test item 1"),
        String::from("Test item 2"),
        String::from("Test item 3"),
    ]
}

#[test]
fn test_selection_copy() {
    let entries = three_entries();
    match dispatch(&entries, "2\n") {
        Action::CopyEntry(text) => assert_eq!(text, "Test item 2"),
        other => panic!("expected a copy action, got {:?}", other),
    }
}

#[test]
fn test_invalid_command() {
    let entries = three_entries();
    match dispatch(&entries, "z\n") {
        Action::Reject(e) => assert_eq!(e, StoreError::InvalidOption),
        other => panic!("expected a rejection, got {:?}", other),
    }
}

#[test]
fn test_selection_out_of_range() {
    let entries = three_entries();
    assert!(matches!(dispatch(&entries, "4\n"), Action::Reject(StoreError::IndexOutOfRange)));
    assert!(matches!(dispatch(&entries, "0\n"), Action::Reject(StoreError::IndexOutOfRange)));
}

#[test]
fn test_letter_commands() {
    let entries = three_entries();
    assert!(matches!(dispatch(&entries, "a\n"), Action::CaptureClipboard));
    assert!(matches!(dispatch(&entries, "A"), Action::CaptureClipboard));
    assert!(matches!(dispatch(&entries, "d\n"), Action::PromptDelete));
    assert!(matches!(dispatch(&entries, "D"), Action::PromptDelete));
    assert!(matches!(dispatch(&entries, "q\n"), Action::Finish));
    assert!(matches!(dispatch(&entries, "Q"), Action::Finish));
}

#[test]
fn test_empty_input_invalid() {
    let entries = three_entries();
    assert!(matches!(dispatch(&entries, ""), Action::Reject(StoreError::InvalidOption)));
    assert!(matches!(dispatch(&entries, " \n"), Action::Reject(StoreError::InvalidOption)));
}

#[test]
fn test_oversized_selection_invalid() {
    let entries = three_entries();
    assert!(matches!(
        dispatch(&entries, "99999999999999999999999999\n"),
        Action::Reject(StoreError::InvalidOption)
    ));
}

#[test]
fn test_parse_command() {
    assert_eq!(parse_command("2\n"), Command::Select(2));
    assert_eq!(parse_command(" 17 "), Command::Select(17));
    assert_eq!(parse_command("a"), Command::Add);
    assert_eq!(parse_command("D\n"), Command::Delete);
    assert_eq!(parse_command("q"), Command::Quit);
    assert_eq!(parse_command("aa"), Command::Invalid);
    assert_eq!(parse_command("2x"), Command::Invalid);
}

#[test]
fn test_parse_usize() {
    assert_eq!(parse_usize("42"), Some(42));
    assert_eq!(parse_usize("007"), Some(7));
    assert_eq!(parse_usize("0"), Some(0));
    assert_eq!(parse_usize(""), None);
    assert_eq!(parse_usize("4x2"), None);
    assert_eq!(parse_usize("-3"), None);
    assert_eq!(parse_usize("99999999999999999999999999"), None);
}

#[test]
fn test_fmt_usize() {
    assert_eq!(fmt_usize(0), "0");
    assert_eq!(fmt_usize(7), "7");
    assert_eq!(fmt_usize(10), "10");
    assert_eq!(fmt_usize(123), "123");
    assert_eq!(fmt_usize(1000), "1000");
}

#[test]
fn test_trim() {
    assert_eq!(trim("  a\t\r\n"), "a");
    assert_eq!(trim("word"), "word");
    assert_eq!(trim(" \n "), "");
    assert_eq!(trim(""), "");
    assert_eq!(trim("a b"), "a b");
}

#[test]
fn test_parse_delete_index() {
    assert_eq!(parse_delete_index("2\n"), Some(2));
    assert_eq!(parse_delete_index("nonsense\n"), None);
    assert_eq!(parse_delete_index("\n"), None);
}

#[test]
fn test_apply_delete() {
    assert_eq!(apply_delete("a\nb\n", "x\n"), Ok(None));
    assert_eq!(apply_delete("a\nb\n", "2\n"), Ok(Some(String::from("a\n"))));
    assert_eq!(apply_delete("a\nb\n", "3\n"), Err(StoreError::IndexOutOfRange));
    assert_eq!(apply_delete("a\nb\n", "0\n"), Err(StoreError::IndexOutOfRange));
}

#[test]
fn test_render_listing() {
    let entries = vec![String::from("alpha"), String::from("beta")];
    assert_eq!(render_listing(&entries), "1 - alpha\n2 - beta\n");
}

#[test]
fn test_render_listing_two_digit_numbers() {
    let mut entries = Vec::new();
    let mut expected = String::new();
    for i in 1..=12 {
        entries.push(format!("entry {}", i));
        expected.push_str(&format!("{} - entry {}\n", i, i));
    }
    assert_eq!(render_listing(&entries), expected);
}

#[test]
fn test_render_listing_empty() {
    assert_eq!(render_listing(&Vec::new()), "");
}
