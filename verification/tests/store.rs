use bookmarks::lines::{parse_store, render_store};
use bookmarks::store::{append_content, delete_from_content, StoreError};

#[test]
fn test_new_item() {
    let updated = append_content("Test item 1\nTest item 2", "Test item 3");
    assert_eq!(updated, "Test item 1\nTest item 2\nTest item 3\n");
}

#[test]
fn test_delete_item() {
    let updated = delete_from_content("Test item 1\nTest item 2\nTest item 3\n", 2);
    assert_eq!(updated, Ok(String::from("Test item 1\nTest item 3\n")));
}

#[test]
fn test_append_then_load() {
    let old_entries = parse_store("alpha\nbeta\n");
    let updated = append_content("alpha\nbeta\n", "gamma");
    let new_entries = parse_store(&updated);
    assert_eq!(new_entries.len(), old_entries.len() + 1);
    assert_eq!(new_entries[0], "alpha");
    assert_eq!(new_entries[1], "beta");
    assert_eq!(new_entries[2], "gamma");
}

#[test]
fn test_append_to_empty() {
    assert_eq!(append_content("", "first"), "first\n");
}

#[test]
fn test_append_empty_entry() {
    assert_eq!(append_content("alpha\n", ""), "alpha\n\n");
}

#[test]
fn test_delete_shifts_later_entries() {
    let updated = delete_from_content("one\ntwo\nthree\n", 1).unwrap();
    let entries = parse_store(&updated);
    assert_eq!(entries, vec![String::from("two"), String::from("three")]);
}

#[test]
fn test_delete_out_of_range() {
    assert_eq!(delete_from_content("one\ntwo\nthree\n", 0), Err(StoreError::IndexOutOfRange));
    assert_eq!(delete_from_content("one\ntwo\nthree\n", 4), Err(StoreError::IndexOutOfRange));
    assert_eq!(delete_from_content("", 1), Err(StoreError::IndexOutOfRange));
}

#[test]
fn test_delete_last_entry() {
    assert_eq!(delete_from_content("only\n", 1), Ok(String::new()));
}

#[test]
fn test_round_trip_terminated() {
    let content = "alpha\nbeta\ngamma\n";
    assert_eq!(render_store(&parse_store(content)), content);
}

#[test]
fn test_round_trip_normalizes_final_line() {
    assert_eq!(render_store(&parse_store("alpha\nbeta")), "alpha\nbeta\n");
}

#[test]
fn test_round_trip_empty() {
    assert_eq!(render_store(&parse_store("")), "");
}

#[test]
fn test_empty_lines_kept() {
    let entries = parse_store("a\n\nb\n");
    assert_eq!(entries, vec![String::from("a"), String::new(), String::from("b")]);
    assert_eq!(render_store(&entries), "a\n\nb\n");
}

#[test]
fn test_parse_without_final_break() {
    assert_eq!(parse_store("a\nb"), vec![String::from("a"), String::from("b")]);
}
