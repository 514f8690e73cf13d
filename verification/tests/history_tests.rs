use clipboard_history::history::{Entry, History};

#[test]
fn adds_entries_and_limits_size() {
    let mut history = History::load(2, None).unwrap();
    history.clear();
    history.add_text("first", false);
    history.add_text("second", false);
    history.add_text("third", false);

    assert_eq!(history.items().len(), 2);
    assert_eq!(history.items()[0].content, "third");
    assert_eq!(history.items()[1].content, "second");
}

#[test]
fn deduplicates_existing_text() {
    let mut history = History::load(10, None).unwrap();
    history.clear();
    history.add_text("hello", false);
    history.add_text("world", false);
    history.add_text("hello", false);

    assert_eq!(history.items().len(), 2);
    assert_eq!(history.items()[0].content, "hello");
}

#[test]
fn history_adds_items() {
    let mut history = History::load(5, None).unwrap();
    history.clear();
    assert!(history.add_text("hello", false));
    assert_eq!(history.items().len(), 1);
}

#[test]
fn distinct_adds_keep_order_newest_first() {
    let mut history = History::load(10, None).unwrap();
    history.add_text("one", false);
    history.add_text("two", false);
    history.add_text("three", false);
    let contents: Vec<&str> = history.items().iter().map(|e| e.content.as_str()).collect();
    assert_eq!(contents, vec!["three", "two", "one"]);
}

#[test]
fn blank_text_is_rejected_and_changes_nothing() {
    let mut history = History::load(10, None).unwrap();
    history.add_text("kept", false);
    assert!(!history.add_text("", false));
    assert!(!history.add_text("   \t\n  ", false));
    assert_eq!(history.items().len(), 1);
    assert_eq!(history.items()[0].content, "kept");
}

#[test]
fn added_text_is_trimmed() {
    let mut history = History::load(10, None).unwrap();
    assert!(history.add_text("  padded value \n", false));
    assert_eq!(history.items()[0].content, "padded value");
}

#[test]
fn readding_moves_to_front_without_growth() {
    let mut history = History::load(10, None).unwrap();
    history.add_text("hello", false);
    history.add_text("world", false);
    history.add_text("hello", false);
    let contents: Vec<&str> = history.items().iter().map(|e| e.content.as_str()).collect();
    assert_eq!(contents, vec!["hello", "world"]);
}

#[test]
fn overflow_evicts_the_oldest() {
    let mut history = History::load(3, None).unwrap();
    history.add_text("a1", false);
    history.add_text("b2", false);
    history.add_text("c3", false);
    history.add_text("d4", false);
    let contents: Vec<&str> = history.items().iter().map(|e| e.content.as_str()).collect();
    assert_eq!(contents, vec!["d4", "c3", "b2"]);
}

#[test]
fn preview_masks_sensitive_entries() {
    let entry = Entry::new(String::from("hunter2hunter2"), true);
    assert_eq!(entry.preview(true), "\u{2022}\u{2022}\u{2022}\u{2022}\u{2022}\u{2022}\u{2022}\u{2022}");
    assert_eq!(entry.preview(true).chars().count(), 8);
}

#[test]
fn preview_unmasked_shows_content() {
    let entry = Entry::new(String::from("hunter2hunter2"), true);
    assert_eq!(entry.preview(false), "hunter2hunter2");
}

#[test]
fn preview_takes_first_line_only() {
    let entry = Entry::new(String::from("first line\nsecond line\nthird"), false);
    assert_eq!(entry.preview(true), "first line");
    let crlf = Entry::new(String::from("head\r\ntail"), false);
    assert_eq!(crlf.preview(true), "head");
}

#[test]
fn preview_caps_at_one_hundred_characters() {
    let long: String = "x".repeat(250);
    let entry = Entry::new(long, false);
    let preview = entry.preview(true);
    assert_eq!(preview.chars().count(), 100);
    assert_eq!(preview, "x".repeat(100));
}

#[test]
fn preview_of_empty_content_is_empty() {
    let entry = Entry::new(String::new(), false);
    assert_eq!(entry.preview(true), "");
}
