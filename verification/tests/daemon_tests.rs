use clipboard_history::daemon::observe_clipboard;
use clipboard_history::history::History;

#[test]
fn empty_clipboard_changes_nothing() {
    let mut history = History::load(10, None).unwrap();
    let (snapshot, changed) = observe_clipboard(&mut history, Some("old".to_string()), None);
    assert_eq!(snapshot.as_deref(), Some("old"));
    assert!(!changed);
    assert_eq!(history.items().len(), 0);
}

#[test]
fn repeated_text_is_not_rerecorded() {
    let mut history = History::load(10, None).unwrap();
    let (snapshot, changed) = observe_clipboard(
        &mut history,
        Some("same".to_string()),
        Some("same".to_string()),
    );
    assert_eq!(snapshot.as_deref(), Some("same"));
    assert!(!changed);
    assert_eq!(history.items().len(), 0);
}

#[test]
fn new_text_is_recorded_and_tracked() {
    let mut history = History::load(10, None).unwrap();
    let (snapshot, changed) = observe_clipboard(
        &mut history,
        Some("before".to_string()),
        Some("P@ssw0rd!".to_string()),
    );
    assert_eq!(snapshot.as_deref(), Some("P@ssw0rd!"));
    assert!(changed);
    assert_eq!(history.items().len(), 1);
    assert_eq!(history.items()[0].content, "P@ssw0rd!");
    assert!(history.items()[0].is_password);
}

#[test]
fn first_read_is_recorded() {
    let mut history = History::load(10, None).unwrap();
    let (snapshot, changed) = observe_clipboard(&mut history, None, Some("hello".to_string()));
    assert_eq!(snapshot.as_deref(), Some("hello"));
    assert!(changed);
    assert!(!history.items()[0].is_password);
}

#[test]
fn blank_text_leaves_tracking_unchanged() {
    let mut history = History::load(10, None).unwrap();
    let (snapshot, changed) = observe_clipboard(
        &mut history,
        Some("kept".to_string()),
        Some("   ".to_string()),
    );
    assert_eq!(snapshot.as_deref(), Some("kept"));
    assert!(!changed);
    assert_eq!(history.items().len(), 0);
}
