use clipboard_history::codec::StoreError;
use clipboard_history::history::History;

fn record(timestamp: i64, is_password: bool, content: &str) -> Vec<u8> {
    let mut out = Vec::new();
    out.extend_from_slice(&timestamp.to_le_bytes());
    out.push(if is_password { 1 } else { 0 });
    out.extend_from_slice(&(content.len() as u32).to_le_bytes());
    out.extend_from_slice(content.as_bytes());
    out
}

fn image(records: &[Vec<u8>]) -> Vec<u8> {
    let mut out = vec![0x43, 0x48, 0x53, 0x54, 0x01];
    for r in records {
        out.extend_from_slice(r);
    }
    out
}

#[test]
fn save_then_load_round_trips_exactly() {
    let mut history = History::load(10, None).unwrap();
    history.add_text("plain text", false);
    history.add_text("S3cr3t!!", true);
    history.add_text("caf\u{e9} \u{65e5}\u{672c}\u{8a9e}", false);
    let bytes = history.save_bytes().unwrap();
    let reloaded = History::load(10, Some(&bytes)).unwrap();
    let before: Vec<(i64, String, bool)> = history
        .items()
        .iter()
        .map(|e| (e.timestamp, e.content.clone(), e.is_password))
        .collect();
    let after: Vec<(i64, String, bool)> = reloaded
        .items()
        .iter()
        .map(|e| (e.timestamp, e.content.clone(), e.is_password))
        .collect();
    assert_eq!(before, after);
}

#[test]
fn clear_then_load_is_empty() {
    let mut history = History::load(10, None).unwrap();
    history.add_text("something", false);
    history.clear();
    let bytes = history.save_bytes().unwrap();
    let reloaded = History::load(10, Some(&bytes)).unwrap();
    assert_eq!(reloaded.items().len(), 0);
}

#[test]
fn missing_file_loads_empty() {
    let history = History::load(10, None).unwrap();
    assert_eq!(history.items().len(), 0);
}

#[test]
fn wrong_magic_loads_empty() {
    let mut bytes = image(&[record(7, false, "entry")]);
    bytes[0] = 0x58;
    let history = History::load(10, Some(&bytes)).unwrap();
    assert_eq!(history.items().len(), 0);
}

#[test]
fn wrong_version_loads_empty() {
    let mut bytes = image(&[record(7, false, "entry")]);
    bytes[4] = 0x02;
    let history = History::load(10, Some(&bytes)).unwrap();
    assert_eq!(history.items().len(), 0);
}

#[test]
fn short_header_loads_empty() {
    let history = History::load(10, Some(&[0x43, 0x48])).unwrap();
    assert_eq!(history.items().len(), 0);
}

#[test]
fn truncated_record_is_an_error() {
    let mut bytes = image(&[record(7, false, "entry")]);
    bytes.truncate(bytes.len() - 2);
    let err = match History::load(10, Some(&bytes)) {
        Ok(_) => panic!("expected a truncation error"),
        Err(err) => err,
    };
    assert!(matches!(err, StoreError::TruncatedRecord));
    assert_eq!(
        err.describe(),
        "history file ends in the middle of a record"
    );
}

#[test]
fn loaded_entries_keep_fields_and_order() {
    let bytes = image(&[record(11, true, "newest"), record(-5, false, "older")]);
    let history = History::load(10, Some(&bytes)).unwrap();
    assert_eq!(history.items().len(), 2);
    assert_eq!(history.items()[0].timestamp, 11);
    assert_eq!(history.items()[0].content, "newest");
    assert!(history.items()[0].is_password);
    assert_eq!(history.items()[1].timestamp, -5);
    assert_eq!(history.items()[1].content, "older");
    assert!(!history.items()[1].is_password);
}

#[test]
fn nonzero_flag_byte_reads_as_sensitive() {
    let mut bytes = image(&[record(1, false, "x")]);
    bytes[13] = 0x7f;
    let history = History::load(10, Some(&bytes)).unwrap();
    assert!(history.items()[0].is_password);
}

#[test]
fn invalid_utf8_content_is_repaired_not_rejected() {
    let mut rec = Vec::new();
    rec.extend_from_slice(&3i64.to_le_bytes());
    rec.push(0);
    rec.extend_from_slice(&4u32.to_le_bytes());
    rec.extend_from_slice(&[0x61, 0xff, 0xfe, 0x62]);
    let bytes = image(&[rec]);
    let history = History::load(10, Some(&bytes)).unwrap();
    assert_eq!(history.items().len(), 1);
    assert_eq!(history.items()[0].content, "a\u{fffd}\u{fffd}b");
}

#[test]
fn load_truncates_to_the_new_bound() {
    let bytes = image(&[
        record(3, false, "three"),
        record(2, false, "two"),
        record(1, false, "one"),
    ]);
    let history = History::load(2, Some(&bytes)).unwrap();
    let contents: Vec<&str> = history.items().iter().map(|e| e.content.as_str()).collect();
    assert_eq!(contents, vec!["three", "two"]);
}
