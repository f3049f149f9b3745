use lcs_editor::{LrcDocument, LrcParser, TimeMs};

fn doc() -> LrcDocument {
    LrcParser::new("[ti:Song]\n[00:01.00]Hello\n[00:03.50]World\n[00:05.00]\n").parse().unwrap()
}

#[test]
fn counts_and_last_time() {
    let d = doc();
    assert_eq!(d.entries().len(), 3);
    assert_eq!(d.metadata().len(), 1);
    assert_eq!(d.line_count(), 5);
    assert_eq!(d.last_entry_time_ms(), Some(TimeMs(5000)));
    let empty = LrcParser::new("[ti:x]").parse().unwrap();
    assert_eq!(empty.last_entry_time_ms(), None);
}

#[test]
fn latest_timestamp_wins() {
    let d = doc();
    assert!(d.current_entry(TimeMs(0)).is_none());
    assert!(d.current_entry(TimeMs(999)).is_none());
    assert_eq!(d.current_entry(TimeMs(1000)).map(|e| e.id()), Some(0));
    assert_eq!(d.current_entry(TimeMs(3499)).map(|e| e.id()), Some(0));
    assert_eq!(d.current_entry(TimeMs(3500)).map(|e| e.id()), Some(1));
    assert_eq!(d.current_entry(TimeMs(99_999)).map(|e| e.id()), Some(2));
}

#[test]
fn neighbours_and_lookup() {
    let d = doc();
    assert_eq!(d.entry_by_id(1).map(|e| e.text()), Some("World"));
    assert!(d.entry_by_id(3).is_none());
    assert_eq!(d.previous_entry_id(1), Some(0));
    assert_eq!(d.previous_entry_id(0), None);
    assert_eq!(d.next_entry_id(1), Some(2));
    assert_eq!(d.next_entry_id(2), None);
    assert_eq!(d.next_entry_id(7), None);
}

#[test]
fn chunks_run_to_the_next_entry() {
    let chunks = doc().timeline_chunks(TimeMs(10_000));
    let spans: Vec<_> = chunks.iter().map(|c| (c.start_ms(), c.end_ms(), c.is_empty())).collect();
    assert_eq!(
        spans,
        vec![
            (TimeMs(1000), TimeMs(3500), false),
            (TimeMs(3500), TimeMs(5000), false),
            (TimeMs(5000), TimeMs(10_000), true),
        ]
    );
    assert_eq!(chunks[0].text(), "Hello");
    assert_eq!(chunks[1].entry_id(), 1);
    assert_eq!(chunks[2].raw_text(), "");
}

#[test]
fn source_text_is_regenerated() {
    assert_eq!(doc().to_source_text(), "[ti:Song]\n[00:01.00]Hello\n[00:03.50]World\n[00:05.00]\n");
    let d = LrcParser::new("[00:02.005][00:01.00] a b ").parse().unwrap();
    assert_eq!(d.to_source_text(), "[00:01.00] a b \n[00:02.00] a b \n");
}
