use lcs_editor::timeline::{find_gap, DragTarget, TimelineEditor};
use lcs_editor::{LrcDocument, LrcParser, TimeMs};

fn doc() -> LrcDocument {
    LrcParser::new("[00:01.00]A\n[00:03.00]B\n[00:05.00]\n").parse().unwrap()
}

const END: TimeMs = TimeMs(20_000);

#[test]
fn preview_of_a_body_drag() {
    let d = doc();
    let editor = TimelineEditor::new(&d);
    assert!(editor.drag_fits(END, &[0], DragTarget::Body, None, 500));
    let iv = editor.preview_intervals(END, &[0], DragTarget::Body, None, 500);
    let spans: Vec<_> = iv.iter().map(|i| (i.start, i.end, i.is_empty, i.raw_text.clone())).collect();
    assert_eq!(
        spans,
        vec![
            (TimeMs(1500), TimeMs(3500), false, "A".to_string()),
            (TimeMs(3500), TimeMs(5000), false, "B".to_string()),
            (TimeMs(5000), TimeMs(20_000), true, String::new()),
        ]
    );
}

#[test]
fn preview_of_a_playhead_drag_changes_nothing() {
    let d = doc();
    let editor = TimelineEditor::new(&d);
    let iv = editor.preview_intervals(END, &[0], DragTarget::Playhead, None, 500);
    let spans: Vec<_> = iv.iter().map(|i| (i.start, i.end)).collect();
    assert_eq!(
        spans,
        vec![(TimeMs(1000), TimeMs(3000)), (TimeMs(3000), TimeMs(5000)), (TimeMs(5000), TimeMs(20_000))]
    );
}

#[test]
fn shifting_writes_lrc() {
    let d = doc();
    let editor = TimelineEditor::new(&d);
    assert_eq!(editor.shift_selected(&[0], 500, END), "[00:01.50] A\n[00:03.50] B\n[00:05.00]\n");
    assert_eq!(
        editor.shift_selected(&[0], 10_000, END),
        "[00:03.00] B\n[00:05.00]\n[00:11.00] A\n[00:13.00]\n"
    );
    assert_eq!(
        editor.shift_selected(&[0], -2000, END),
        "[00:00.00] A\n[00:01.00]\n[00:03.00] B\n[00:05.00]\n"
    );
}

#[test]
fn shifting_boundaries_writes_lrc() {
    let d = doc();
    let editor = TimelineEditor::new(&d);
    assert_eq!(editor.shift_boundary(0, false, true, 500, END), "[00:01.00] A\n[00:03.50] B\n[00:05.00]\n");
    assert_eq!(editor.shift_boundary(1, true, false, -1000, END), "[00:01.00] A\n[00:02.00] B\n[00:05.00]\n");
    assert_eq!(editor.shift_boundary(0, false, false, -1000, END), "[00:01.00] A\n[00:02.00]\n[00:03.00] B\n[00:05.00]\n");
}

#[test]
fn adding_chunks() {
    let d = doc();
    let editor = TimelineEditor::new(&d);
    assert_eq!(
        editor.add_chunk(TimeMs(6000), TimeMs(8000), END),
        "[00:01.00] A\n[00:03.00] B\n[00:05.00]\n[00:06.00] Change me\n[00:08.00]\n"
    );
    assert_eq!(
        editor.add_chunk(TimeMs(2000), TimeMs(4000), END),
        "[00:01.00] A\n[00:02.00] Change me\n[00:04.00] B\n[00:05.00]\n"
    );
}

#[test]
fn metadata_is_kept_when_writing() {
    let d = LrcParser::new("[ti:Song]\n[00:01.00]A\n").parse().unwrap();
    let editor = TimelineEditor::new(&d);
    assert_eq!(editor.shift_selected(&[0], 1000, TimeMs(3000)), "[ti:Song]\n[00:02.00] A\n[00:04.00]\n");
}

#[test]
fn gaps_around_a_time() {
    let d = LrcParser::new("[00:01.00]A\n[00:03.00]\n[00:05.00]B\n").parse().unwrap();
    let end = TimeMs(10_000);
    assert_eq!(find_gap(Some(&d), TimeMs(500), end), Some((TimeMs(0), TimeMs(1000))));
    assert_eq!(find_gap(Some(&d), TimeMs(2000), end), None);
    assert_eq!(find_gap(Some(&d), TimeMs(3500), end), Some((TimeMs(3000), TimeMs(5000))));
    assert_eq!(find_gap(Some(&d), TimeMs(7000), end), None);
    assert_eq!(find_gap(Some(&d), TimeMs(12_000), end), None);
    assert_eq!(find_gap(None, TimeMs(7000), end), Some((TimeMs(0), end)));
    let empty = LrcParser::new("").parse().unwrap();
    assert_eq!(find_gap(Some(&empty), TimeMs(7000), end), Some((TimeMs(0), end)));
}

#[test]
fn resolved_intervals_are_ordered_and_clear_of_the_moved_one() {
    let d = doc();
    let editor = TimelineEditor::new(&d);
    let iv = editor.preview_intervals(END, &[1], DragTarget::Body, None, -1500);
    let spans: Vec<_> = iv.iter().map(|i| (i.start.as_u32(), i.end.as_u32(), i.uid)).collect();
    assert_eq!(spans, vec![(1000, 1500, 0), (1500, 3500, 1), (5000, 20_000, 2)]);
    for w in iv.windows(2) {
        assert!(w[0].start <= w[1].start);
    }
}
