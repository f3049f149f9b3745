use lcs_editor::selection::click_mode;
use lcs_editor::{LrcDocument, LrcParser, SelectionMode, SelectionState};

fn doc() -> LrcDocument {
    LrcParser::new("[00:01.00]A\n[00:02.00]\n[00:03.00]C\n[00:04.00]D").parse().unwrap()
}

#[test]
fn replace_selects_one_and_sets_the_anchor() {
    let d = doc();
    let mut s = SelectionState::default();
    s.select_entry(&d, 2, SelectionMode::Replace);
    assert_eq!(s.selected_ids(), &[2]);
    assert_eq!(s.anchor_id(), Some(2));
    s.select_entry(&d, 1, SelectionMode::Replace);
    assert!(s.selected_ids().is_empty());
    assert_eq!(s.anchor_id(), Some(1));
}

#[test]
fn toggle_keeps_ids_sorted_and_toggling_twice_restores() {
    let d = doc();
    let mut s = SelectionState::default();
    s.select_entry(&d, 3, SelectionMode::Toggle);
    s.select_entry(&d, 0, SelectionMode::Toggle);
    assert_eq!(s.selected_ids(), &[0, 3]);
    let before = s.clone();
    s.select_entry(&d, 2, SelectionMode::Toggle);
    assert_eq!(s.selected_ids(), &[0, 2, 3]);
    s.select_entry(&d, 2, SelectionMode::Toggle);
    assert_eq!(s.selected_ids(), before.selected_ids());
    assert_eq!(s.anchor_id(), Some(2));
    // An empty lyric cannot be toggled on.
    s.select_entry(&d, 1, SelectionMode::Toggle);
    assert_eq!(s.selected_ids(), &[0, 3]);
}

#[test]
fn range_spans_from_the_anchor() {
    let d = doc();
    let mut s = SelectionState::default();
    s.select_entry(&d, 3, SelectionMode::Range);
    assert_eq!(s.selected_ids(), &[3]);
    assert_eq!(s.anchor_id(), None);
    s.select_entry(&d, 3, SelectionMode::Replace);
    s.select_entry(&d, 0, SelectionMode::Range);
    assert_eq!(s.selected_ids(), &[0, 2, 3]);
    assert_eq!(s.anchor_id(), Some(3));
}

#[test]
fn unknown_ids_are_ignored() {
    let d = doc();
    let mut s = SelectionState::default();
    s.select_entry(&d, 0, SelectionMode::Replace);
    s.select_entry(&d, 40, SelectionMode::Toggle);
    assert_eq!(s.selected_ids(), &[0]);
}

#[test]
fn select_all_skips_empty_lyrics() {
    let d = doc();
    let mut s = SelectionState::default();
    s.select_all(&d);
    assert_eq!(s.selected_ids(), &[0, 2, 3]);
    assert_eq!(s.anchor_id(), Some(0));
    assert!(s.contains(2));
    assert!(!s.contains(1));
    assert!(s.suppresses_source_selection());
}

#[test]
fn prune_drops_missing_ids() {
    let mut s = SelectionState::default();
    s.select_all(&doc());
    s.select_entry(&doc(), 3, SelectionMode::Toggle);
    s.select_entry(&doc(), 3, SelectionMode::Toggle);
    let small = LrcParser::new("[00:01.00]A\n[00:02.00]B").parse().unwrap();
    s.prune(&small);
    assert_eq!(s.selected_ids(), &[0]);
    assert_eq!(s.anchor_id(), None);
}

#[test]
fn sync_follows_the_active_lyric() {
    let d = doc();
    let mut s = SelectionState::default();
    s.sync_to_active(d.entry_by_id(2), false);
    assert_eq!(s.selected_ids(), &[2]);
    assert_eq!(s.anchor_id(), Some(2));
    s.sync_to_active(d.entry_by_id(0), true);
    assert_eq!(s.selected_ids(), &[2]);
    s.sync_to_active(d.entry_by_id(1), false);
    assert!(s.selected_ids().is_empty());
    assert_eq!(s.anchor_id(), Some(2));
    s.sync_to_active(None, false);
    assert!(s.selected_ids().is_empty());
    assert!(!s.suppresses_source_selection());
}

#[test]
fn click_modes() {
    assert_eq!(click_mode(false, false, false), Some(SelectionMode::Replace));
    assert_eq!(click_mode(true, false, false), None);
    assert_eq!(click_mode(true, true, false), Some(SelectionMode::Range));
    assert_eq!(click_mode(true, true, true), Some(SelectionMode::Range));
    assert_eq!(click_mode(true, false, true), Some(SelectionMode::Toggle));
}

#[test]
fn toggling_a_selected_entry_twice_restores() {
    let d = doc();
    let mut s = SelectionState::default();
    s.select_all(&d);
    assert_eq!(s.selected_ids(), &[0, 2, 3]);
    s.select_entry(&d, 2, SelectionMode::Toggle);
    assert_eq!(s.selected_ids(), &[0, 3]);
    assert!(!s.contains(2));
    assert_eq!(s.anchor_id(), Some(2));
    s.select_entry(&d, 2, SelectionMode::Toggle);
    assert_eq!(s.selected_ids(), &[0, 2, 3]);
}
