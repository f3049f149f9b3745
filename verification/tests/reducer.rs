use lcs_editor::state::{AppAction, AppState};
use lcs_editor::{SelectionMode, TimeMs};

fn mock_state() -> AppState {
    AppState::default()
}

fn reduced(mut state: AppState, action: AppAction) -> AppState {
    state.reduce(action);
    state
}

fn source(text: &str) -> AppAction {
    AppAction::UpdateSource(text.to_string())
}

#[test]
fn actions_test_reduce_update_source() {
    let state = mock_state();
    let new_state = reduced(state, source("[00:01.00]Test"));
    assert_eq!(new_state.document.source_text, "[00:01.00]Test");
    assert!(new_state.document.document.is_some());
    assert!(new_state.document.parse_error.is_none());
}

#[test]
fn reducer_test_reduce_update_source() {
    let state = mock_state();
    let new_state = reduced(state, source("[00:01.00]Test"));
    assert_eq!(new_state.document.source_text, "[00:01.00]Test");
    assert!(new_state.document.document.is_some());
    assert!(new_state.document.parse_error.is_none());
}

#[test]
fn actions_test_reduce_seek() {
    let state = mock_state();
    let new_state = reduced(state, AppAction::Seek(TimeMs(1000)));
    assert_eq!(new_state.playback.current_time_ms, TimeMs(1000));
    assert_eq!(new_state.playback.last_seek_request, Some(TimeMs(1000)));
}

#[test]
fn reducer_test_reduce_seek() {
    let state = mock_state();
    let new_state = reduced(state, AppAction::Seek(TimeMs(1000)));
    assert_eq!(new_state.playback.current_time_ms, TimeMs(1000));
    assert_eq!(new_state.playback.last_seek_request, Some(TimeMs(1000)));
}

#[test]
fn actions_test_duration_clamping() {
    let state = mock_state();
    // Default duration is 0, so max_timeline_duration is 15000ms (overscroll)

    let seek_far = reduced(state.clone(), AppAction::Seek(TimeMs(25000)));
    assert_eq!(seek_far.playback.current_time_ms, TimeMs(15000));

    let set_dur = reduced(state.clone(), AppAction::SetDuration(TimeMs(5000)));
    // max_timeline_duration becomes 20000ms
    let seek_edge = reduced(set_dur, AppAction::Seek(TimeMs(20000)));
    assert_eq!(seek_edge.playback.current_time_ms, TimeMs(20000));
}

#[test]
fn reducer_test_duration_clamping() {
    let state = mock_state();
    let seek_far = reduced(state.clone(), AppAction::Seek(TimeMs(25000)));
    assert_eq!(seek_far.playback.current_time_ms, TimeMs(15000));

    let set_dur = reduced(state.clone(), AppAction::SetDuration(TimeMs(5000)));
    let seek_edge = reduced(set_dur, AppAction::Seek(TimeMs(20000)));
    assert_eq!(seek_edge.playback.current_time_ms, TimeMs(20000));
}

#[test]
fn default_state_is_empty() {
    let state = mock_state();
    assert_eq!(state.playback.current_time_ms, TimeMs(0));
    assert_eq!(state.playback.duration_ms, TimeMs(0));
    assert!(!state.playback.playing);
    assert_eq!(state.playback.last_seek_request, None);
    assert_eq!(state.document.source_text, "");
    assert!(state.document.document.is_none());
    assert_eq!(state.document.next_uid, 1);
    assert_eq!(state.history.history, vec![String::new()]);
    assert_eq!(state.history.history_index, 0);
    assert!(state.view.selection.selected_ids().is_empty());
    assert_eq!(state.project.audio_filename, None);
}

#[test]
fn invalid_source_keeps_last_document() {
    let state = reduced(mock_state(), source("[00:01.00]A"));
    let state = reduced(state, source("hello"));
    assert_eq!(state.document.source_text, "hello");
    assert_eq!(
        state.document.parse_error.as_deref(),
        Some("Line 1: non-empty LRC lines must start with a timestamp or metadata tag")
    );
    let doc = state.document.document.as_ref().unwrap();
    assert_eq!(doc.entries().len(), 1);
    assert_eq!(doc.entries()[0].text(), "A");
    // Fixing the text clears the error.
    let state = reduced(state, source("[00:02.00]B"));
    assert!(state.document.parse_error.is_none());
    assert_eq!(state.document.document.as_ref().unwrap().entries()[0].text(), "B");
}

#[test]
fn undo_and_redo_walk_the_history() {
    let state = reduced(mock_state(), source("[00:01.00]A"));
    let state = reduced(state, AppAction::SaveHistory("[00:01.00]A".to_string()));
    assert_eq!(state.history.history, vec![String::new(), "[00:01.00]A".to_string()]);
    assert_eq!(state.history.history_index, 1);

    let undone = reduced(state, AppAction::Undo);
    assert_eq!(undone.history.history_index, 0);
    assert_eq!(undone.document.source_text, "");
    assert_eq!(undone.document.document.as_ref().unwrap().entries().len(), 0);

    let undone_again = reduced(undone.clone(), AppAction::Undo);
    assert_eq!(undone_again.history.history_index, 0);
    assert_eq!(undone_again.document.source_text, "");

    let redone = reduced(undone, AppAction::Redo);
    assert_eq!(redone.history.history_index, 1);
    assert_eq!(redone.document.source_text, "[00:01.00]A");

    let redone_again = reduced(redone, AppAction::Redo);
    assert_eq!(redone_again.history.history_index, 1);
}

#[test]
fn save_after_undo_drops_redo_entries() {
    let state = reduced(mock_state(), AppAction::SaveHistory("one".to_string()));
    let state = reduced(state, AppAction::SaveHistory("two".to_string()));
    let state = reduced(state, AppAction::Undo);
    let state = reduced(state, AppAction::SaveHistory("three".to_string()));
    assert_eq!(
        state.history.history,
        vec![String::new(), "one".to_string(), "three".to_string()]
    );
    assert_eq!(state.history.history_index, 2);
}

#[test]
fn playing_ignores_ticks_until_the_seek_is_confirmed() {
    let state = reduced(mock_state(), AppAction::TogglePlay);
    assert!(state.playback.playing);
    let state = reduced(state, AppAction::Seek(TimeMs(2000)));
    assert_eq!(state.playback.last_seek_request, Some(TimeMs(2000)));

    let stale = reduced(state, AppAction::SetTime(TimeMs(500)));
    assert_eq!(stale.playback.current_time_ms, TimeMs(2000));
    assert_eq!(stale.playback.last_seek_request, Some(TimeMs(2000)));

    let confirmed = reduced(stale, AppAction::SetTime(TimeMs(2000)));
    assert_eq!(confirmed.playback.current_time_ms, TimeMs(2000));
    assert_eq!(confirmed.playback.last_seek_request, None);

    let ticked = reduced(confirmed, AppAction::SetTime(TimeMs(2500)));
    assert_eq!(ticked.playback.current_time_ms, TimeMs(2500));
}

#[test]
fn paused_time_report_clears_pending_seek() {
    let state = reduced(mock_state(), AppAction::Seek(TimeMs(1000)));
    let state = reduced(state, AppAction::SetTime(TimeMs(300)));
    assert_eq!(state.playback.current_time_ms, TimeMs(300));
    assert_eq!(state.playback.last_seek_request, None);
    let state = reduced(state, AppAction::SetTime(TimeMs(99_000)));
    assert_eq!(state.playback.current_time_ms, TimeMs(15_000));
}

#[test]
fn toggle_play_clears_pending_seek() {
    let state = reduced(mock_state(), AppAction::Seek(TimeMs(1000)));
    let state = reduced(state, AppAction::TogglePlay);
    assert!(state.playback.playing);
    assert_eq!(state.playback.last_seek_request, None);
    let state = reduced(state, AppAction::TogglePlay);
    assert!(!state.playback.playing);
}

#[test]
fn shorter_duration_pulls_the_playhead_back() {
    let state = reduced(mock_state(), AppAction::SetDuration(TimeMs(10_000)));
    let state = reduced(state, AppAction::Seek(TimeMs(24_000)));
    assert_eq!(state.playback.current_time_ms, TimeMs(24_000));
    let state = reduced(state, AppAction::SetDuration(TimeMs(1000)));
    assert_eq!(state.playback.duration_ms, TimeMs(1000));
    assert_eq!(state.playback.current_time_ms, TimeMs(16_000));
}

#[test]
fn timeline_end_follows_audio_and_lyrics() {
    let state = mock_state();
    assert_eq!(state.max_timeline_duration(), TimeMs(15_000));
    let state = reduced(state, source("[00:30.00]x"));
    assert_eq!(state.max_timeline_duration(), TimeMs(45_000));
    let state = reduced(state, AppAction::SetDuration(TimeMs(60_000)));
    assert_eq!(state.max_timeline_duration(), TimeMs(75_000));
}

#[test]
fn selection_actions() {
    let state = reduced(mock_state(), source("[00:01.00]A\n[00:02.00]\n[00:03.00]C"));
    let state = reduced(state, AppAction::SelectAll);
    assert_eq!(state.view.selection.selected_ids(), &[0, 2]);
    assert_eq!(state.view.selection.anchor_id(), Some(0));

    let state = reduced(state, AppAction::ClearSelection);
    assert!(state.view.selection.selected_ids().is_empty());
    assert_eq!(state.view.selection.anchor_id(), None);

    let state = reduced(state, AppAction::SelectEntry(2, SelectionMode::Replace));
    assert_eq!(state.view.selection.selected_ids(), &[2]);
    let state = reduced(state, AppAction::SelectEntry(0, SelectionMode::Range));
    assert_eq!(state.view.selection.selected_ids(), &[0, 2]);
    let state = reduced(state, AppAction::SelectEntry(0, SelectionMode::Toggle));
    assert_eq!(state.view.selection.selected_ids(), &[2]);
    assert_eq!(state.view.selection.anchor_id(), Some(0));

    let state = reduced(state, AppAction::SelectEntry(9, SelectionMode::Replace));
    assert_eq!(state.view.selection.selected_ids(), &[2]);
}

#[test]
fn selecting_without_document_does_nothing() {
    let state = reduced(mock_state(), AppAction::SelectEntry(0, SelectionMode::Replace));
    assert!(state.view.selection.selected_ids().is_empty());
    let state = reduced(state, AppAction::SelectAll);
    assert!(state.view.selection.selected_ids().is_empty());
}

#[test]
fn reparse_prunes_the_selection() {
    let state = reduced(mock_state(), source("[00:01.00]A\n[00:02.00]B\n[00:03.00]C"));
    let state = reduced(state, AppAction::SelectAll);
    let state = reduced(state, source("[00:01.00]A"));
    assert_eq!(state.view.selection.selected_ids(), &[0]);
}

#[test]
fn delete_selected_clears_text_and_records_history() {
    let state = reduced(mock_state(), source("[ar:Me]\n[00:01.00]A\n[00:02.00]B\n[00:03.00]C\n"));
    let state = reduced(state, AppAction::SelectEntry(1, SelectionMode::Replace));
    let state = reduced(state, AppAction::DeleteSelected);
    let expected = "[ar:Me]\n[00:01.00]A\n[00:02.00]\n[00:03.00]C\n";
    assert_eq!(state.document.source_text, expected);
    assert_eq!(state.history.history, vec![String::new(), expected.to_string()]);
    assert_eq!(state.history.history_index, 1);
    let doc = state.document.document.as_ref().unwrap();
    assert!(doc.entries()[1].is_empty());
}

#[test]
fn delete_selected_merges_runs_of_empty_lines() {
    let state = reduced(mock_state(), source("[00:01.00]A\n[00:02.00]\n[00:03.00]C\n"));
    let state = reduced(state, AppAction::SelectEntry(2, SelectionMode::Replace));
    let state = reduced(state, AppAction::DeleteSelected);
    assert_eq!(state.document.source_text, "[00:01.00]A\n[00:02.00]\n");
}

#[test]
fn delete_without_selection_does_nothing() {
    let state = reduced(mock_state(), source("[00:01.00]A\n"));
    let state = reduced(state, AppAction::DeleteSelected);
    assert_eq!(state.document.source_text, "[00:01.00]A\n");
    assert_eq!(state.history.history.len(), 1);
}

#[test]
fn shift_selected_moves_the_chunk() {
    let state = reduced(mock_state(), source("[00:01.00]A\n[00:03.00]B\n[00:05.00]\n"));
    let state = reduced(state, AppAction::SelectEntry(0, SelectionMode::Replace));
    let state = reduced(state, AppAction::ShiftSelected(500));
    let expected = "[00:01.50] A\n[00:03.50] B\n[00:05.00]\n";
    assert_eq!(state.document.source_text, expected);
    assert_eq!(state.history.history.last().map(String::as_str), Some(expected));
    let unchanged = reduced(state.clone(), AppAction::ShiftSelected(0));
    assert_eq!(unchanged.document.source_text, expected);
}

#[test]
fn shift_boundary_moves_both_sides() {
    let state = reduced(mock_state(), source("[00:01.00]A\n[00:03.00]B\n[00:05.00]\n"));
    let both = reduced(state.clone(), AppAction::ShiftBoundary(0, false, true, 500));
    assert_eq!(both.document.source_text, "[00:01.00] A\n[00:03.50] B\n[00:05.00]\n");
    let left = reduced(state, AppAction::ShiftBoundary(1, true, false, -1000));
    assert_eq!(left.document.source_text, "[00:01.00] A\n[00:02.00] B\n[00:05.00]\n");
}

#[test]
fn add_chunk_to_an_empty_project() {
    let state = reduced(mock_state(), AppAction::AddChunk(TimeMs(1000), TimeMs(3000)));
    assert_eq!(state.document.source_text, "[00:01.00] Change me\n[00:03.00]\n");
    assert_eq!(state.history.history_index, 1);
    let doc = state.document.document.as_ref().unwrap();
    assert_eq!(doc.entries().len(), 2);
    assert_eq!(doc.entries()[0].display_text(), "Change me");
    // No lyric reads `*CHANGE ME*`, so the first new identity is selected.
    assert!(state.view.selection.selected_ids().is_empty());
    assert_eq!(state.view.selection.anchor_id(), Some(1));
}

#[test]
fn add_chunk_needs_a_positive_length() {
    let state = reduced(mock_state(), AppAction::AddChunk(TimeMs(3000), TimeMs(3000)));
    assert_eq!(state.document.source_text, "");
    assert_eq!(state.history.history.len(), 1);
}

#[test]
fn add_chunk_selects_the_nearest_change_me() {
    let state = reduced(
        mock_state(),
        source("[00:01.00]*CHANGE ME*\n[00:02.00]\n[00:08.00]*CHANGE ME*\n[00:09.00]\n"),
    );
    let state = reduced(state, AppAction::AddChunk(TimeMs(4000), TimeMs(5000)));
    let doc = state.document.document.as_ref().unwrap();
    let selected = state.view.selection.selected_ids();
    assert_eq!(selected.len(), 1);
    assert_eq!(doc.entries()[selected[0]].time_ms(), TimeMs(1000));
}

#[test]
fn emptying_the_lyrics_rewinds_the_playhead() {
    let state = reduced(mock_state(), source("[00:30.00]x"));
    let state = reduced(state, AppAction::Seek(TimeMs(5000)));
    assert_eq!(state.playback.current_time_ms, TimeMs(5000));
    let state = reduced(state, source("[00:01.00]"));
    assert_eq!(state.playback.current_time_ms, TimeMs(0));
}

#[test]
fn file_names() {
    let state = mock_state();
    assert_eq!(state.export_filename(), "lyrics.lrc");
    let state = reduced(state, AppAction::SetAudioFilename("song.mp3".to_string()));
    assert_eq!(state.project.audio_filename.as_deref(), Some("song.mp3"));
    assert_eq!(state.export_filename(), "song.lrc");
    let tar = reduced(state.clone(), AppAction::SetAudioFilename("archive.tar.gz".to_string()));
    assert_eq!(tar.export_filename(), "archive.tar.lrc");
    let bare = reduced(state.clone(), AppAction::SetAudioFilename("noext".to_string()));
    assert_eq!(bare.export_filename(), "noext.lrc");
    let lrc = reduced(state, AppAction::SetLrcFilename("mine.lrc".to_string()));
    assert_eq!(lrc.project.lrc_filename.as_deref(), Some("mine.lrc"));
    assert_eq!(lrc.export_filename(), "mine.lrc");
}

#[test]
fn keyboard_shortcuts() {
    assert_eq!(lcs_editor::state::shortcut_action("Delete"), Some(AppAction::DeleteSelected));
    assert_eq!(lcs_editor::state::shortcut_action("Backspace"), Some(AppAction::DeleteSelected));
    assert_eq!(lcs_editor::state::shortcut_action("Escape"), Some(AppAction::ClearSelection));
    assert_eq!(lcs_editor::state::shortcut_action("a"), None);
}

#[test]
fn playback_clock_stops_at_the_end() {
    let state = mock_state();
    assert_eq!(state.playback_tick(TimeMs(100)), vec![AppAction::SetTime(TimeMs(100))]);
    assert_eq!(
        state.playback_tick(TimeMs(15_000)),
        vec![AppAction::SetTime(TimeMs(15_000)), AppAction::TogglePlay]
    );
    let state = reduced(state, AppAction::TogglePlay);
    let mut state = state;
    for action in state.playback_tick(TimeMs(20_000)) {
        state.reduce(action);
    }
    assert!(!state.playback.playing);
    assert_eq!(state.playback.current_time_ms, TimeMs(15_000));
}

#[test]
fn checked_reduce_refuses_overflow() {
    let mut state = reduced(mock_state(), AppAction::SetDuration(TimeMs(100)));
    assert!(!state.fits(&AppAction::SetDuration(TimeMs(u32::MAX))));
    assert!(!state.try_reduce(AppAction::SetDuration(TimeMs(u32::MAX))));
    assert_eq!(state.playback.duration_ms, TimeMs(100));
    assert!(state.try_reduce(AppAction::Seek(TimeMs(700))));
    assert_eq!(state.playback.current_time_ms, TimeMs(700));
}
