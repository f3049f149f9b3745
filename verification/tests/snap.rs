use lcs_editor::snap::{calculate_ghost_chunk, create_release_action, release_action, TimelineSnapper};
use lcs_editor::state::{AppAction, AppState};
use lcs_editor::timeline::DragTarget;
use lcs_editor::{SelectionMode, TimeMs};

fn state_with(src: &str) -> AppState {
    let mut s = AppState::default();
    s.reduce(AppAction::UpdateSource(src.to_string()));
    s
}

#[test]
fn playhead_snaps_to_the_nearest_boundary_within_reach() {
    let s = state_with("[00:01.00]A\n[00:03.00]B\n");
    let end = TimeMs(10_000);
    assert_eq!(TimelineSnapper::snap_playhead(&s, TimeMs(2950), end, 100), TimeMs(3000));
    assert_eq!(TimelineSnapper::snap_playhead(&s, TimeMs(2950), end, 10), TimeMs(2950));
    assert_eq!(TimelineSnapper::snap_playhead(&s, TimeMs(9990), end, 100), TimeMs(10_000));
    assert_eq!(TimelineSnapper::snap_playhead(&s, TimeMs(30), end, 100), TimeMs(0));
}

#[test]
fn dragged_edge_snaps_to_a_still_boundary() {
    let mut s = state_with("[00:01.00]A\n[00:03.00]B\n");
    s.reduce(AppAction::SelectEntry(0, SelectionMode::Replace));
    let end = TimeMs(10_000);
    assert_eq!(TimelineSnapper::snap_drag_offset(&s, DragTarget::Body, None, 40, end, 100), 0);
    assert_eq!(TimelineSnapper::snap_drag_offset(&s, DragTarget::Body, None, 40, end, 10), 40);
    assert_eq!(TimelineSnapper::snap_drag_offset(&s, DragTarget::Playhead, None, 40, end, 100), 40);
    // The right edge of B sits on the timeline end already; a small drag snaps back.
    assert_eq!(TimelineSnapper::snap_drag_offset(&s, DragTarget::RightEdge, Some(1), -60, end, 100), 0);
    // B's left edge, dragged close to A's start, snaps onto it.
    assert_eq!(TimelineSnapper::snap_drag_offset(&s, DragTarget::LeftEdge, Some(1), -1950, end, 100), -2000);
}

#[test]
fn ghost_chunk_fits_the_gap() {
    let s = state_with("[00:01.00]A\n[00:03.00]\n[00:20.00]B\n");
    let end = TimeMs(30_000);
    let gap = (TimeMs(3000), TimeMs(20_000));
    assert_eq!(calculate_ghost_chunk(&s, TimeMs(10_000), gap.0, gap.1, end, 100), (TimeMs(7500), TimeMs(12_500)));
    assert_eq!(calculate_ghost_chunk(&s, TimeMs(3100), gap.0, gap.1, end, 100), (TimeMs(3000), TimeMs(8000)));
    assert_eq!(calculate_ghost_chunk(&s, TimeMs(19_000), gap.0, gap.1, end, 100), (TimeMs(15_000), TimeMs(20_000)));
    assert_eq!(
        calculate_ghost_chunk(&s, TimeMs(500), TimeMs(0), TimeMs(1000), end, 100),
        (TimeMs(0), TimeMs(1000))
    );
}

#[test]
fn release_actions() {
    let t = TimeMs(4200);
    assert_eq!(release_action(DragTarget::Body, 300, None, t), Some(AppAction::ShiftSelected(300)));
    assert_eq!(release_action(DragTarget::Body, 0, None, t), None);
    assert_eq!(release_action(DragTarget::LeftEdge, -5, Some(2), t), Some(AppAction::ShiftBoundary(2, true, false, -5)));
    assert_eq!(release_action(DragTarget::RightEdge, 5, Some(2), t), Some(AppAction::ShiftBoundary(2, false, false, 5)));
    assert_eq!(release_action(DragTarget::Boundary, 5, Some(2), t), Some(AppAction::ShiftBoundary(2, false, true, 5)));
    assert_eq!(release_action(DragTarget::Boundary, 5, None, t), None);
    assert_eq!(release_action(DragTarget::Playhead, 0, None, t), Some(AppAction::Seek(t)));
    assert_eq!(release_action(DragTarget::Scrollbar, 9, Some(1), t), None);
}

#[test]
fn create_release_actions() {
    let s = state_with("[00:01.00]A\n[00:03.00]\n[00:20.00]B\n");
    assert_eq!(
        create_release_action(&s, TimeMs(9000), TimeMs(4000), None, 100),
        Some(AppAction::AddChunk(TimeMs(4000), TimeMs(9000)))
    );
    assert_eq!(
        create_release_action(&s, TimeMs(4000), TimeMs(4000), Some(TimeMs(10_000)), 100),
        Some(AppAction::AddChunk(TimeMs(7500), TimeMs(12_500)))
    );
    assert_eq!(create_release_action(&s, TimeMs(4000), TimeMs(4000), Some(TimeMs(2000)), 100), None);
    assert_eq!(create_release_action(&s, TimeMs(4000), TimeMs(4000), None, 100), None);
}
