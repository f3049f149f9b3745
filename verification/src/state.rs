//! The editor's state and how each user action changes it.
use vstd::prelude::*;

use crate::document::{
    entries_text, entries_wf, metadata_text, source_text_of, LrcDocument, LrcDocumentView,
};
use crate::entry::LyricEntry;
use crate::metadata::MetadataTag;
use crate::parser::{doc_matches, spec_parse, spec_prefixed_message, LrcParser};
use crate::selection::{
    lemma_nonempty_ids_within, lemma_select_within, numbered, selection_within, spec_select, SelectionMode,
    SelectionState, SelectionView,
};
use crate::text::chars_of;
use crate::time::TimeMs;
use crate::timeline::{
    boundary_mode, chunk_intervals, drag_fits, lrc_text, new_chunk, prepared, resolve,
    spec_preview, DragTarget, IntervalModel, TimelineEditor,
};

verus! {

/// Transport state of the audio player.
#[derive(Clone, Copy, Debug, PartialEq, Eq, Structural)]
pub struct PlaybackState {
    pub current_time_ms: TimeMs,
    pub duration_ms: TimeMs,
    pub playing: bool,
    /// A seek the player has not yet confirmed.
    pub last_seek_request: Option<TimeMs>,
}

impl Default for PlaybackState {
    fn default() -> (r: Self)
        ensures
            r == (PlaybackState {
                current_time_ms: TimeMs(0),
                duration_ms: TimeMs(0),
                playing: false,
                last_seek_request: None,
            }),
    {
        PlaybackState {
            current_time_ms: TimeMs(0),
            duration_ms: TimeMs(0),
            playing: false,
            last_seek_request: None,
        }
    }
}

/// The LRC source text and what it parsed to.
#[derive(Clone, Debug, PartialEq, Eq)]
pub struct DocumentState {
    pub source_text: String,
    /// The last document that parsed.
    pub document: Option<LrcDocument>,
    pub parse_error: Option<String>,
    pub next_uid: usize,
}

impl Default for DocumentState {
    fn default() -> (r: Self)
        ensures
            r.source_text@ == Seq::<char>::empty(),
            r.document is None,
            r.parse_error is None,
            r.next_uid == 1,
    {
        DocumentState {
            source_text: String::new(),
            document: None,
            parse_error: None,
            next_uid: 1,
        }
    }
}

/// Undo history of source texts.
#[derive(Clone, Debug, PartialEq, Eq)]
pub struct HistoryState {
    pub history: Vec<String>,
    pub history_index: usize,
}

impl Default for HistoryState {
    fn default() -> (r: Self)
        ensures
            history_view(r) == seq![Seq::<char>::empty()],
            r.history@.len() == 1,
            r.history_index == 0,
    {
        let mut history: Vec<String> = Vec::new();
        history.push(String::new());
        let r = HistoryState { history, history_index: 0 };
        assert(history_view(r) =~= seq![Seq::<char>::empty()]);
        r
    }
}

/// What the user sees selected.
#[derive(Clone, Debug, PartialEq, Eq)]
pub struct ViewState {
    pub selection: SelectionState,
}

impl Default for ViewState {
    fn default() -> (r: Self)
        ensures
            r.selection@.selected == Seq::<usize>::empty(),
            r.selection@.anchor is None,
    {
        ViewState { selection: SelectionState::default() }
    }
}

/// Names of the files the project came from.
#[derive(Clone, Debug, PartialEq, Eq)]
pub struct ProjectState {
    pub audio_filename: Option<String>,
    pub lrc_filename: Option<String>,
}

impl Default for ProjectState {
    fn default() -> (r: Self)
        ensures
            r.audio_filename is None,
            r.lrc_filename is None,
    {
        ProjectState { audio_filename: None, lrc_filename: None }
    }
}

/// The whole editor state.
#[derive(Clone, Debug, PartialEq, Eq)]
pub struct AppState {
    pub playback: PlaybackState,
    pub document: DocumentState,
    pub history: HistoryState,
    pub view: ViewState,
    pub project: ProjectState,
}

impl Default for AppState {
    fn default() -> (r: Self)
        ensures
            r.wf(),
            r.playback == PlaybackState::default_spec(),
            r.document.source_text@ == Seq::<char>::empty(),
            r.document.document is None,
            r.document.parse_error is None,
            r.document.next_uid == 1,
            history_view(r.history) == seq![Seq::<char>::empty()],
            r.history.history_index == 0,
            r.view.selection@.selected == Seq::<usize>::empty(),
            r.view.selection@.anchor is None,
            r.project.audio_filename is None,
            r.project.lrc_filename is None,
    {
        AppState {
            playback: PlaybackState::default(),
            document: DocumentState::default(),
            history: HistoryState::default(),
            view: ViewState::default(),
            project: ProjectState::default(),
        }
    }
}

impl PlaybackState {
    pub open spec fn default_spec() -> PlaybackState {
        PlaybackState {
            current_time_ms: TimeMs(0),
            duration_ms: TimeMs(0),
            playing: false,
            last_seek_request: None,
        }
    }
}

/// A user or player action.
#[derive(Clone, Debug, PartialEq, Eq)]
pub enum AppAction {
    UpdateSource(String),
    SetLrcFilename(String),
    SetAudioFilename(String),
    SelectEntry(usize, SelectionMode),
    ClearSelection,
    SelectAll,
    SetTime(TimeMs),
    SetDuration(TimeMs),
    TogglePlay,
    Seek(TimeMs),
    Undo,
    Redo,
    SaveHistory(String),
    DeleteSelected,
    ShiftSelected(i32),
    /// Identity, whether the left edge moves, whether both sides of the boundary move, delta.
    ShiftBoundary(usize, bool, bool, i32),
    AddChunk(TimeMs, TimeMs),
}

// ---------------------------------------------------------------------------
// The model
// ---------------------------------------------------------------------------

pub open spec fn doc_view(d: Option<LrcDocument>) -> Option<LrcDocumentView> {
    match d {
        Some(x) => Some(x@),
        None => None,
    }
}

pub open spec fn history_view(h: HistoryState) -> Seq<Seq<char>> {
    h.history@.map_values(|s: String| s@)
}

/// Time of the last lyric, or zero.
pub open spec fn last_time(d: Option<LrcDocumentView>) -> u32 {
    match d {
        Some(v) => if v.entries.len() > 0 {
            v.entries.last().time.0
        } else {
            0
        },
        None => 0,
    }
}

pub open spec fn max_u32(a: u32, b: u32) -> u32 {
    if a >= b {
        a
    } else {
        b
    }
}

/// The end of the timeline: audio or last lyric, whichever is later, plus 15 s.
pub open spec fn timeline_end(duration: TimeMs, d: Option<LrcDocumentView>) -> int {
    max_u32(duration.0, last_time(d)) + 15000
}

/// No lyric has text.
pub open spec fn all_empty(d: Option<LrcDocumentView>) -> bool {
    match d {
        Some(v) => forall|i: int| 0 <= i < v.entries.len() ==> (#[trigger] v.entries[i]).display_text@.len() == 0,
        None => true,
    }
}

/// The parser's offsets fit in `usize` for a text of this length (always so
/// for a text held in memory).
pub open spec fn parse_fits(src: Seq<char>) -> bool {
    4 * src.len() + 4 <= usize::MAX
}

/// A selection with ids beyond `len` entries removed.
pub open spec fn pruned(sel: SelectionView, len: nat) -> SelectionView {
    SelectionView {
        selected: sel.selected.filter(|id: usize| id < len),
        anchor: match sel.anchor {
            Some(a) => if a < len {
                Some(a)
            } else {
                None
            },
            None => None,
        },
    }
}

/// The selection after the source text is replaced by `src`.
pub open spec fn selection_after_update(sel: SelectionView, src: Seq<char>) -> SelectionView {
    if !parse_fits(src) {
        sel
    } else {
        match spec_parse(src) {
            Ok(m) => pruned(sel, m.entries.len()),
            Err(_) => sel,
        }
    }
}

/// The document fields after the source text is replaced by `src`: a text that
/// parses replaces the document, one that does not keeps it and reports why.
pub open spec fn document_updated(old: DocumentState, src: Seq<char>, new: DocumentState) -> bool {
    &&& new.source_text@ == src
    &&& new.next_uid == old.next_uid
    &&& if !parse_fits(src) {
        new.document == old.document && new.parse_error == old.parse_error
    } else {
        match spec_parse(src) {
            Ok(m) => {
                &&& new.document matches Some(d) && doc_matches(d@, m)
                &&& new.parse_error is None
            },
            Err(e) => {
                &&& new.document == old.document
                &&& new.parse_error matches Some(msg) && msg@ == spec_prefixed_message(e)
            },
        }
    }
}

/// `text` recorded after the current history position, dropping any redo entries.
pub open spec fn history_pushed(old: HistoryState, text: Seq<char>, new: HistoryState) -> bool {
    &&& history_view(new) == history_view(old).take(old.history_index + 1).push(text)
    &&& new.history_index == old.history_index + 1
}

/// Entry lines after the selected entries lose their text and each run of
/// empty entries collapses to its first; also whether a line was written and
/// whether the last one written is empty.
pub open spec fn deleted_lines(entries: Seq<LyricEntry>, selected: Seq<usize>) -> (Seq<char>, bool, bool)
    decreases entries.len(),
{
    if entries.len() == 0 {
        (Seq::empty(), false, false)
    } else {
        let (text, any, last_empty) = deleted_lines(entries.drop_last(), selected);
        let e = entries.last();
        let cleared = selected.contains(e.uid);
        let empty = cleared || e.display_text@.len() == 0;
        if any && last_empty && empty {
            (text, any, last_empty)
        } else {
            (
                text + seq!['['] + crate::time::spec_timestamp(e.time.0) + seq![']'] + (if cleared {
                    Seq::empty()
                } else {
                    e.text@
                }) + seq!['\n'],
                true,
                empty,
            )
        }
    }
}

/// Deleting the selected lyrics writes what clearing the text of every
/// selected entry, and of no other, and then deleting nothing writes: each
/// entry whose identity is selected, wherever it stands in the selection, is
/// written with empty text, and every other entry keeps its own.
pub proof fn lemma_delete_clears_selected(es: Seq<LyricEntry>, selected: Seq<usize>, cleared: Seq<LyricEntry>)
    requires
        cleared.len() == es.len(),
        forall|i: int| 0 <= i < es.len() ==> (#[trigger] cleared[i]).time == es[i].time,
        forall|i: int|
            0 <= i < es.len() && selected.contains(#[trigger] es[i].uid) ==> cleared[i].text@.len() == 0
                && cleared[i].display_text@.len() == 0,
        forall|i: int|
            0 <= i < es.len() && !selected.contains(#[trigger] es[i].uid) ==> cleared[i].text@
                == es[i].text@ && cleared[i].display_text@ == es[i].display_text@,
    ensures
        deleted_lines(es, selected) == deleted_lines(cleared, Seq::empty()),
    decreases es.len(),
{
    if es.len() > 0 {
        let d = es.drop_last();
        let dc = cleared.drop_last();
        assert forall|i: int| 0 <= i < d.len() implies (#[trigger] dc[i]).time == d[i].time by {
            assert(dc[i] == cleared[i] && d[i] == es[i]);
        }
        assert forall|i: int| 0 <= i < d.len() && selected.contains(#[trigger] d[i].uid) implies dc[i].text@.len()
            == 0 && dc[i].display_text@.len() == 0 by {
            assert(dc[i] == cleared[i] && d[i] == es[i]);
        }
        assert forall|i: int| 0 <= i < d.len() && !selected.contains(#[trigger] d[i].uid) implies dc[i].text@
            == d[i].text@ && dc[i].display_text@ == d[i].display_text@ by {
            assert(dc[i] == cleared[i] && d[i] == es[i]);
        }
        lemma_delete_clears_selected(d, selected, dc);
        let n = es.len() - 1;
        assert(es.last() == es[n] && cleared.last() == cleared[n]);
        assert(!Seq::<usize>::empty().contains(cleared.last().uid));
        if selected.contains(es[n].uid) {
            assert(cleared[n].text@ =~= Seq::<char>::empty());
        }
    }
}

/// The LRC text after deleting the selected lyrics.
pub open spec fn deleted_text(v: LrcDocumentView, selected: Seq<usize>) -> Seq<char> {
    metadata_text(v.metadata) + deleted_lines(v.entries, selected).0
}

pub open spec fn is_change_me(e: LyricEntry) -> bool {
    e.display_text@ == "*CHANGE ME*"@
}

/// `|time - start|` with both read as `i32`.
pub open spec fn start_distance(e: LyricEntry, start: TimeMs) -> int {
    let d = (e.time.0 as i32) as int - (start.0 as i32) as int;
    if d < 0 {
        -d
    } else {
        d
    }
}

/// Entry `i` is the first of the `*CHANGE ME*` entries nearest to `start`.
pub open spec fn is_nearest_change_me(es: Seq<LyricEntry>, start: TimeMs, i: int) -> bool {
    &&& 0 <= i < es.len()
    &&& is_change_me(es[i])
    &&& forall|j: int|
        0 <= j < es.len() && is_change_me(#[trigger] es[j]) ==> start_distance(es[i], start)
            <= start_distance(es[j], start)
    &&& forall|j: int|
        0 <= j < i && is_change_me(#[trigger] es[j]) ==> start_distance(es[i], start)
            < start_distance(es[j], start)
}

pub open spec fn is_first_uid_at_least(es: Seq<LyricEntry>, uid: usize, i: int) -> bool {
    &&& 0 <= i < es.len()
    &&& es[i].uid >= uid
    &&& forall|j: int| 0 <= j < i ==> (#[trigger] es[j]).uid < uid
}

/// The identity selected after a chunk is added.
pub open spec fn add_target(es: Seq<LyricEntry>, start: TimeMs, new_uid: usize) -> usize {
    if exists|i: int| is_nearest_change_me(es, start, i) {
        es[choose|i: int| is_nearest_change_me(es, start, i)].uid
    } else if exists|i: int| is_first_uid_at_least(es, new_uid, i) {
        es[choose|i: int| is_first_uid_at_least(es, new_uid, i)].uid
    } else {
        new_uid
    }
}

/// The end of the timeline for a state.
pub open spec fn end_of(s: AppState) -> int {
    timeline_end(s.playback.duration_ms, doc_view(s.document.document))
}

pub open spec fn clamp_to(t: TimeMs, end: int) -> TimeMs {
    if t.0 > end {
        TimeMs(end as u32)
    } else {
        t
    }
}

/// The playback fields other than the current time are unchanged.
pub open spec fn same_transport(old: AppState, new: AppState) -> bool {
    &&& new.playback.duration_ms == old.playback.duration_ms
    &&& new.playback.playing == old.playback.playing
    &&& new.playback.last_seek_request == old.playback.last_seek_request
}

/// Nothing but the current time changed.
pub open spec fn unchanged(old: AppState, new: AppState) -> bool {
    &&& same_transport(old, new)
    &&& new.document == old.document
    &&& new.history == old.history
    &&& new.view.selection@ == old.view.selection@
    &&& new.project == old.project
}

/// Only the selection (and perhaps the current time) changed.
pub open spec fn only_selection(old: AppState, new: AppState) -> bool {
    &&& same_transport(old, new)
    &&& new.document == old.document
    &&& new.history == old.history
    &&& new.project == old.project
}

/// Only the transport changed.
pub open spec fn only_transport(old: AppState, new: AppState) -> bool {
    &&& new.document == old.document
    &&& new.history == old.history
    &&& new.view.selection@ == old.view.selection@
    &&& new.project == old.project
}

/// The source text was replaced by `text` and `text` recorded in the history.
pub open spec fn edited(old: AppState, text: Seq<char>, new: AppState) -> bool {
    &&& same_transport(old, new)
    &&& document_updated(old.document, text, new.document)
    &&& history_pushed(old.history, text, new.history)
    &&& new.project == old.project
}

/// The current time after an action, before a document that lost all its
/// lyrics sends the playhead back to zero.
pub open spec fn current_after(old: AppState, a: AppAction) -> TimeMs {
    match a {
        AppAction::SetTime(t) => {
            let b = clamp_to(t, end_of(old));
            if !old.playback.playing {
                b
            } else {
                match old.playback.last_seek_request {
                    Some(seek) => if b == seek {
                        b
                    } else {
                        old.playback.current_time_ms
                    },
                    None => b,
                }
            }
        },
        AppAction::SetDuration(t) => {
            let end = timeline_end(t, doc_view(old.document.document));
            if old.playback.current_time_ms.0 > end {
                TimeMs(end as u32)
            } else {
                old.playback.current_time_ms
            }
        },
        AppAction::Seek(t) => clamp_to(t, end_of(old)),
        _ => old.playback.current_time_ms,
    }
}

/// The empty document.
pub open spec fn empty_view() -> LrcDocumentView {
    LrcDocumentView { entries: Seq::empty(), metadata: Seq::empty(), line_count: 0 }
}

/// The LRC text after adding a chunk from `start` to `end` to a document.
pub open spec fn added_text(v: LrcDocumentView, start: TimeMs, end: TimeMs, timeline: TimeMs) -> Seq<char> {
    lrc_text(
        v.metadata,
        prepared(
            resolve(
                chunk_intervals(v.entries, timeline).filter(|i: IntervalModel| !i.is_empty),
                seq![new_chunk(start.0, end.0)],
            ),
        ),
    )
}

/// Every field but the current time after an action.
pub open spec fn stepped(old: AppState, a: AppAction, new: AppState) -> bool {
    match a {
        AppAction::UpdateSource(src) => {
            &&& same_transport(old, new)
            &&& document_updated(old.document, src@, new.document)
            &&& new.view.selection@ == selection_after_update(old.view.selection@, src@)
            &&& new.history == old.history
            &&& new.project == old.project
        },
        AppAction::SetLrcFilename(name) => {
            &&& same_transport(old, new)
            &&& new.document == old.document
            &&& new.history == old.history
            &&& new.view.selection@ == old.view.selection@
            &&& new.project.lrc_filename == Some(name)
            &&& new.project.audio_filename == old.project.audio_filename
        },
        AppAction::SetAudioFilename(name) => {
            &&& same_transport(old, new)
            &&& new.document == old.document
            &&& new.history == old.history
            &&& new.view.selection@ == old.view.selection@
            &&& new.project.audio_filename == Some(name)
            &&& new.project.lrc_filename == old.project.lrc_filename
        },
        AppAction::SelectEntry(id, mode) => {
            &&& only_selection(old, new)
            &&& new.view.selection@ == match doc_view(old.document.document) {
                Some(v) => if id < v.entries.len() {
                    spec_select(old.view.selection@, v.entries, id, mode)
                } else {
                    old.view.selection@
                },
                None => old.view.selection@,
            }
        },
        AppAction::ClearSelection => {
            &&& only_selection(old, new)
            &&& new.view.selection@.selected == Seq::<usize>::empty()
            &&& new.view.selection@.anchor is None
        },
        AppAction::SelectAll => {
            &&& only_selection(old, new)
            &&& match doc_view(old.document.document) {
                Some(v) => {
                    &&& new.view.selection@.selected == crate::selection::nonempty_ids_between(
                        v.entries,
                        0,
                        usize::MAX as int,
                    )
                    &&& new.view.selection@.anchor == (if new.view.selection@.selected.len() == 0 {
                        None
                    } else {
                        Some(new.view.selection@.selected[0])
                    })
                },
                None => new.view.selection@ == old.view.selection@,
            }
        },
        AppAction::SetTime(t) => {
            let b = clamp_to(t, end_of(old));
            &&& only_transport(old, new)
            &&& new.playback.duration_ms == old.playback.duration_ms
            &&& new.playback.playing == old.playback.playing
            &&& new.playback.last_seek_request == (if !old.playback.playing
                || old.playback.last_seek_request == Some(b) {
                None
            } else {
                old.playback.last_seek_request
            })
        },
        AppAction::SetDuration(t) => {
            &&& only_transport(old, new)
            &&& new.playback.duration_ms == t
            &&& new.playback.playing == old.playback.playing
            &&& new.playback.last_seek_request == old.playback.last_seek_request
        },
        AppAction::TogglePlay => {
            &&& only_transport(old, new)
            &&& new.playback.duration_ms == old.playback.duration_ms
            &&& new.playback.playing == !old.playback.playing
            &&& new.playback.last_seek_request is None
        },
        AppAction::Seek(t) => {
            &&& only_transport(old, new)
            &&& new.playback.duration_ms == old.playback.duration_ms
            &&& new.playback.playing == old.playback.playing
            &&& new.playback.last_seek_request == Some(clamp_to(t, end_of(old)))
        },
        AppAction::Undo => if old.history.history_index > 0 {
            let src = history_view(old.history)[old.history.history_index - 1];
            &&& same_transport(old, new)
            &&& document_updated(old.document, src, new.document)
            &&& new.view.selection@ == selection_after_update(old.view.selection@, src)
            &&& new.history.history == old.history.history
            &&& new.history.history_index == old.history.history_index - 1
            &&& new.project == old.project
        } else {
            unchanged(old, new)
        },
        AppAction::Redo => if old.history.history_index + 1 < old.history.history@.len() {
            let src = history_view(old.history)[old.history.history_index + 1];
            &&& same_transport(old, new)
            &&& document_updated(old.document, src, new.document)
            &&& new.view.selection@ == selection_after_update(old.view.selection@, src)
            &&& new.history.history == old.history.history
            &&& new.history.history_index == old.history.history_index + 1
            &&& new.project == old.project
        } else {
            unchanged(old, new)
        },
        AppAction::SaveHistory(src) => {
            &&& same_transport(old, new)
            &&& new.document == old.document
            &&& history_pushed(old.history, src@, new.history)
            &&& new.view.selection@ == old.view.selection@
            &&& new.project == old.project
        },
        AppAction::DeleteSelected => match doc_view(old.document.document) {
            Some(v) => if old.view.selection@.selected.len() > 0 {
                let text = deleted_text(v, old.view.selection@.selected);
                &&& edited(old, text, new)
                &&& new.view.selection@ == selection_after_update(old.view.selection@, text)
            } else {
                unchanged(old, new)
            },
            None => unchanged(old, new),
        },
        AppAction::ShiftSelected(d) => match doc_view(old.document.document) {
            Some(v) => if old.view.selection@.selected.len() > 0 && d != 0 {
                let text = lrc_text(
                    v.metadata,
                    prepared(
                        spec_preview(
                            v.entries,
                            TimeMs(end_of(old) as u32),
                            old.view.selection@.selected,
                            DragTarget::Body,
                            None,
                            d,
                        ),
                    ),
                );
                &&& edited(old, text, new)
                &&& new.view.selection@ == selection_after_update(old.view.selection@, text)
            } else {
                unchanged(old, new)
            },
            None => unchanged(old, new),
        },
        AppAction::ShiftBoundary(id, left_edge, both, d) => match doc_view(old.document.document) {
            Some(v) => if d != 0 {
                let text = lrc_text(
                    v.metadata,
                    prepared(
                        spec_preview(
                            v.entries,
                            TimeMs(end_of(old) as u32),
                            Seq::empty(),
                            boundary_mode(left_edge, both),
                            Some(id),
                            d,
                        ),
                    ),
                );
                &&& edited(old, text, new)
                &&& new.view.selection@ == selection_after_update(old.view.selection@, text)
            } else {
                unchanged(old, new)
            },
            None => unchanged(old, new),
        },
        AppAction::AddChunk(start, end) => if start.0 < end.0 {
            let base = match doc_view(old.document.document) {
                Some(v) => v,
                None => empty_view(),
            };
            let text = added_text(base, start, end, TimeMs(end_of(old) as u32));
            let sel = selection_after_update(old.view.selection@, text);
            &&& edited(old, text, new)
            &&& new.view.selection@ == match doc_view(new.document.document) {
                Some(nv) => {
                    let target = add_target(nv.entries, start, old.document.next_uid);
                    if target < nv.entries.len() {
                        spec_select(sel, nv.entries, target, SelectionMode::Replace)
                    } else {
                        sel
                    }
                },
                None => sel,
            }
        } else {
            unchanged(old, new)
        },
    }
}

/// The state after an action: the fields as `stepped` says, and the current
/// time as `current_after` says, except that it returns to zero when the
/// document lost its last lyric text.
pub open spec fn reduced(old: AppState, a: AppAction, new: AppState) -> bool {
    &&& stepped(old, a, new)
    &&& new.playback.current_time_ms == (if all_empty(doc_view(new.document.document)) && !all_empty(
        doc_view(old.document.document),
    ) {
        TimeMs(0)
    } else {
        current_after(old, a)
    })
}

/// The arithmetic of the action stays in range (a drag must not push a time
/// past `i32`, the timeline end must fit in `u32`).
pub open spec fn action_fits(s: AppState, a: AppAction) -> bool {
    match a {
        AppAction::SetTime(_) | AppAction::Seek(_) => end_of(s) <= u32::MAX,
        AppAction::SetDuration(t) => timeline_end(t, doc_view(s.document.document)) <= u32::MAX,
        AppAction::ShiftSelected(d) => match doc_view(s.document.document) {
            Some(v) => s.view.selection@.selected.len() > 0 && d != 0 ==> {
                &&& end_of(s) <= u32::MAX
                &&& drag_fits(
                    v.entries,
                    TimeMs(end_of(s) as u32),
                    s.view.selection@.selected,
                    DragTarget::Body,
                    None,
                    d,
                )
            },
            None => true,
        },
        AppAction::ShiftBoundary(id, left_edge, both, d) => match doc_view(s.document.document) {
            Some(v) => d != 0 ==> {
                &&& end_of(s) <= u32::MAX
                &&& drag_fits(
                    v.entries,
                    TimeMs(end_of(s) as u32),
                    Seq::empty(),
                    boundary_mode(left_edge, both),
                    Some(id),
                    d,
                )
            },
            None => true,
        },
        AppAction::AddChunk(start, end) => start.0 < end.0 ==> end_of(s) <= u32::MAX,
        _ => true,
    }
}

/// Position of the last `c` in `s`.
pub open spec fn is_last_index(s: Seq<char>, c: char, i: int) -> bool {
    &&& 0 <= i < s.len()
    &&& s[i] == c
    &&& forall|j: int| i < j < s.len() ==> s[j] != c
}

/// A file name without its extension: everything before the last `.`.
pub open spec fn file_stem(name: Seq<char>) -> Seq<char> {
    if exists|i: int| is_last_index(name, '.', i) {
        name.take(choose|i: int| is_last_index(name, '.', i))
    } else {
        name
    }
}

/// The name an export is saved under: the imported LRC file's name, else the
/// audio file's name with `.lrc` in place of its extension, else `lyrics.lrc`.
pub open spec fn export_name(lrc: Option<String>, audio: Option<String>) -> Seq<char> {
    match lrc {
        Some(l) => l@,
        None => match audio {
            Some(a) => file_stem(a@) + ".lrc"@,
            None => "lyrics.lrc"@,
        },
    }
}

/// The actions a keyboard shortcut of the timeline stands for.
pub open spec fn shortcut(key: Seq<char>) -> Option<AppAction> {
    if key == "Delete"@ || key == "Backspace"@ {
        Some(AppAction::DeleteSelected)
    } else if key == "Escape"@ {
        Some(AppAction::ClearSelection)
    } else {
        None
    }
}

/// What a tick of the playback clock at `now` reports: the time, and at the
/// end of the timeline the time of the end and a stop.
pub open spec fn tick_actions(end: int, now: TimeMs) -> Seq<AppAction> {
    if now.0 >= end {
        seq![AppAction::SetTime(TimeMs(end as u32)), AppAction::TogglePlay]
    } else {
        seq![AppAction::SetTime(now)]
    }
}

/// The action of a keyboard shortcut: Delete or Backspace deletes the selected
/// lyrics, Escape clears the selection.
pub fn shortcut_action(key: &str) -> (r: Option<AppAction>)
    ensures
        r == shortcut(key@),
{
    let mut k = String::new();
    crate::text::push_text(&mut k, key);
    let mut delete = String::new();
    crate::text::push_text(&mut delete, "Delete");
    let mut backspace = String::new();
    crate::text::push_text(&mut backspace, "Backspace");
    let mut escape = String::new();
    crate::text::push_text(&mut escape, "Escape");
    assert(k@ =~= key@);
    assert(delete@ =~= "Delete"@);
    assert(backspace@ =~= "Backspace"@);
    assert(escape@ =~= "Escape"@);
    if k == delete || k == backspace {
        Some(AppAction::DeleteSelected)
    } else if k == escape {
        Some(AppAction::ClearSelection)
    } else {
        None
    }
}

impl AppState {
    /// The history position names a recorded text.
    pub open spec fn wf(&self) -> bool {
        self.history.history_index < self.history.history@.len()
    }

    /// The end of the timeline: the audio or the last lyric, whichever is later, plus 15 s.
    pub fn max_timeline_duration(&self) -> (r: TimeMs)
        requires
            end_of(*self) <= u32::MAX,
        ensures
            r.0 == end_of(*self),
    {
        let last_lyric_ms = match &self.document.document {
            Some(doc) => match doc.last_entry_time_ms() {
                Some(t) => t,
                None => TimeMs(0),
            },
            None => TimeMs(0),
        };
        let d = self.playback.duration_ms.0;
        let m = if d >= last_lyric_ms.0 {
            d
        } else {
            last_lyric_ms.0
        };
        TimeMs(m + 15000)
    }

    /// What to report for a tick of the playback clock at `now`.
    pub fn playback_tick(&self, now: TimeMs) -> (r: Vec<AppAction>)
        requires
            end_of(*self) <= u32::MAX,
        ensures
            r@ == tick_actions(end_of(*self), now),
    {
        let max_dur = self.max_timeline_duration();
        let mut r: Vec<AppAction> = Vec::new();
        if now.0 >= max_dur.0 {
            r.push(AppAction::SetTime(max_dur));
            r.push(AppAction::TogglePlay);
        } else {
            r.push(AppAction::SetTime(now));
        }
        assert(r@ =~= tick_actions(end_of(*self), now));
        r
    }

    /// The file name under which the LRC text is exported.
    pub fn export_filename(&self) -> (r: String)
        ensures
            r@ == export_name(self.project.lrc_filename, self.project.audio_filename),
    {
        match &self.project.lrc_filename {
            Some(name) => name.clone(),
            None => match &self.project.audio_filename {
                Some(audio_name) => {
                    let v = chars_of(audio_name.as_str());
                    let mut last_dot: Option<usize> = None;
                    let mut i: usize = 0;
                    while i < v.len()
                        invariant
                            i <= v@.len(),
                            match last_dot {
                                Some(k) => k < i && v@[k as int] == '.' && forall|j: int|
                                    k < j < i ==> v@[j] != '.',
                                None => forall|j: int| 0 <= j < i ==> v@[j] != '.',
                            },
                        decreases v@.len() - i,
                    {
                        if v[i] == '.' {
                            last_dot = Some(i);
                        }
                        i = i + 1;
                    }
                    let stem_end = match last_dot {
                        Some(k) => {
                            proof {
                                assert(is_last_index(v@, '.', k as int));
                                let c = choose|c: int| is_last_index(v@, '.', c);
                                if c < k {
                                    assert(v@[k as int] == '.');
                                } else if k < c {
                                    assert(v@[c] == '.');
                                }
                            }
                            k
                        },
                        None => {
                            proof {
                                assert forall|c: int| !is_last_index(v@, '.', c) by {
                                    if 0 <= c < v@.len() {
                                        assert(v@[c] != '.');
                                    }
                                }
                            }
                            v.len()
                        },
                    };
                    let mut name = crate::text::string_of_range(&v, 0, stem_end);
                    crate::text::push_text(&mut name, ".lrc");
                    assert(v@.subrange(0, stem_end as int) =~= file_stem(v@));
                    name
                },
                None => {
                    let mut name = String::new();
                    crate::text::push_text(&mut name, "lyrics.lrc");
                    assert(name@ =~= "lyrics.lrc"@);
                    name
                },
            },
        }
    }

    /// Whether no lyric of the document has text.
    fn document_all_empty(&self) -> (r: bool)
        ensures
            r == all_empty(doc_view(self.document.document)),
    {
        match &self.document.document {
            None => true,
            Some(doc) => {
                let entries = doc.entries();
                let mut i: usize = 0;
                while i < entries.len()
                    invariant
                        i <= entries@.len(),
                        entries@ == doc@.entries,
                        doc_view(self.document.document) == Some(doc@),
                        forall|j: int| 0 <= j < i ==> (#[trigger] entries@[j]).display_text@.len() == 0,
                    decreases entries@.len() - i,
                {
                    if !entries[i].is_empty() {
                        let ghost v = doc@;
                        assert(v.entries[i as int].display_text@.len() != 0);
                        assert(!all_empty(Some(v)));
                        return false;
                    }
                    i = i + 1;
                }
                true
            },
        }
    }

    /// Replaces the source text and re-parses it.
    pub fn update_document(&mut self, source: String)
        ensures
            document_updated(old(self).document, source@, final(self).document),
            final(self).view.selection@ == selection_after_update(old(self).view.selection@, source@),
            final(self).playback == old(self).playback,
            final(self).history == old(self).history,
            final(self).project == old(self).project,
    {
        let n = chars_of(source.as_str()).len();
        if n > (usize::MAX - 4) / 4 {
            // Not reachable for a text held in memory.
            self.document.source_text = source;
            return ;
        }
        let result = {
            let parser = LrcParser::new(source.as_str());
            parser.parse()
        };
        match result {
            Ok(doc) => {
                self.view.selection.prune(&doc);
                self.document.document = Some(doc);
                self.document.parse_error = None;
            },
            Err(e) => {
                self.document.parse_error = Some(e.prefixed_message());
            },
        }
        self.document.source_text = source;
    }

    /// Records `text` after the current history position, dropping redo entries.
    fn push_history(&mut self, text: String)
        requires
            old(self).wf(),
        ensures
            final(self).wf(),
            history_pushed(old(self).history, text@, final(self).history),
            final(self).playback == old(self).playback,
            final(self).document == old(self).document,
            final(self).view.selection@ == old(self).view.selection@,
            final(self).project == old(self).project,
    {
        let ghost before = history_view(self.history);
        let len = self.history.history.len();
        assert(self.history.history_index < len);
        let keep = self.history.history_index + 1;
        self.history.history.truncate(keep);
        self.history.history.push(text);
        self.history.history_index = self.history.history.len() - 1;
        assert(history_view(self.history) =~= before.take(keep as int).push(text@));
    }

    /// The LRC text after deleting the selected lyrics of `doc`.
    #[verifier::spinoff_prover]
    #[verifier::rlimit(30)]
    fn deleted_source(doc: &LrcDocument, selected: &[usize]) -> (s: String)
        ensures
            s@ == deleted_text(doc@, selected@),
    {
        let entries = doc.entries();
        let no_entries: Vec<LyricEntry> = Vec::new();
        let mut text = source_text_of(doc.metadata(), no_entries.as_slice());
        let ghost head = metadata_text(doc@.metadata);
        assert(text@ =~= head);
        let mut any = false;
        let mut last_empty = false;
        let mut i: usize = 0;
        while i < entries.len()
            invariant
                i <= entries@.len(),
                entries@ == doc@.entries,
                text@ == head + deleted_lines(entries@.take(i as int), selected@).0,
                any == deleted_lines(entries@.take(i as int), selected@).1,
                last_empty == deleted_lines(entries@.take(i as int), selected@).2,
            decreases entries@.len() - i,
        {
            let e = &entries[i];
            proof {
                assert(entries@.take(i + 1).drop_last() =~= entries@.take(i as int));
            }
            let cleared = contains_uid(selected, e.uid);
            let empty = cleared || e.is_empty();
            if !(any && last_empty && empty) {
                text.push('[');
                e.time.push_timestamp(&mut text);
                text.push(']');
                if !cleared {
                    crate::text::push_text(&mut text, e.text.as_str());
                }
                text.push('\n');
                any = true;
                last_empty = empty;
            }
            i = i + 1;
            proof {
                assert(text@ =~= head + deleted_lines(entries@.take(i as int), selected@).0);
            }
        }
        assert(entries@.take(i as int) =~= entries@);
        text
    }
    /// Whether the end of a timeline for an audio of `duration` fits in `u32`.
    fn timeline_end_fits(&self, duration: TimeMs) -> (r: bool)
        ensures
            r == (timeline_end(duration, doc_view(self.document.document)) <= u32::MAX),
    {
        let last: u32 = match &self.document.document {
            Some(doc) => match doc.last_entry_time_ms() {
                Some(t) => t.0,
                None => 0,
            },
            None => 0,
        };
        let m = if duration.0 >= last {
            duration.0
        } else {
            last
        };
        m <= u32::MAX - 15000
    }

    /// Whether the arithmetic of `action` stays in range on this state.
    pub fn fits(&self, action: &AppAction) -> (r: bool)
        ensures
            r == action_fits(*self, *action),
    {
        match action {
            AppAction::SetTime(_) | AppAction::Seek(_) => self.timeline_end_fits(self.playback.duration_ms),
            AppAction::SetDuration(t) => self.timeline_end_fits(*t),
            AppAction::AddChunk(start, end) => {
                if start.0 < end.0 {
                    self.timeline_end_fits(self.playback.duration_ms)
                } else {
                    true
                }
            },
            AppAction::ShiftSelected(d) => match &self.document.document {
                Some(doc) => {
                    if self.view.selection.selected_ids().len() > 0 && *d != 0 {
                        if !self.timeline_end_fits(self.playback.duration_ms) {
                            false
                        } else {
                            let end = self.max_timeline_duration();
                            TimelineEditor::new(doc).drag_fits(
                                end,
                                self.view.selection.selected_ids(),
                                DragTarget::Body,
                                None,
                                *d,
                            )
                        }
                    } else {
                        true
                    }
                },
                None => true,
            },
            AppAction::ShiftBoundary(id, left_edge, both, d) => match &self.document.document {
                Some(doc) => {
                    if *d != 0 {
                        if !self.timeline_end_fits(self.playback.duration_ms) {
                            false
                        } else {
                            let end = self.max_timeline_duration();
                            let mode = if *both {
                                DragTarget::Boundary
                            } else if *left_edge {
                                DragTarget::LeftEdge
                            } else {
                                DragTarget::RightEdge
                            };
                            let none: [usize; 0] = [];
                            assert(none@ =~= Seq::<usize>::empty());
                            TimelineEditor::new(doc).drag_fits(end, &none, mode, Some(*id), *d)
                        }
                    } else {
                        true
                    }
                },
                None => true,
            },
            _ => true,
        }
    }

    /// Applies `action` when its arithmetic stays in range (`fits`), and says
    /// whether it did; otherwise the state is left as it was.
    pub fn try_reduce(&mut self, action: AppAction) -> (applied: bool)
        requires
            old(self).wf(),
        ensures
            final(self).wf(),
            applied == action_fits(*old(self), action),
            applied ==> reduced(*old(self), action, *final(self)),
            !applied ==> *final(self) == *old(self),
    {
        if self.fits(&action) {
            self.reduce(action);
            true
        } else {
            false
        }
    }

    /// Applies one action to the state.
    pub fn reduce(&mut self, action: AppAction)
        requires
            old(self).wf(),
            action_fits(*old(self), action),
        ensures
            final(self).wf(),
            reduced(*old(self), action, *final(self)),
    {
        let was_empty = self.document_all_empty();
        match action {
            AppAction::UpdateSource(source) => {
                self.update_document(source);
            },
            AppAction::SetLrcFilename(name) => {
                self.project.lrc_filename = Some(name);
            },
            AppAction::SetAudioFilename(name) => {
                self.project.audio_filename = Some(name);
            },
            AppAction::SelectEntry(id, mode) => {
                if let Some(doc) = &self.document.document {
                    self.view.selection.select_entry(doc, id, mode);
                }
            },
            AppAction::ClearSelection => {
                self.view.selection = SelectionState::default();
            },
            AppAction::SelectAll => {
                if let Some(doc) = &self.document.document {
                    self.view.selection.select_all(doc);
                }
            },
            AppAction::SetTime(time) => self.set_time(time),
            AppAction::SetDuration(time) => self.set_duration(time),
            AppAction::TogglePlay => {
                self.playback.playing = !self.playback.playing;
                self.playback.last_seek_request = None;
            },
            AppAction::Seek(time) => self.seek(time),
            AppAction::Undo => self.undo(),
            AppAction::Redo => self.redo(),
            AppAction::SaveHistory(source) => {
                self.push_history(source);
            },
            AppAction::DeleteSelected => self.delete_selected(),
            AppAction::ShiftSelected(delta_ms) => self.shift_selected(delta_ms),
            AppAction::ShiftBoundary(chunk_id, left_edge, both, delta_ms) => {
                self.shift_boundary(chunk_id, left_edge, both, delta_ms)
            },
            AppAction::AddChunk(start, end) => self.add_chunk(start, end),
        }
        let is_empty = self.document_all_empty();
        if is_empty && !was_empty {
            self.playback.current_time_ms = TimeMs(0);
        }
    }

    /// A time report from the player; while a seek is pending, only the
    /// report that confirms it is taken.
    fn set_time(&mut self, time: TimeMs)
        requires
            old(self).wf(),
            end_of(*old(self)) <= u32::MAX,
        ensures
            final(self).wf(),
            stepped(*old(self), AppAction::SetTime(time), *final(self)),
            final(self).playback.current_time_ms == current_after(*old(self), AppAction::SetTime(time)),
    {
        let max_dur = self.max_timeline_duration();
        let bounded = if time.0 > max_dur.0 {
            max_dur
        } else {
            time
        };
        if !self.playback.playing {
            self.playback.last_seek_request = None;
            self.playback.current_time_ms = bounded;
        } else {
            match self.playback.last_seek_request {
                Some(seek) => {
                    if bounded == seek {
                        self.playback.last_seek_request = None;
                        self.playback.current_time_ms = bounded;
                    }
                    // Otherwise a tick from before the pending seek: ignored.
                },
                None => {
                    self.playback.current_time_ms = bounded;
                },
            }
        }
    }

    fn set_duration(&mut self, time: TimeMs)
        requires
            old(self).wf(),
            timeline_end(time, doc_view(old(self).document.document)) <= u32::MAX,
        ensures
            final(self).wf(),
            stepped(*old(self), AppAction::SetDuration(time), *final(self)),
            final(self).playback.current_time_ms == current_after(*old(self), AppAction::SetDuration(time)),
    {
        self.playback.duration_ms = time;
        let max_dur = self.max_timeline_duration();
        if self.playback.current_time_ms.0 > max_dur.0 {
            self.playback.current_time_ms = max_dur;
        }
    }

    fn seek(&mut self, time: TimeMs)
        requires
            old(self).wf(),
            end_of(*old(self)) <= u32::MAX,
        ensures
            final(self).wf(),
            stepped(*old(self), AppAction::Seek(time), *final(self)),
            final(self).playback.current_time_ms == current_after(*old(self), AppAction::Seek(time)),
    {
        let max_dur = self.max_timeline_duration();
        let clamped = if time.0 > max_dur.0 {
            max_dur
        } else {
            time
        };
        self.playback.last_seek_request = Some(clamped);
        self.playback.current_time_ms = clamped;
    }

    fn undo(&mut self)
        requires
            old(self).wf(),
        ensures
            final(self).wf(),
            stepped(*old(self), AppAction::Undo, *final(self)),
            final(self).playback.current_time_ms == old(self).playback.current_time_ms,
    {
        if self.history.history_index > 0 {
            self.history.history_index = self.history.history_index - 1;
            let source = self.history.history[self.history.history_index].clone();
            self.update_document(source);
        }
    }

    fn redo(&mut self)
        requires
            old(self).wf(),
        ensures
            final(self).wf(),
            stepped(*old(self), AppAction::Redo, *final(self)),
            final(self).playback.current_time_ms == old(self).playback.current_time_ms,
    {
        let len = self.history.history.len();
        if self.history.history_index + 1 < len {
            self.history.history_index = self.history.history_index + 1;
            let source = self.history.history[self.history.history_index].clone();
            self.update_document(source);
        }
    }

    /// Replaces the source text by `text` and records it in the history.
    fn apply_edit(&mut self, text: String)
        requires
            old(self).wf(),
        ensures
            final(self).wf(),
            final(self).playback == old(self).playback,
            edited(*old(self), text@, *final(self)),
            final(self).view.selection@ == selection_after_update(old(self).view.selection@, text@),
    {
        self.update_document(text.clone());
        self.push_history(text);
    }

    fn delete_selected(&mut self)
        requires
            old(self).wf(),
        ensures
            final(self).wf(),
            stepped(*old(self), AppAction::DeleteSelected, *final(self)),
            final(self).playback.current_time_ms == old(self).playback.current_time_ms,
    {
        let text = match &self.document.document {
            Some(doc) => if self.view.selection.selected_ids().len() > 0 {
                Some(Self::deleted_source(doc, self.view.selection.selected_ids()))
            } else {
                None
            },
            None => None,
        };
        if let Some(text) = text {
            self.apply_edit(text);
        }
    }

    fn shift_selected(&mut self, delta_ms: i32)
        requires
            old(self).wf(),
            action_fits(*old(self), AppAction::ShiftSelected(delta_ms)),
        ensures
            final(self).wf(),
            stepped(*old(self), AppAction::ShiftSelected(delta_ms), *final(self)),
            final(self).playback.current_time_ms == old(self).playback.current_time_ms,
    {
        let text = match &self.document.document {
            Some(doc) => if self.view.selection.selected_ids().len() > 0 && delta_ms != 0 {
                let timeline_duration_ms = self.max_timeline_duration();
                let editor = TimelineEditor::new(doc);
                Some(
                    editor.shift_selected(
                        self.view.selection.selected_ids(),
                        delta_ms,
                        timeline_duration_ms,
                    ),
                )
            } else {
                None
            },
            None => None,
        };
        if let Some(text) = text {
            self.apply_edit(text);
        }
    }

    fn shift_boundary(&mut self, chunk_id: usize, left_edge: bool, both: bool, delta_ms: i32)
        requires
            old(self).wf(),
            action_fits(*old(self), AppAction::ShiftBoundary(chunk_id, left_edge, both, delta_ms)),
        ensures
            final(self).wf(),
            stepped(*old(self), AppAction::ShiftBoundary(chunk_id, left_edge, both, delta_ms), *final(self)),
            final(self).playback.current_time_ms == old(self).playback.current_time_ms,
    {
        let text = match &self.document.document {
            Some(doc) => if delta_ms != 0 {
                let timeline_duration_ms = self.max_timeline_duration();
                let editor = TimelineEditor::new(doc);
                Some(editor.shift_boundary(chunk_id, left_edge, both, delta_ms, timeline_duration_ms))
            } else {
                None
            },
            None => None,
        };
        if let Some(text) = text {
            self.apply_edit(text);
        }
    }

    fn add_chunk(&mut self, start: TimeMs, end: TimeMs)
        requires
            old(self).wf(),
            action_fits(*old(self), AppAction::AddChunk(start, end)),
        ensures
            final(self).wf(),
            stepped(*old(self), AppAction::AddChunk(start, end), *final(self)),
            final(self).playback.current_time_ms == old(self).playback.current_time_ms,
    {
        if start.0 < end.0 {
            let doc_to_use = match &self.document.document {
                Some(doc) => doc.clone(),
                None => LrcDocument::new(Vec::new(), Vec::new(), 0),
            };
            let timeline_duration_ms = self.max_timeline_duration();
            let text = {
                let editor = TimelineEditor::new(&doc_to_use);
                editor.add_chunk(start, end, timeline_duration_ms)
            };
            let new_uid = self.document.next_uid;
            self.apply_edit(text);
            if let Some(new_doc) = &self.document.document {
                let to_select = Self::added_target(new_doc, start, new_uid);
                self.view.selection.select_entry(new_doc, to_select, SelectionMode::Replace);
            }
        }
    }

    /// The identity to select after a chunk was added: the first `*CHANGE ME*`
    /// lyric nearest to `start`, else the first identity from `new_uid` on,
    /// else `new_uid`.
    fn added_target(doc: &LrcDocument, start: TimeMs, new_uid: usize) -> (r: usize)
        ensures
            r == add_target(doc@.entries, start, new_uid),
    {
        let entries = doc.entries();
        let mut label = String::new();
        crate::text::push_text(&mut label, "*CHANGE ME*");
        let mut best: Option<(usize, i64)> = None;
        let mut i: usize = 0;
        while i < entries.len()
            invariant
                i <= entries@.len(),
                entries@ == doc@.entries,
                label@ == "*CHANGE ME*"@,
                match best {
                    Some((k, d)) => {
                        &&& k < i
                        &&& is_change_me(entries@[k as int])
                        &&& d == start_distance(entries@[k as int], start)
                        &&& forall|j: int|
                            0 <= j < i && is_change_me(#[trigger] entries@[j]) ==> d
                                <= start_distance(entries@[j], start)
                        &&& forall|j: int|
                            0 <= j < k && is_change_me(#[trigger] entries@[j]) ==> d
                                < start_distance(entries@[j], start)
                    },
                    None => forall|j: int| 0 <= j < i ==> !is_change_me(#[trigger] entries@[j]),
                },
            decreases entries@.len() - i,
        {
            let e = &entries[i];
            if e.display_text == label {
                let t: i64 = (e.time.0 as i32) as i64;
                let s0: i64 = (start.0 as i32) as i64;
                let diff: i64 = t - s0;
                let d: i64 = if diff < 0 {
                    -diff
                } else {
                    diff
                };
                let better = match best {
                    Some((_, bd)) => d < bd,
                    None => true,
                };
                if better {
                    best = Some((i, d));
                }
            }
            i = i + 1;
        }
        match best {
            Some((k, _)) => {
                proof {
                    assert(is_nearest_change_me(entries@, start, k as int));
                    let c = choose|c: int| is_nearest_change_me(entries@, start, c);
                    lemma_nearest_unique(entries@, start, k as int, c);
                }
                entries[k].uid
            },
            None => {
                proof {
                    assert forall|c: int| !is_nearest_change_me(entries@, start, c) by {
                        if 0 <= c < entries@.len() {
                            assert(!is_change_me(entries@[c]));
                        }
                    }
                }
                let mut j: usize = 0;
                while j < entries.len()
                    invariant
                        j <= entries@.len(),
                        entries@ == doc@.entries,
                        forall|c: int| !is_nearest_change_me(entries@, start, c),
                        forall|m: int| 0 <= m < j ==> (#[trigger] entries@[m]).uid < new_uid,
                    decreases entries@.len() - j,
                {
                    if entries[j].uid >= new_uid {
                        proof {
                            assert(is_first_uid_at_least(entries@, new_uid, j as int));
                            let c = choose|c: int| is_first_uid_at_least(entries@, new_uid, c);
                            if c < j {
                                assert(entries@[c].uid < new_uid);
                            } else if j < c {
                                assert(entries@[j as int].uid < new_uid);
                            }
                        }
                        return entries[j].uid;
                    }
                    j = j + 1;
                }
                proof {
                    assert forall|c: int| !is_first_uid_at_least(entries@, new_uid, c) by {
                        if 0 <= c < entries@.len() {
                            assert(entries@[c].uid < new_uid);
                        }
                    }
                }
                new_uid
            },
        }
    }
}

/// Two entries that are both the first nearest `*CHANGE ME*` are the same.
proof fn lemma_nearest_unique(es: Seq<LyricEntry>, start: TimeMs, a: int, b: int)
    requires
        is_nearest_change_me(es, start, a),
        is_nearest_change_me(es, start, b),
    ensures
        a == b,
{
    if a < b {
        assert(is_change_me(es[a]));
    } else if b < a {
        assert(is_change_me(es[b]));
    }
}

pub(crate) fn contains_uid(ids: &[usize], uid: usize) -> (r: bool)
    ensures
        r == ids@.contains(uid),
{
    let mut i: usize = 0;
    while i < ids.len()
        invariant
            i <= ids@.len(),
            forall|j: int| 0 <= j < i ==> ids@[j] != uid,
        decreases ids@.len() - i,
    {
        if ids[i] == uid {
            return true;
        }
        i = i + 1;
    }
    false
}


// ---------------------------------------------------------------------------
// Laws
// ---------------------------------------------------------------------------

/// Undoing right after recording a text brings back the text that was current
/// in the history before it, and leaves the recorded text to redo.
pub proof fn lemma_undo_after_save(s0: AppState, src: String, s1: AppState, s2: AppState)
    requires
        s0.wf(),
        reduced(s0, AppAction::SaveHistory(src), s1),
        reduced(s1, AppAction::Undo, s2),
    ensures
        s2.history.history_index == s0.history.history_index,
        s2.document.source_text@ == history_view(s0.history)[s0.history.history_index as int],
        history_view(s2.history)[s2.history.history_index + 1] == src@,
{
    let i = s0.history.history_index as int;
    assert(history_view(s1.history) == history_view(s0.history).take(i + 1).push(src@));
    assert(history_view(s1.history)[i] == history_view(s0.history)[i]);
}

/// Redoing right after an undo returns to the same history position and text.
pub proof fn lemma_redo_after_undo(s0: AppState, s1: AppState, s2: AppState)
    requires
        s0.wf(),
        s0.history.history_index > 0,
        reduced(s0, AppAction::Undo, s1),
        reduced(s1, AppAction::Redo, s2),
    ensures
        s2.history == s0.history,
        s2.document.source_text@ == history_view(s0.history)[s0.history.history_index as int],
{
}

/// A seek never moves the playhead past the end of the timeline, and lands
/// exactly where asked when that is within it.
pub proof fn lemma_seek_within_timeline(s0: AppState, t: TimeMs, s1: AppState)
    requires
        end_of(s0) <= u32::MAX,
        reduced(s0, AppAction::Seek(t), s1),
    ensures
        s1.playback.current_time_ms.0 <= end_of(s0),
        t.0 <= end_of(s0) ==> s1.playback.current_time_ms == t,
        s1.playback.last_seek_request == Some(s1.playback.current_time_ms),
{
}

/// A time report never moves the playhead past the end of the timeline.
pub proof fn lemma_set_time_within_timeline(s0: AppState, t: TimeMs, s1: AppState)
    requires
        s0.playback.current_time_ms.0 <= end_of(s0) <= u32::MAX,
        reduced(s0, AppAction::SetTime(t), s1),
    ensures
        s1.playback.current_time_ms.0 <= end_of(s1),
{
}


/// The selection names only lyrics of the current document (whose lyrics are
/// numbered by position); without a document nothing is selected.
pub open spec fn selection_names_lyrics(doc: Option<LrcDocumentView>, sel: SelectionView) -> bool {
    match doc {
        Some(v) => numbered(v.entries) && selection_within(sel, v.entries.len()),
        None => sel.selected.len() == 0 && sel.anchor is None,
    }
}

pub open spec fn selection_valid(s: AppState) -> bool {
    selection_names_lyrics(doc_view(s.document.document), s.view.selection@)
}

proof fn lemma_update_keeps_selection_valid(
    d0: DocumentState,
    sel0: SelectionView,
    src: Seq<char>,
    d1: DocumentState,
)
    requires
        selection_names_lyrics(doc_view(d0.document), sel0),
        document_updated(d0, src, d1),
    ensures
        selection_names_lyrics(doc_view(d1.document), selection_after_update(sel0, src)),
{
    broadcast use vstd::seq_lib::group_filter_ensures;

    if parse_fits(src) {
        match spec_parse(src) {
            Ok(m) => {
                let v = d1.document->0@;
                assert(v.entries.map_values(|e: LyricEntry| crate::parser::model_of(e)) == m.entries);
                assert(v.entries.len() == m.entries.len());
                let p = pruned(sel0, m.entries.len());
                assert forall|i: int| 0 <= i < p.selected.len() implies (#[trigger] p.selected[i]) < v.entries.len() by {
                    let f = |id: usize| id < m.entries.len();
                    assert(sel0.selected.filter(f)[i] == p.selected[i]);
                    assert(f(p.selected[i]));
                }
                assert(numbered(v.entries));
            },
            Err(_) => {},
        }
    }
}

/// The selection only ever names lyrics of the current document: every action
/// keeps it so.
pub proof fn lemma_selection_stays_valid(s0: AppState, a: AppAction, s1: AppState)
    requires
        selection_valid(s0),
        reduced(s0, a, s1),
    ensures
        selection_valid(s1),
{
    let sel0 = s0.view.selection@;
    match a {
        AppAction::UpdateSource(src) => {
            lemma_update_keeps_selection_valid(s0.document, sel0, src@, s1.document);
        },
        AppAction::SelectEntry(id, mode) => {
            match doc_view(s0.document.document) {
                Some(v) => if id < v.entries.len() {
                    lemma_select_within(sel0, v.entries, id, mode);
                },
                None => {},
            }
        },
        AppAction::SelectAll => {
            match doc_view(s0.document.document) {
                Some(v) => {
                    lemma_nonempty_ids_within(v.entries, 0, usize::MAX as int);
                },
                None => {},
            }
        },
        AppAction::Undo => if s0.history.history_index > 0 {
            let src = history_view(s0.history)[s0.history.history_index - 1];
            lemma_update_keeps_selection_valid(s0.document, sel0, src, s1.document);
        },
        AppAction::Redo => if s0.history.history_index + 1 < s0.history.history@.len() {
            let src = history_view(s0.history)[s0.history.history_index + 1];
            lemma_update_keeps_selection_valid(s0.document, sel0, src, s1.document);
        },
        AppAction::DeleteSelected => match doc_view(s0.document.document) {
            Some(v) => if sel0.selected.len() > 0 {
                let text = deleted_text(v, sel0.selected);
                lemma_update_keeps_selection_valid(s0.document, sel0, text, s1.document);
            },
            None => {},
        },
        AppAction::ShiftSelected(d) => match doc_view(s0.document.document) {
            Some(v) => if sel0.selected.len() > 0 && d != 0 {
                let text = lrc_text(
                    v.metadata,
                    prepared(
                        spec_preview(
                            v.entries,
                            TimeMs(end_of(s0) as u32),
                            sel0.selected,
                            DragTarget::Body,
                            None,
                            d,
                        ),
                    ),
                );
                lemma_update_keeps_selection_valid(s0.document, sel0, text, s1.document);
            },
            None => {},
        },
        AppAction::ShiftBoundary(id, left_edge, both, d) => match doc_view(s0.document.document) {
            Some(v) => if d != 0 {
                let text = lrc_text(
                    v.metadata,
                    prepared(
                        spec_preview(
                            v.entries,
                            TimeMs(end_of(s0) as u32),
                            Seq::empty(),
                            boundary_mode(left_edge, both),
                            Some(id),
                            d,
                        ),
                    ),
                );
                lemma_update_keeps_selection_valid(s0.document, sel0, text, s1.document);
            },
            None => {},
        },
        AppAction::AddChunk(start, end) => if start.0 < end.0 {
            let base = match doc_view(s0.document.document) {
                Some(v) => v,
                None => empty_view(),
            };
            let text = added_text(base, start, end, TimeMs(end_of(s0) as u32));
            lemma_update_keeps_selection_valid(s0.document, sel0, text, s1.document);
            match doc_view(s1.document.document) {
                Some(nv) => {
                    let target = add_target(nv.entries, start, s0.document.next_uid);
                    if target < nv.entries.len() {
                        lemma_select_within(selection_after_update(sel0, text), nv.entries, target, SelectionMode::Replace);
                    }
                },
                None => {},
            }
        },
        _ => {},
    }
}

} // verus!
