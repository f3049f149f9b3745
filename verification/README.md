# lcs_editor

The core of a synced-lyrics (LRC) editor, verified with Verus: the LRC parser
and writer, the document model, chunk selection, timeline editing (moving,
resizing and adding lyric chunks), snapping, source highlighting, and the
editor state with its reducer.

Layout:

- `src/text.rs` — character-level text model (digits, white space, UTF-8 and
  UTF-16 lengths, searching) shared by everything else.
- `src/time.rs` — millisecond times, the `mm:ss.xx` tag and its round trip.
- `src/parser.rs`, `src/metadata.rs`, `src/entry.rs`, `src/document.rs` — the
  LRC grammar as a specification, the parser proved against it, and the
  document queries (current lyric, neighbours, timeline chunks, LRC text).
- `src/reparse.rs` — the written LRC text of a parsed document reads back as
  the same document.
- `src/selection.rs` — click, toggle and range selection of chunks.
- `src/timeline.rs` — drag previews, overlap resolution and LRC output.
- `src/snap.rs` — snapping the playhead and dragged edges.
- `src/highlight.rs` — highlighting of the source text and caret offsets.
- `src/state.rs` — the editor state, the reducer, and its laws.
- `app/` — the native entry point and the floating-point screen geometry and
  zoom of the browser front end.
- `tests/` — tests of the library on concrete values.
