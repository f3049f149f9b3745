//! Timed lyric entries and the chunks the timeline draws for them.
use vstd::prelude::*;

use crate::parser::SourceLine;
use crate::text::trim;
use crate::time::{spec_timestamp, TimeMs};

verus! {

/// A timed lyric line after expanding repeated timestamps.
#[derive(Clone, Debug, PartialEq, Eq)]
pub struct LyricEntry {
    /// Position in timestamp-sorted order.
    pub id: usize,
    /// Identity used by selections and timeline edits.
    pub uid: usize,
    /// Colour index for visual distinction.
    pub color_index: u8,
    pub time: TimeMs,
    /// `time` written as an LRC timestamp.
    pub timestamp: String,
    /// Raw lyric text after the timestamp prefix.
    pub text: String,
    /// `text` without surrounding white space.
    pub display_text: String,
    pub source_line: SourceLine,
    /// Order in which the parser produced the entry.
    pub source_order: usize,
    pub lyric_start_utf16: usize,
    pub lyric_end_utf16: usize,
}

/// The derived fields of an entry agree with its time and text.
pub open spec fn entry_consistent(e: LyricEntry) -> bool {
    &&& e.timestamp@ == spec_timestamp(e.time.0)
    &&& e.display_text@ == trim(e.text@)
}

impl LyricEntry {
    /// Stable id in timestamp-sorted order.
    pub fn id(&self) -> (r: usize)
        ensures
            r == self.id,
    {
        self.id
    }

    /// Identity used by selections and timeline edits.
    pub fn uid(&self) -> (r: usize)
        ensures
            r == self.uid,
    {
        self.uid
    }

    /// Color index for visual distinction.
    pub fn color_index(&self) -> (r: u8)
        ensures
            r == self.color_index,
    {
        self.color_index
    }

    /// Timestamp in milliseconds.
    pub fn time_ms(&self) -> (r: TimeMs)
        ensures
            r == self.time,
    {
        self.time
    }

    /// LRC timestamp formatted as `mm:ss.cc`.
    pub fn timestamp(&self) -> (r: &str)
        ensures
            r@ == self.timestamp@,
    {
        self.timestamp.as_str()
    }

    /// Raw lyric text after the timestamp prefix.
    pub fn text(&self) -> (r: &str)
        ensures
            r@ == self.text@,
    {
        self.text.as_str()
    }

    /// Trimmed text used for previews and timeline chunks.
    pub fn display_text(&self) -> (r: &str)
        ensures
            r@ == self.display_text@,
    {
        self.display_text.as_str()
    }

    /// Whether this entry should be omitted from the chunk lane.
    pub fn is_empty(&self) -> (r: bool)
        ensures
            r == (self.display_text@.len() == 0),
    {
        self.display_text.as_str().is_empty()
    }

    /// UTF-16 selection start for the lyric portion in the source textarea.
    pub fn lyric_start_utf16(&self) -> (r: usize)
        ensures
            r == self.lyric_start_utf16,
    {
        self.lyric_start_utf16
    }

    /// UTF-16 selection end for the lyric portion in the source textarea.
    pub fn lyric_end_utf16(&self) -> (r: usize)
        ensures
            r == self.lyric_end_utf16,
    {
        self.lyric_end_utf16
    }

    /// A field-by-field copy.
    pub fn copy(&self) -> (r: LyricEntry)
        ensures
            r == *self,
    {
        LyricEntry {
            id: self.id,
            uid: self.uid,
            color_index: self.color_index,
            time: self.time,
            timestamp: self.timestamp.clone(),
            text: self.text.clone(),
            display_text: self.display_text.clone(),
            source_line: self.source_line,
            source_order: self.source_order,
            lyric_start_utf16: self.lyric_start_utf16,
            lyric_end_utf16: self.lyric_end_utf16,
        }
    }
}

/// A lyric chunk ready for timeline rendering.
#[derive(Clone, Debug, PartialEq, Eq)]
pub struct TimelineChunk {
    pub entry_id: usize,
    pub uid: usize,
    pub color_index: u8,
    pub start_ms: TimeMs,
    pub end_ms: TimeMs,
    /// Visible (trimmed) text.
    pub text: String,
    /// The untrimmed text.
    pub raw_text: String,
    pub is_empty: bool,
}

impl TimelineChunk {
    /// Entry id represented by this chunk.
    pub fn entry_id(&self) -> (r: usize)
        ensures
            r == self.entry_id,
    {
        self.entry_id
    }

    /// Stable unique id.
    pub fn uid(&self) -> (r: usize)
        ensures
            r == self.uid,
    {
        self.uid
    }

    /// Color index.
    pub fn color_index(&self) -> (r: u8)
        ensures
            r == self.color_index,
    {
        self.color_index
    }

    /// Chunk start timestamp.
    pub fn start_ms(&self) -> (r: TimeMs)
        ensures
            r == self.start_ms,
    {
        self.start_ms
    }

    /// Chunk end timestamp.
    pub fn end_ms(&self) -> (r: TimeMs)
        ensures
            r == self.end_ms,
    {
        self.end_ms
    }

    /// Visible text on the chunk.
    pub fn text(&self) -> (r: &str)
        ensures
            r@ == self.text@,
    {
        self.text.as_str()
    }

    /// The untrimmed text.
    pub fn raw_text(&self) -> (r: &str)
        ensures
            r@ == self.raw_text@,
    {
        self.raw_text.as_str()
    }

    /// Whether this chunk represents an empty gap.
    pub fn is_empty(&self) -> (r: bool)
        ensures
            r == self.is_empty,
    {
        self.is_empty
    }

    /// A field-by-field copy.
    pub fn clone_chunk(&self) -> (r: TimelineChunk)
        ensures
            r == *self,
    {
        TimelineChunk {
            entry_id: self.entry_id,
            uid: self.uid,
            color_index: self.color_index,
            start_ms: self.start_ms,
            end_ms: self.end_ms,
            text: self.text.clone(),
            raw_text: self.raw_text.clone(),
            is_empty: self.is_empty,
        }
    }
}

} // verus!
