//! A parsed LRC document and the queries the editor makes of it.
use vstd::prelude::*;

use crate::entry::{entry_consistent, LyricEntry, TimelineChunk};
use crate::metadata::MetadataTag;
use crate::time::{spec_timestamp, TimeMs};
use crate::text::push_text;

verus! {

/// Parsed LRC document state used by the UI.
#[derive(Debug, PartialEq, Eq)]
pub struct LrcDocument {
    entries: Vec<LyricEntry>,
    metadata: Vec<MetadataTag>,
    line_count: usize,
}

/// The abstract content of a document.
pub struct LrcDocumentView {
    pub entries: Seq<LyricEntry>,
    pub metadata: Seq<MetadataTag>,
    pub line_count: nat,
}

/// Entries are numbered by position, ordered by time, and their derived
/// fields agree with their time and text.
pub open spec fn entries_wf(entries: Seq<LyricEntry>) -> bool {
    &&& forall|i: int| 0 <= i < entries.len() ==> (#[trigger] entries[i]).id == i
    &&& forall|i: int, j: int|
        0 <= i <= j < entries.len() ==> (#[trigger] entries[i]).time.0 <= (#[trigger] entries[j]).time.0
    &&& forall|i: int| 0 <= i < entries.len() ==> entry_consistent(#[trigger] entries[i])
}

impl View for LrcDocument {
    type V = LrcDocumentView;

    closed spec fn view(&self) -> LrcDocumentView {
        LrcDocumentView {
            entries: self.entries@,
            metadata: self.metadata@,
            line_count: self.line_count as nat,
        }
    }
}

impl Clone for LrcDocument {
    fn clone(&self) -> (r: Self)
        ensures
            r@ == self@,
    {
        proof {
            use_type_invariant(self);
        }
        let mut entries: Vec<LyricEntry> = Vec::new();
        let mut i: usize = 0;
        while i < self.entries.len()
            invariant
                i <= self.entries@.len(),
                entries@ == self.entries@.take(i as int),
            decreases self.entries@.len() - i,
        {
            entries.push(self.entries[i].copy());
            i = i + 1;
            assert(entries@ =~= self.entries@.take(i as int));
        }
        let mut metadata: Vec<MetadataTag> = Vec::new();
        let mut j: usize = 0;
        while j < self.metadata.len()
            invariant
                j <= self.metadata@.len(),
                metadata@ == self.metadata@.take(j as int),
            decreases self.metadata@.len() - j,
        {
            metadata.push(self.metadata[j].copy());
            j = j + 1;
            assert(metadata@ =~= self.metadata@.take(j as int));
        }
        assert(entries@ =~= self.entries@);
        assert(metadata@ =~= self.metadata@);
        LrcDocument { entries, metadata, line_count: self.line_count }
    }
}

impl LrcDocument {
    #[verifier::type_invariant]
    pub open spec fn wf(self) -> bool {
        entries_wf(self@.entries)
    }

    pub(crate) fn new(entries: Vec<LyricEntry>, metadata: Vec<MetadataTag>, line_count: usize) -> (r:
        LrcDocument)
        requires
            entries_wf(entries@),
        ensures
            r@.entries == entries@,
            r@.metadata == metadata@,
            r@.line_count == line_count,
    {
        LrcDocument { entries, metadata, line_count }
    }

    /// Timed entries sorted by timestamp.
    pub fn entries(&self) -> (r: &[LyricEntry])
        ensures
            r@ == self@.entries,
            entries_wf(r@),
    {
        proof {
            use_type_invariant(self);
        }
        self.entries.as_slice()
    }

    /// Untimed metadata tags.
    pub fn metadata(&self) -> (r: &[MetadataTag])
        ensures
            r@ == self@.metadata,
    {
        self.metadata.as_slice()
    }

    /// Number of source lines.
    pub fn line_count(&self) -> (r: usize)
        ensures
            r == self@.line_count,
    {
        self.line_count
    }

    /// Last timed lyric position, if any.
    pub fn last_entry_time_ms(&self) -> (r: Option<TimeMs>)
        ensures
            r == (if self@.entries.len() == 0 {
                None
            } else {
                Some(self@.entries.last().time)
            }),
    {
        if self.entries.len() == 0 {
            None
        } else {
            Some(self.entries[self.entries.len() - 1].time)
        }
    }

    /// Find an entry by stable id.
    pub fn entry_by_id(&self, id: usize) -> (r: Option<&LyricEntry>)
        ensures
            r == (if id < self@.entries.len() {
                Some(&self@.entries[id as int])
            } else {
                None
            }),
    {
        proof {
            use_type_invariant(self);
        }
        let mut i: usize = 0;
        while i < self.entries.len()
            invariant
                i <= self.entries@.len(),
                entries_wf(self.entries@),
                forall|j: int| 0 <= j < i ==> (#[trigger] self.entries@[j]).id != id,
            decreases self.entries@.len() - i,
        {
            if self.entries[i].id == id {
                return Some(&self.entries[i]);
            }
            i = i + 1;
        }
        proof {
            if id < self.entries@.len() {
                assert(self.entries@[id as int].id == id);
            }
        }
        None
    }

    /// Entry active at `time_ms`, using standard LRC "latest timestamp wins" behavior.
    pub fn current_entry(&self, time_ms: TimeMs) -> (r: Option<&LyricEntry>)
        ensures
            r is None <==> (self@.entries.len() == 0 || time_ms.0 < self@.entries[0].time.0),
            r matches Some(e) ==> exists|i: int|
                {
                    &&& 0 <= i < self@.entries.len()
                    &&& *e == #[trigger] self@.entries[i]
                    &&& self@.entries[i].time.0 <= time_ms.0
                    &&& i + 1 < self@.entries.len() ==> time_ms.0 < self@.entries[i + 1].time.0
                },
    {
        proof {
            use_type_invariant(self);
        }
        let len = self.entries.len();
        if len == 0 || time_ms.0 < self.entries[0].time.0 {
            return None;
        }
        // Binary search for the first entry later than `time_ms`.
        let mut lo: usize = 0;
        let mut hi: usize = len;
        while lo < hi
            invariant
                0 <= lo <= hi <= len,
                len == self.entries@.len(),
                entries_wf(self.entries@),
                forall|j: int| 0 <= j < lo ==> (#[trigger] self.entries@[j]).time.0 <= time_ms.0,
                forall|j: int| hi <= j < len ==> time_ms.0 < (#[trigger] self.entries@[j]).time.0,
            decreases hi - lo,
        {
            let mid = lo + (hi - lo) / 2;
            if self.entries[mid].time.0 <= time_ms.0 {
                lo = mid + 1;
            } else {
                hi = mid;
            }
        }
        let p = lo;
        proof {
            assert(self.entries@[0].time.0 <= time_ms.0);
            assert(p > 0);
        }
        let e = &self.entries[p - 1];
        proof {
            let i = p - 1;
            assert(self.entries@[i].time.0 <= time_ms.0);
        }
        Some(e)
    }

    /// The previous entry relative to an active id.
    pub fn previous_entry_id(&self, id: usize) -> (r: Option<usize>)
        ensures
            r == (if 1 <= id < self@.entries.len() {
                Some((id - 1) as usize)
            } else {
                None
            }),
    {
        proof {
            use_type_invariant(self);
        }
        match self.position_of_id(id) {
            Some(index) => {
                if index == 0 {
                    None
                } else {
                    Some(self.entries[index - 1].id)
                }
            },
            None => None,
        }
    }

    /// The next entry relative to an active id.
    pub fn next_entry_id(&self, id: usize) -> (r: Option<usize>)
        ensures
            r == (if id + 1 < self@.entries.len() {
                Some((id + 1) as usize)
            } else {
                None
            }),
    {
        proof {
            use_type_invariant(self);
        }
        match self.position_of_id(id) {
            Some(index) => {
                if index < self.entries.len() - 1 {
                    Some(self.entries[index + 1].id)
                } else {
                    None
                }
            },
            None => None,
        }
    }

    /// Position of the entry with the given id.
    fn position_of_id(&self, id: usize) -> (r: Option<usize>)
        ensures
            r == (if id < self@.entries.len() {
                Some(id)
            } else {
                None
            }),
    {
        proof {
            use_type_invariant(self);
        }
        let mut i: usize = 0;
        while i < self.entries.len()
            invariant
                i <= self.entries@.len(),
                entries_wf(self.entries@),
                forall|j: int| 0 <= j < i ==> (#[trigger] self.entries@[j]).id != id,
            decreases self.entries@.len() - i,
        {
            if self.entries[i].id == id {
                return Some(i);
            }
            i = i + 1;
        }
        proof {
            if id < self.entries@.len() {
                assert(self.entries@[id as int].id == id);
            }
        }
        None
    }

    /// The identity of the entry after the first entry with identity `uid`.
    pub(crate) fn next_entry_uid(&self, uid: usize) -> (r: Option<usize>)
        ensures
            r == next_uid_after(self@.entries, uid),
    {
        let mut i: usize = 0;
        while i < self.entries.len()
            invariant
                i <= self.entries@.len(),
                forall|j: int| 0 <= j < i ==> (#[trigger] self.entries@[j]).uid != uid,
            decreases self.entries@.len() - i,
        {
            if self.entries[i].uid == uid {
                proof {
                    assert(is_first_uid(self.entries@, uid, i as int));
                    lemma_first_uid_unique(self.entries@, uid, i as int);
                }
                if i + 1 < self.entries.len() {
                    return Some(self.entries[i + 1].uid);
                } else {
                    return None;
                }
            }
            i = i + 1;
        }
        None
    }

    /// One timeline chunk per entry, from its time to the next entry's time (or
    /// `duration_ms` for the last), with empty lyrics flagged by `is_empty`.
    pub fn timeline_chunks(&self, duration_ms: TimeMs) -> (r: Vec<TimelineChunk>)
        ensures
            r@.len() == self@.entries.len(),
            forall|i: int|
                0 <= i < r@.len() ==> chunk_of_entry(#[trigger] r@[i], self@.entries, i, duration_ms),
    {
        let mut chunks: Vec<TimelineChunk> = Vec::new();
        let mut i: usize = 0;
        while i < self.entries.len()
            invariant
                i <= self.entries@.len(),
                chunks@.len() == i,
                forall|k: int|
                    0 <= k < i ==> chunk_of_entry(#[trigger] chunks@[k], self.entries@, k, duration_ms),
            decreases self.entries@.len() - i,
        {
            let entry = &self.entries[i];
            let end_ms = if i + 1 < self.entries.len() {
                self.entries[i + 1].time
            } else {
                duration_ms
            };
            chunks.push(
                TimelineChunk {
                    entry_id: entry.id,
                    uid: entry.uid,
                    color_index: entry.color_index,
                    start_ms: entry.time,
                    end_ms,
                    text: entry.display_text.clone(),
                    raw_text: entry.text.clone(),
                    is_empty: entry.is_empty(),
                },
            );
            i = i + 1;
        }
        chunks
    }

    /// Regenerate the LRC source text from current metadata and entries.
    pub fn to_source_text(&self) -> (s: String)
        ensures
            s@ == metadata_text(self@.metadata) + entries_text(self@.entries),
    {
        source_text_of(self.metadata.as_slice(), self.entries.as_slice())
    }
}

/// LRC text of metadata tags followed by entries.
pub(crate) fn source_text_of(metadata: &[MetadataTag], entries: &[LyricEntry]) -> (s: String)
    ensures
        s@ == metadata_text(metadata@) + entries_text(entries@),
{
    let mut text = String::new();
    let mut i: usize = 0;
    while i < metadata.len()
        invariant
            i <= metadata@.len(),
            text@ == metadata_text(metadata@.take(i as int)),
        decreases metadata@.len() - i,
    {
        push_metadata_line(&mut text, &metadata[i]);
        i = i + 1;
        assert(metadata@.take(i as int).drop_last() =~= metadata@.take(i - 1));
    }
    assert(metadata@.take(i as int) =~= metadata@);
    let ghost head = text@;
    let mut j: usize = 0;
    while j < entries.len()
        invariant
            j <= entries@.len(),
            head == metadata_text(metadata@),
            text@ == head + entries_text(entries@.take(j as int)),
        decreases entries@.len() - j,
    {
        let entry = &entries[j];
        text.push('[');
        entry.time.push_timestamp(&mut text);
        text.push(']');
        push_text(&mut text, entry.text.as_str());
        text.push('\n');
        j = j + 1;
        assert(entries@.take(j as int).drop_last() =~= entries@.take(j - 1));
        assert(text@ =~= head + entries_text(entries@.take(j as int)));
    }
    assert(entries@.take(j as int) =~= entries@);
    text
}

/// Appends `[key:value]` and a newline.
pub(crate) fn push_metadata_line(text: &mut String, tag: &MetadataTag)
    ensures
        final(text)@ == old(text)@ + metadata_line(*tag),
{
    let ghost before = text@;
    text.push('[');
    push_text(text, tag.key.as_str());
    text.push(':');
    push_text(text, tag.value.as_str());
    text.push(']');
    text.push('\n');
    assert(text@ =~= before + metadata_line(*tag));
}

/// `[key:value]` followed by a newline.
pub open spec fn metadata_line(tag: MetadataTag) -> Seq<char> {
    seq!['['] + tag.key@ + seq![':'] + tag.value@ + seq![']', '\n']
}

/// The metadata lines of a document, in order.
pub open spec fn metadata_text(tags: Seq<MetadataTag>) -> Seq<char>
    decreases tags.len(),
{
    if tags.len() == 0 {
        Seq::empty()
    } else {
        metadata_text(tags.drop_last()) + metadata_line(tags.last())
    }
}

/// `[mm:ss.cc]text` followed by a newline.
pub open spec fn entry_line(e: LyricEntry) -> Seq<char> {
    seq!['['] + spec_timestamp(e.time.0) + seq![']'] + e.text@ + seq!['\n']
}

/// The entry lines of a document, in order.
pub open spec fn entries_text(entries: Seq<LyricEntry>) -> Seq<char>
    decreases entries.len(),
{
    if entries.len() == 0 {
        Seq::empty()
    } else {
        entries_text(entries.drop_last()) + entry_line(entries.last())
    }
}

/// The chunk drawn for entry `i`: it spans from the entry's time to the next
/// entry's time (or the timeline's end) and carries the entry's texts.
pub open spec fn chunk_of_entry(c: TimelineChunk, entries: Seq<LyricEntry>, i: int, duration: TimeMs) -> bool {
    &&& c.entry_id == entries[i].id
    &&& c.uid == entries[i].uid
    &&& c.color_index == entries[i].color_index
    &&& c.start_ms == entries[i].time
    &&& c.end_ms == (if i + 1 < entries.len() {
        entries[i + 1].time
    } else {
        duration
    })
    &&& c.text@ == entries[i].display_text@
    &&& c.raw_text@ == entries[i].text@
    &&& c.is_empty == (entries[i].display_text@.len() == 0)
}

pub open spec fn is_first_uid(entries: Seq<LyricEntry>, uid: usize, i: int) -> bool {
    &&& 0 <= i < entries.len()
    &&& entries[i].uid == uid
    &&& forall|j: int| 0 <= j < i ==> (#[trigger] entries[j]).uid != uid
}

/// The identity following the first entry with identity `uid`.
pub open spec fn next_uid_after(entries: Seq<LyricEntry>, uid: usize) -> Option<usize> {
    if exists|i: int| is_first_uid(entries, uid, i) {
        let i = choose|i: int| is_first_uid(entries, uid, i);
        if i + 1 < entries.len() {
            Some(entries[i + 1].uid)
        } else {
            None
        }
    } else {
        None
    }
}

proof fn lemma_first_uid_unique(entries: Seq<LyricEntry>, uid: usize, i: int)
    requires
        is_first_uid(entries, uid, i),
    ensures
        (choose|k: int| is_first_uid(entries, uid, k)) == i,
{
    let k = choose|k: int| is_first_uid(entries, uid, k);
    if k < i {
        assert(entries[k].uid != uid);
    } else if i < k {
        assert(entries[i].uid != uid);
    }
}

/// Consecutive chunks meet: each ends where the next starts, and the last ends
/// at the timeline's end.
pub proof fn lemma_chunks_tile(chunks: Seq<TimelineChunk>, entries: Seq<LyricEntry>, duration: TimeMs)
    requires
        chunks.len() == entries.len(),
        forall|i: int| 0 <= i < chunks.len() ==> chunk_of_entry(#[trigger] chunks[i], entries, i, duration),
    ensures
        forall|i: int| 0 <= i < chunks.len() - 1 ==> (#[trigger] chunks[i]).end_ms == chunks[i + 1].start_ms,
        chunks.len() > 0 ==> chunks.last().end_ms == duration,
{
    assert forall|i: int| 0 <= i < chunks.len() - 1 implies (#[trigger] chunks[i]).end_ms == chunks[i
        + 1].start_ms by {
        assert(chunk_of_entry(chunks[i + 1], entries, i + 1, duration));
    }
    if chunks.len() > 0 {
        assert(chunk_of_entry(chunks[chunks.len() - 1], entries, chunks.len() - 1, duration));
    }
}

} // verus!
