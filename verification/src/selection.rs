//! Which lyric chunks are selected, and how clicks change that.
use vstd::prelude::*;

use crate::document::{entries_wf, LrcDocument};
use crate::entry::LyricEntry;

verus! {

broadcast use vstd::seq_lib::group_to_multiset_ensures;

/// How a chunk click should update selection.
#[derive(Clone, Copy, Debug, PartialEq, Eq, Structural)]
pub enum SelectionMode {
    /// Replace selection with the clicked chunk.
    Replace,
    /// Toggle the clicked chunk.
    Toggle,
    /// Expand from the anchor to the clicked chunk.
    Range,
}

/// Selected lyric chunk ids and range anchor.
#[derive(Debug, PartialEq, Eq)]
pub struct SelectionState {
    selected_ids: Vec<usize>,
    anchor_id: Option<usize>,
}

/// The abstract content of a selection.
pub struct SelectionView {
    pub selected: Seq<usize>,
    pub anchor: Option<usize>,
}

impl View for SelectionState {
    type V = SelectionView;

    closed spec fn view(&self) -> SelectionView {
        SelectionView { selected: self.selected_ids@, anchor: self.anchor_id }
    }
}

/// Ids of the non-empty entries whose id lies in `lo..=hi`, in document order.
pub open spec fn nonempty_ids_between(entries: Seq<LyricEntry>, lo: int, hi: int) -> Seq<usize>
    decreases entries.len(),
{
    if entries.len() == 0 {
        Seq::empty()
    } else {
        let rest = nonempty_ids_between(entries.drop_last(), lo, hi);
        let e = entries.last();
        if e.display_text@.len() != 0 && lo <= e.id <= hi {
            rest.push(e.id)
        } else {
            rest
        }
    }
}

/// Ascending order.
pub open spec fn ascending(s: Seq<usize>) -> bool {
    forall|i: int, j: int| 0 <= i <= j < s.len() ==> (#[trigger] s[i]) <= (#[trigger] s[j])
}

/// `s` with its first occurrence of `x` removed.
pub open spec fn remove_first(s: Seq<usize>, x: usize) -> Seq<usize> {
    if s.contains(x) {
        let i = choose|i: int| 0 <= i < s.len() && s[i] == x && forall|j: int| 0 <= j < i ==> s[j] != x;
        s.remove(i)
    } else {
        s
    }
}

/// The selection after a click on `id` (an entry of the document) in the given mode.
pub open spec fn spec_select(sel: SelectionView, entries: Seq<LyricEntry>, id: usize, mode: SelectionMode) -> SelectionView {
    let nonempty = entries[id as int].display_text@.len() != 0;
    match mode {
        SelectionMode::Replace => SelectionView {
            selected: if nonempty {
                seq![id]
            } else {
                Seq::empty()
            },
            anchor: Some(id),
        },
        SelectionMode::Toggle => SelectionView {
            selected: if sel.selected.contains(id) {
                remove_first(sel.selected, id)
            } else if nonempty {
                // ascending order of the old ids and `id`
                sorted_insert(sel.selected, id)
            } else {
                sel.selected
            },
            anchor: Some(id),
        },
        SelectionMode::Range => {
            let anchor = match sel.anchor {
                Some(a) => a,
                None => id,
            };
            let start = if anchor <= id {
                anchor
            } else {
                id
            };
            let end = if anchor <= id {
                id
            } else {
                anchor
            };
            SelectionView {
                selected: nonempty_ids_between(entries, start as int, end as int),
                anchor: sel.anchor,
            }
        },
    }
}

/// The ascending arrangement of the ids of `s` together with `x`.
pub open spec fn sorted_insert(s: Seq<usize>, x: usize) -> Seq<usize> {
    choose|r: Seq<usize>| ascending(r) && r.to_multiset() == s.push(x).to_multiset()
}

impl Default for SelectionState {
    fn default() -> (r: Self)
        ensures
            r@.selected == Seq::<usize>::empty(),
            r@.anchor is None,
    {
        SelectionState { selected_ids: Vec::new(), anchor_id: None }
    }
}

impl Clone for SelectionState {
    fn clone(&self) -> (r: Self)
        ensures
            r@ == self@,
    {
        let mut ids: Vec<usize> = Vec::new();
        let mut i: usize = 0;
        while i < self.selected_ids.len()
            invariant
                i <= self.selected_ids@.len(),
                ids@ == self.selected_ids@.take(i as int),
            decreases self.selected_ids@.len() - i,
        {
            ids.push(self.selected_ids[i]);
            i = i + 1;
            assert(ids@ =~= self.selected_ids@.take(i as int));
        }
        assert(ids@ =~= self.selected_ids@);
        SelectionState { selected_ids: ids, anchor_id: self.anchor_id }
    }
}

impl SelectionState {
    /// Current selected ids.
    pub fn selected_ids(&self) -> (r: &[usize])
        ensures
            r@ == self@.selected,
    {
        self.selected_ids.as_slice()
    }

    /// Anchor used for range selection.
    pub fn anchor_id(&self) -> (r: Option<usize>)
        ensures
            r == self@.anchor,
    {
        self.anchor_id
    }

    /// Whether an id is currently selected.
    pub fn contains(&self, id: usize) -> (r: bool)
        ensures
            r == self@.selected.contains(id),
    {
        let mut i: usize = 0;
        while i < self.selected_ids.len()
            invariant
                i <= self.selected_ids@.len(),
                forall|j: int| 0 <= j < i ==> self.selected_ids@[j] != id,
            decreases self.selected_ids@.len() - i,
        {
            if self.selected_ids[i] == id {
                return true;
            }
            i = i + 1;
        }
        false
    }

    /// Keep only selections that still exist in the document.
    pub fn prune(&mut self, document: &LrcDocument)
        ensures
            final(self)@.selected == old(self)@.selected.filter(
                |id: usize| id < document@.entries.len(),
            ),
            final(self)@.anchor == (match old(self)@.anchor {
                Some(a) => if a < document@.entries.len() {
                    Some(a)
                } else {
                    None
                },
                None => None,
            }),
    {
        let len = document.entries().len();
        let ghost old_ids = self.selected_ids@;
        let mut kept: Vec<usize> = Vec::new();
        let mut i: usize = 0;
        while i < self.selected_ids.len()
            invariant
                i <= self.selected_ids@.len(),
                self.selected_ids@ == old_ids,
                len == document@.entries.len(),
                kept@ == old_ids.take(i as int).filter(|id: usize| id < len),
            decreases self.selected_ids@.len() - i,
        {
            let id = self.selected_ids[i];
            proof {
                reveal_with_fuel(Seq::filter, 1);
                assert(old_ids.take(i + 1).drop_last() =~= old_ids.take(i as int));
            }
            if document.entry_by_id(id).is_some() {
                kept.push(id);
            }
            i = i + 1;
        }
        assert(old_ids.take(i as int) =~= old_ids);
        self.selected_ids = kept;
        if let Some(a) = self.anchor_id {
            if document.entry_by_id(a).is_none() {
                self.anchor_id = None;
            }
        }
    }

    /// Replace with the active lyric unless multiple chunks are selected.
    pub fn sync_to_active(&mut self, entry: Option<&LyricEntry>, preserve_selection: bool)
        ensures
            preserve_selection ==> final(self)@ == old(self)@,
            !preserve_selection ==> match entry {
                Some(e) => if e.display_text@.len() != 0 {
                    final(self)@.selected == seq![e.id] && final(self)@.anchor == Some(e.id)
                } else {
                    final(self)@.selected == Seq::<usize>::empty() && final(self)@.anchor == old(
                        self,
                    )@.anchor
                },
                None => final(self)@.selected == Seq::<usize>::empty() && final(self)@.anchor == old(
                    self,
                )@.anchor,
            },
    {
        if preserve_selection {
            return ;
        }
        self.selected_ids.clear();
        if let Some(entry) = entry {
            if !entry.is_empty() {
                self.selected_ids.push(entry.id());
                self.anchor_id = Some(entry.id());
                assert(self.selected_ids@ =~= seq![entry.id]);
            }
        }
    }

    /// Select every non-empty entry.
    pub fn select_all(&mut self, document: &LrcDocument)
        ensures
            final(self)@.selected == nonempty_ids_between(document@.entries, 0, usize::MAX as int),
            final(self)@.anchor == (if final(self)@.selected.len() == 0 {
                None
            } else {
                Some(final(self)@.selected[0])
            }),
    {
        let ids = Self::nonempty_ids(document, 0, usize::MAX);
        self.anchor_id = if ids.len() == 0 {
            None
        } else {
            Some(ids[0])
        };
        self.selected_ids = ids;
    }

    /// Ids of the non-empty entries with ids in `lo..=hi`.
    fn nonempty_ids(document: &LrcDocument, lo: usize, hi: usize) -> (r: Vec<usize>)
        ensures
            r@ == nonempty_ids_between(document@.entries, lo as int, hi as int),
    {
        let entries = document.entries();
        let mut ids: Vec<usize> = Vec::new();
        let mut i: usize = 0;
        while i < entries.len()
            invariant
                i <= entries@.len(),
                entries@ == document@.entries,
                ids@ == nonempty_ids_between(entries@.take(i as int), lo as int, hi as int),
            decreases entries@.len() - i,
        {
            let e = &entries[i];
            proof {
                assert(entries@.take(i + 1).drop_last() =~= entries@.take(i as int));
            }
            if !e.is_empty() && lo <= e.id && e.id <= hi {
                ids.push(e.id);
            }
            i = i + 1;
        }
        assert(entries@.take(i as int) =~= entries@);
        ids
    }

    /// Apply a click selection transition.
    pub fn select_entry(&mut self, document: &LrcDocument, entry_id: usize, mode: SelectionMode)
        ensures
            entry_id >= document@.entries.len() ==> final(self)@ == old(self)@,
            entry_id < document@.entries.len() ==> final(self)@ == spec_select(
                old(self)@,
                document@.entries,
                entry_id,
                mode,
            ),
    {
        let entry = match document.entry_by_id(entry_id) {
            Some(e) => e,
            None => {
                return ;
            },
        };
        match mode {
            SelectionMode::Replace => {
                self.selected_ids.clear();
                if !entry.is_empty() {
                    self.selected_ids.push(entry_id);
                }
                self.anchor_id = Some(entry_id);
                assert(self.selected_ids@ =~= (if entry.display_text@.len() != 0 {
                    seq![entry_id]
                } else {
                    Seq::empty()
                }));
            },
            SelectionMode::Toggle => {
                let ghost old_ids = self.selected_ids@;
                match self.position_of(entry_id) {
                    Some(index) => {
                        self.selected_ids.remove(index);
                        proof {
                            let i = choose|i: int|
                                0 <= i < old_ids.len() && old_ids[i] == entry_id && forall|j: int|
                                    0 <= j < i ==> old_ids[j] != entry_id;
                            if i < index {
                                assert(old_ids[i] != entry_id);
                            } else if index < i {
                                assert(old_ids[index as int] != entry_id);
                            }
                        }
                    },
                    None => {
                        if !entry.is_empty() {
                            self.selected_ids.push(entry_id);
                            let ghost pushed = self.selected_ids@;
                            sort_ids(&mut self.selected_ids);
                            proof {
                                assert(pushed == old_ids.push(entry_id));
                                let r = self.selected_ids@;
                                assert(ascending(r) && r.to_multiset() == old_ids.push(
                                    entry_id,
                                ).to_multiset());
                                lemma_sorted_insert_unique(old_ids, entry_id, r);
                            }
                        }
                    },
                }
                self.anchor_id = Some(entry_id);
            },
            SelectionMode::Range => {
                let anchor_id = match self.anchor_id {
                    Some(a) => a,
                    None => entry_id,
                };
                let start = if anchor_id <= entry_id {
                    anchor_id
                } else {
                    entry_id
                };
                let end = if anchor_id <= entry_id {
                    entry_id
                } else {
                    anchor_id
                };
                self.selected_ids = Self::nonempty_ids(document, start, end);
            },
        }
    }

    /// Index of the first occurrence of `id` in the selection.
    fn position_of(&self, id: usize) -> (r: Option<usize>)
        ensures
            match r {
                Some(i) => i < self@.selected.len() && self@.selected[i as int] == id && forall|j: int|
                    0 <= j < i ==> self@.selected[j] != id,
                None => !self@.selected.contains(id),
            },
    {
        let mut i: usize = 0;
        while i < self.selected_ids.len()
            invariant
                i <= self.selected_ids@.len(),
                forall|j: int| 0 <= j < i ==> self.selected_ids@[j] != id,
            decreases self.selected_ids@.len() - i,
        {
            if self.selected_ids[i] == id {
                return Some(i);
            }
            i = i + 1;
        }
        None
    }

    /// True when source text selection should be suppressed.
    pub fn suppresses_source_selection(&self) -> (r: bool)
        ensures
            r == (self@.selected.len() > 1),
    {
        self.selected_ids.len() > 1
    }
}

/// Sorts ids in ascending order.
fn sort_ids(v: &mut Vec<usize>)
    ensures
        ascending(final(v)@),
        final(v)@.to_multiset() == old(v)@.to_multiset(),
{
    let ghost orig = v@;
    let mut sorted: Vec<usize> = Vec::new();
    let mut i: usize = 0;
    while i < v.len()
        invariant
            i <= v@.len(),
            v@ == orig,
            ascending(sorted@),
            sorted@.to_multiset() == orig.take(i as int).to_multiset(),
        decreases v@.len() - i,
    {
        let x = v[i];
        let mut p: usize = 0;
        while p < sorted.len() && sorted[p] <= x
            invariant
                p <= sorted@.len(),
                forall|j: int| 0 <= j < p ==> sorted@[j] <= x,
            decreases sorted@.len() - p,
        {
            p = p + 1;
        }
        let ghost before = sorted@;
        sorted.insert(p, x);
        proof {
            assert(sorted@ =~= before.take(p as int) + seq![x] + before.skip(p as int));
            assert forall|a: int, b: int| 0 <= a <= b < sorted@.len() implies (
            #[trigger] sorted@[a]) <= (#[trigger] sorted@[b]) by {
                if a < p && b < p {
                    assert(sorted@[a] == before[a] && sorted@[b] == before[b]);
                } else if a < p && b == p {
                    assert(sorted@[a] == before[a]);
                } else if a < p {
                    assert(sorted@[a] == before[a] && sorted@[b] == before[b - 1]);
                } else if a == p && b > p {
                    assert(sorted@[b] == before[b - 1]);
                    assert(p < before.len());
                    assert(!(before[p as int] <= x));
                } else if a > p {
                    assert(sorted@[a] == before[a - 1] && sorted@[b] == before[b - 1]);
                }
            }
            vstd::seq_lib::lemma_multiset_commutative(before.take(p as int), seq![x]);
            vstd::seq_lib::lemma_multiset_commutative(
                before.take(p as int) + seq![x],
                before.skip(p as int),
            );
            vstd::seq_lib::lemma_multiset_commutative(before.take(p as int), before.skip(p as int));
            assert(before.take(p as int) + before.skip(p as int) =~= before);
            assert(seq![x] =~= Seq::<usize>::empty().push(x));
            assert(orig.take(i + 1) =~= orig.take(i as int).push(x));
            assert(sorted@.to_multiset() =~= orig.take(i + 1).to_multiset());
        }
        i = i + 1;
    }
    assert(orig.take(i as int) =~= orig);
    *v = sorted;
}

/// Two ascending arrangements of the same ids are equal.
pub proof fn lemma_ascending_unique(a: Seq<usize>, b: Seq<usize>)
    requires
        ascending(a),
        ascending(b),
        a.to_multiset() == b.to_multiset(),
    ensures
        a == b,
    decreases a.len(),
{
    assert(a.len() == b.len()) by {
        assert(a.to_multiset().len() == a.len());
        assert(b.to_multiset().len() == b.len());
    }
    if a.len() > 0 {
        let x = a.last();
        let y = b.last();
        // The largest element of each is the largest element of the shared multiset.
        assert(a.to_multiset().count(y) > 0);
        assert(b.to_multiset().count(x) > 0);
        assert(a.contains(y));
        assert(b.contains(x));
        let i = choose|i: int| 0 <= i < a.len() && a[i] == y;
        let j = choose|j: int| 0 <= j < b.len() && b[j] == x;
        assert(y <= x);
        assert(x <= y);
        let a2 = a.drop_last();
        let b2 = b.drop_last();
        assert(a2.push(x) =~= a);
        assert(b2.push(y) =~= b);
        assert(a2.to_multiset() =~= a.to_multiset().remove(x));
        assert(b2.to_multiset() =~= b.to_multiset().remove(y));
        assert(ascending(a2)) by {
            assert forall|p: int, q: int| 0 <= p <= q < a2.len() implies (#[trigger] a2[p]) <= (
            #[trigger] a2[q]) by {
                assert(a2[p] == a[p] && a2[q] == a[q]);
            }
        }
        assert(ascending(b2)) by {
            assert forall|p: int, q: int| 0 <= p <= q < b2.len() implies (#[trigger] b2[p]) <= (
            #[trigger] b2[q]) by {
                assert(b2[p] == b[p] && b2[q] == b[q]);
            }
        }
        lemma_ascending_unique(a2, b2);
    }
}

proof fn lemma_sorted_insert_unique(s: Seq<usize>, x: usize, r: Seq<usize>)
    requires
        ascending(r),
        r.to_multiset() == s.push(x).to_multiset(),
    ensures
        sorted_insert(s, x) == r,
{
    let c = sorted_insert(s, x);
    assert(ascending(c) && c.to_multiset() == s.push(x).to_multiset());
    lemma_ascending_unique(c, r);
}

proof fn lemma_remove_ascending(s: Seq<usize>, i: int)
    requires
        ascending(s),
        0 <= i < s.len(),
    ensures
        ascending(s.remove(i)),
{
    let r = s.remove(i);
    assert forall|p: int, q: int| 0 <= p <= q < r.len() implies (#[trigger] r[p]) <= (#[trigger] r[q]) by {
        let pp = if p < i { p } else { p + 1 };
        let qq = if q < i { q } else { q + 1 };
        assert(r[p] == s[pp] && r[q] == s[qq]);
    }
}

proof fn lemma_nonempty_ids_ascending(entries: Seq<LyricEntry>, lo: int, hi: int)
    requires
        forall|i: int| 0 <= i < entries.len() ==> (#[trigger] entries[i]).id == i,
    ensures
        ascending(nonempty_ids_between(entries, lo, hi)),
        forall|k: int|
            0 <= k < nonempty_ids_between(entries, lo, hi).len() ==> (#[trigger] nonempty_ids_between(
                entries,
                lo,
                hi,
            )[k]) < entries.len(),
    decreases entries.len(),
{
    if entries.len() > 0 {
        let d = entries.drop_last();
        assert forall|i: int| 0 <= i < d.len() implies (#[trigger] d[i]).id == i by {
            assert(d[i] == entries[i]);
        }
        lemma_nonempty_ids_ascending(d, lo, hi);
        assert(entries.last().id == entries.len() - 1);
    }
}

/// Toggling an unselected, non-empty entry twice gives back the selected ids
/// (for a selection kept in ascending order, as every transition keeps it).
pub proof fn lemma_toggle_twice(sel: SelectionView, entries: Seq<LyricEntry>, id: usize)
    requires
        id < entries.len(),
        entries[id as int].display_text@.len() != 0,
        ascending(sel.selected),
        !sel.selected.contains(id),
    ensures
        spec_select(
            spec_select(sel, entries, id, SelectionMode::Toggle),
            entries,
            id,
            SelectionMode::Toggle,
        ).selected == sel.selected,
{
    let s = sel.selected;
    let once = spec_select(sel, entries, id, SelectionMode::Toggle);
    let r = sorted_insert(s, id);
    lemma_sorted_insert_exists(s, id);
    assert(ascending(r) && r.to_multiset() == s.push(id).to_multiset());
    assert(once.selected == r);
    assert(s.push(id).to_multiset().count(id) > 0) by {
        assert(s.push(id)[s.len() as int] == id);
    }
    assert(r.contains(id));
    assert(exists|i: int| 0 <= i < r.len() && r[i] == id && forall|j: int| 0 <= j < i ==> r[j] != id) by {
        let k = choose|k: int| 0 <= k < r.len() && r[k] == id;
        lemma_first_occurrence(r, id, k);
    }
    let i = choose|i: int| 0 <= i < r.len() && r[i] == id && forall|j: int| 0 <= j < i ==> r[j] != id;
    let twice = remove_first(r, id);
    assert(twice == r.remove(i));
    lemma_remove_ascending(r, i);
    assert(twice.to_multiset() == r.to_multiset().remove(id));
    assert(s.push(id).to_multiset() == s.to_multiset().insert(id));
    assert(twice.to_multiset() =~= s.to_multiset());
    lemma_ascending_unique(twice, s);
}

/// Every selected id, and the anchor, lies below `len`.
pub open spec fn selection_within(sel: SelectionView, len: nat) -> bool {
    &&& forall|i: int| 0 <= i < sel.selected.len() ==> (#[trigger] sel.selected[i]) < len
    &&& sel.anchor matches Some(a) ==> a < len
}

/// Entries numbered by position.
pub open spec fn numbered(entries: Seq<LyricEntry>) -> bool {
    forall|i: int| 0 <= i < entries.len() ==> (#[trigger] entries[i]).id == i
}

pub proof fn lemma_nonempty_ids_within(entries: Seq<LyricEntry>, lo: int, hi: int)
    requires
        numbered(entries),
    ensures
        forall|k: int|
            0 <= k < nonempty_ids_between(entries, lo, hi).len() ==> (#[trigger] nonempty_ids_between(
                entries,
                lo,
                hi,
            )[k]) < entries.len(),
    decreases entries.len(),
{
    if entries.len() > 0 {
        let d = entries.drop_last();
        assert(numbered(d)) by {
            assert forall|i: int| 0 <= i < d.len() implies (#[trigger] d[i]).id == i by {
                assert(d[i] == entries[i]);
            }
        }
        lemma_nonempty_ids_within(d, lo, hi);
        assert(entries.last().id == entries.len() - 1);
        let rest = nonempty_ids_between(d, lo, hi);
        let all = nonempty_ids_between(entries, lo, hi);
        assert forall|k: int| 0 <= k < all.len() implies (#[trigger] all[k]) < entries.len() by {
            if k < rest.len() {
                assert(all[k] == rest[k]);
            }
        }
    } else {
        assert(nonempty_ids_between(entries, lo, hi).len() == 0);
    }
}

/// A click on an entry keeps the selection within the document.
pub proof fn lemma_select_within(sel: SelectionView, entries: Seq<LyricEntry>, id: usize, mode: SelectionMode)
    requires
        selection_within(sel, entries.len()),
        numbered(entries),
        id < entries.len(),
    ensures
        selection_within(spec_select(sel, entries, id, mode), entries.len()),
{
    broadcast use vstd::seq_lib::group_to_multiset_ensures;

    let s = sel.selected;
    let r = spec_select(sel, entries, id, mode);
    match mode {
        SelectionMode::Replace => {},
        SelectionMode::Toggle => {
            if s.contains(id) {
                let i = choose|i: int| 0 <= i < s.len() && s[i] == id && forall|j: int| 0 <= j < i ==> s[j] != id;
                assert(exists|i: int| 0 <= i < s.len() && s[i] == id && forall|j: int| 0 <= j < i ==> s[j] != id) by {
                    let k = choose|k: int| 0 <= k < s.len() && s[k] == id;
                    lemma_first_occurrence(s, id, k);
                }
                assert forall|k: int| 0 <= k < r.selected.len() implies (#[trigger] r.selected[k]) < entries.len() by {
                    if k < i {
                        assert(r.selected[k] == s[k]);
                    } else {
                        assert(r.selected[k] == s[k + 1]);
                    }
                }
            } else if entries[id as int].display_text@.len() != 0 {
                lemma_sorted_insert_exists(s, id);
                let t = sorted_insert(s, id);
                assert forall|k: int| 0 <= k < t.len() implies (#[trigger] t[k]) < entries.len() by {
                    let x = t[k];
                    assert(t.contains(x));
                    assert(s.push(id).to_multiset().count(x) > 0);
                    assert(s.push(id).contains(x));
                    let j = choose|j: int| 0 <= j < s.push(id).len() && s.push(id)[j] == x;
                    if j < s.len() {
                        assert(s.push(id)[j] == s[j]);
                    }
                }
            }
        },
        SelectionMode::Range => {
            let anchor = match sel.anchor {
                Some(a) => a,
                None => id,
            };
            let start = if anchor <= id {
                anchor
            } else {
                id
            };
            let end = if anchor <= id {
                id
            } else {
                anchor
            };
            lemma_nonempty_ids_within(entries, start as int, end as int);
        },
    }
}

/// An id is among `nonempty_ids_between(entries, lo, hi)` exactly when it
/// names a non-empty entry and lies in `lo..=hi`.
proof fn lemma_nonempty_ids_between_has(entries: Seq<LyricEntry>, lo: int, hi: int, x: usize)
    requires
        numbered(entries),
    ensures
        nonempty_ids_between(entries, lo, hi).contains(x) <==> (x < entries.len()
            && entries[x as int].display_text@.len() != 0 && lo <= x <= hi),
    decreases entries.len(),
{
    if entries.len() > 0 {
        let d = entries.drop_last();
        assert(numbered(d)) by {
            assert forall|i: int| 0 <= i < d.len() implies (#[trigger] d[i]).id == i by {
                assert(d[i] == entries[i]);
            }
        }
        lemma_nonempty_ids_between_has(d, lo, hi, x);
        let rest = nonempty_ids_between(d, lo, hi);
        let e = entries.last();
        assert(e.id == entries.len() - 1) by {
            assert(entries[entries.len() - 1] == e);
        }
        if x < d.len() {
            assert(d[x as int] == entries[x as int]);
        }
        if x == d.len() {
            assert(entries[x as int] == e);
        }
        if e.display_text@.len() != 0 && lo <= e.id <= hi {
            let all = rest.push(e.id);
            if x == e.id {
                assert(all[rest.len() as int] == x);
            } else if all.contains(x) {
                let k = choose|k: int| 0 <= k < all.len() && all[k] == x;
                assert(k < rest.len());
                assert(rest[k] == x);
            } else if rest.contains(x) {
                let k = choose|k: int| 0 <= k < rest.len() && rest[k] == x;
                assert(all[k] == x);
            }
        }
    }
}

/// A Range click selects exactly the non-empty entries whose id lies between
/// the anchor (the clicked entry itself when there is none) and the clicked
/// entry, both included, whichever of the two is larger; so the clicked entry
/// is selected whenever it is non-empty.
pub proof fn lemma_range_selects_between(sel: SelectionView, entries: Seq<LyricEntry>, id: usize)
    requires
        numbered(entries),
        id < entries.len(),
    ensures
        ({
            let a = match sel.anchor {
                Some(a) => a,
                None => id,
            };
            forall|k: usize|
                spec_select(sel, entries, id, SelectionMode::Range).selected.contains(k) <==> (k
                    < entries.len() && entries[k as int].display_text@.len() != 0 && (a <= k <= id
                    || id <= k <= a))
        }),
        spec_select(sel, entries, id, SelectionMode::Range).anchor == sel.anchor,
{
    let a = match sel.anchor {
        Some(a) => a,
        None => id,
    };
    let lo = if a <= id { a } else { id };
    let hi = if a <= id { id } else { a };
    assert forall|k: usize|
        spec_select(sel, entries, id, SelectionMode::Range).selected.contains(k) <==> (k < entries.len()
            && entries[k as int].display_text@.len() != 0 && (a <= k <= id || id <= k <= a)) by {
        lemma_nonempty_ids_between_has(entries, lo as int, hi as int, k);
    }
}

/// The selection mode of a click on a chunk body: Shift extends a range,
/// Ctrl or Meta toggles, a plain click selects the chunk alone unless it is
/// already selected (then the click only starts a drag).
pub open spec fn spec_click_mode(is_selected: bool, shift: bool, ctrl_or_meta: bool) -> Option<SelectionMode> {
    if shift {
        Some(SelectionMode::Range)
    } else if ctrl_or_meta {
        Some(SelectionMode::Toggle)
    } else if !is_selected {
        Some(SelectionMode::Replace)
    } else {
        None
    }
}

/// How a click on a chunk body changes the selection, if at all.
pub fn click_mode(is_selected: bool, shift: bool, ctrl_or_meta: bool) -> (r: Option<SelectionMode>)
    ensures
        r == spec_click_mode(is_selected, shift, ctrl_or_meta),
{
    if shift {
        Some(SelectionMode::Range)
    } else if ctrl_or_meta {
        Some(SelectionMode::Toggle)
    } else if !is_selected {
        Some(SelectionMode::Replace)
    } else {
        None
    }
}

/// Strictly increasing.
pub open spec fn increasing(s: Seq<usize>) -> bool {
    forall|i: int, j: int| 0 <= i < j < s.len() ==> (#[trigger] s[i]) < (#[trigger] s[j])
}

/// Toggling a non-empty entry flips whether it is selected, keeps the ids
/// strictly increasing and anchors at it; toggling it again gives back the
/// selected ids.
pub proof fn lemma_toggle_flips(sel: SelectionView, entries: Seq<LyricEntry>, id: usize)
    requires
        id < entries.len(),
        entries[id as int].display_text@.len() != 0,
        increasing(sel.selected),
    ensures
        ({
            let once = spec_select(sel, entries, id, SelectionMode::Toggle);
            &&& once.selected.contains(id) == !sel.selected.contains(id)
            &&& increasing(once.selected)
            &&& once.anchor == Some(id)
            &&& spec_select(once, entries, id, SelectionMode::Toggle).selected == sel.selected
        }),
{
    broadcast use vstd::seq_lib::group_to_multiset_ensures;

    let s = sel.selected;
    let once = spec_select(sel, entries, id, SelectionMode::Toggle);
    assert(ascending(s)) by {
        assert forall|i: int, j: int| 0 <= i <= j < s.len() implies (#[trigger] s[i]) <= (#[trigger] s[j]) by {
            if i < j {
                assert(s[i] < s[j]);
            }
        }
    }
    if s.contains(id) {
        assert(exists|i: int| 0 <= i < s.len() && s[i] == id && forall|j: int| 0 <= j < i ==> s[j] != id) by {
            let k = choose|k: int| 0 <= k < s.len() && s[k] == id;
            lemma_first_occurrence(s, id, k);
        }
        let i = choose|i: int| 0 <= i < s.len() && s[i] == id && forall|j: int| 0 <= j < i ==> s[j] != id;
        let r = s.remove(i);
        assert(once.selected == r);
        assert forall|a: int, b: int| 0 <= a < b < r.len() implies (#[trigger] r[a]) < (#[trigger] r[b]) by {
            let a1 = if a < i { a } else { a + 1 };
            let b1 = if b < i { b } else { b + 1 };
            assert(r[a] == s[a1] && r[b] == s[b1]);
        }
        assert(!r.contains(id)) by {
            if r.contains(id) {
                let k = choose|k: int| 0 <= k < r.len() && r[k] == id;
                let k1 = if k < i { k } else { k + 1 };
                assert(r[k] == s[k1]);
                assert(k1 != i);
                if k1 < i {
                    assert(s[k1] < s[i]);
                } else {
                    assert(s[i] < s[k1]);
                }
            }
        }
        // The second toggle puts `id` back in its place.
        lemma_sorted_insert_exists(r, id);
        let t = sorted_insert(r, id);
        assert(r.push(id).to_multiset() =~= s.to_multiset()) by {
            assert(r.to_multiset() == s.to_multiset().remove(id));
            assert(s.to_multiset().count(id) > 0);
        }
        lemma_ascending_unique(t, s);
    } else {
        lemma_sorted_insert_exists(s, id);
        let r = sorted_insert(s, id);
        assert(once.selected == r);
        assert(r.to_multiset().count(id) > 0) by {
            assert(s.push(id)[s.len() as int] == id);
        }
        // No id occurs twice in `r`: its counts are those of `s` with `id` added once.
        assert forall|a: int, b: int| 0 <= a < b < r.len() implies (#[trigger] r[a]) < (#[trigger] r[b]) by {
            assert(r[a] <= r[b]);
            if r[a] == r[b] {
                lemma_count_at_least_two(r, a, b);
                let x = r[a];
                assert(s.push(id).to_multiset().count(x) >= 2);
                assert(s.push(id).to_multiset().count(x) == s.to_multiset().count(x) + if x == id { 1int } else { 0int });
                if x == id {
                    assert(s.to_multiset().count(id) == 0);
                } else {
                    lemma_increasing_count_one(s, x);
                }
            }
        }
        lemma_toggle_twice(sel, entries, id);
    }
}

/// Two positions holding the same value count it at least twice.
proof fn lemma_count_at_least_two(r: Seq<usize>, a: int, b: int)
    requires
        0 <= a < b < r.len(),
        r[a] == r[b],
    ensures
        r.to_multiset().count(r[a]) >= 2,
    decreases r.len(),
{
    broadcast use vstd::seq_lib::group_to_multiset_ensures;

    let x = r[a];
    let d = r.drop_last();
    if b == r.len() - 1 {
        assert(d[a] == x);
        assert(d.contains(x));
        assert(r =~= d.push(x));
    } else {
        lemma_count_at_least_two(d, a, b);
        assert(d[a] == r[a]);
        assert(r =~= d.push(r.last()));
    }
}

/// A strictly increasing sequence holds each value at most once.
proof fn lemma_increasing_count_one(s: Seq<usize>, x: usize)
    requires
        increasing(s),
    ensures
        s.to_multiset().count(x) <= 1,
    decreases s.len(),
{
    broadcast use vstd::seq_lib::group_to_multiset_ensures;

    if s.len() > 0 {
        let d = s.drop_last();
        assert(increasing(d)) by {
            assert forall|i: int, j: int| 0 <= i < j < d.len() implies (#[trigger] d[i]) < (#[trigger] d[j]) by {
                assert(d[i] == s[i] && d[j] == s[j]);
            }
        }
        lemma_increasing_count_one(d, x);
        assert(s =~= d.push(s.last()));
        if x == s.last() {
            assert(!d.contains(x)) by {
                if d.contains(x) {
                    let k = choose|k: int| 0 <= k < d.len() && d[k] == x;
                    assert(s[k] < s[s.len() - 1]);
                }
            }
        }
    }
}

proof fn lemma_first_occurrence(r: Seq<usize>, x: usize, k: int)
    requires
        0 <= k < r.len(),
        r[k] == x,
    ensures
        exists|i: int| 0 <= i < r.len() && r[i] == x && forall|j: int| 0 <= j < i ==> r[j] != x,
    decreases k,
{
    if exists|j: int| 0 <= j < k && r[j] == x {
        let j = choose|j: int| 0 <= j < k && r[j] == x;
        lemma_first_occurrence(r, x, j);
    } else {
        assert(forall|j: int| 0 <= j < k ==> r[j] != x);
    }
}

proof fn lemma_sorted_insert_exists(s: Seq<usize>, x: usize) -> (w: Seq<usize>)
    ensures
        ascending(w),
        w.to_multiset() == s.push(x).to_multiset(),
        ascending(sorted_insert(s, x)),
        sorted_insert(s, x).to_multiset() == s.push(x).to_multiset(),
{
    let w = lemma_ascending_arrangement(s.push(x));
    w
}

proof fn lemma_ascending_arrangement(s: Seq<usize>) -> (w: Seq<usize>)
    ensures
        ascending(w),
        w.to_multiset() == s.to_multiset(),
    decreases s.len(),
{
    if s.len() == 0 {
        s
    } else {
        let w0 = lemma_ascending_arrangement(s.drop_last());
        let x = s.last();
        let p = count_below(w0, x);
        let w = w0.take(p as int) + seq![x] + w0.skip(p as int);
        lemma_count_below(w0, x);
        assert forall|a: int, b: int| 0 <= a <= b < w.len() implies (#[trigger] w[a]) <= (#[trigger] w[b]) by {
            if a < p && b < p {
                assert(w[a] == w0[a] && w[b] == w0[b]);
            } else if a < p && b == p {
                assert(w[a] == w0[a]);
            } else if a < p {
                assert(w[a] == w0[a] && w[b] == w0[b - 1]);
            } else if a == p && b > p {
                assert(w[b] == w0[b - 1]);
            } else if a > p {
                assert(w[a] == w0[a - 1] && w[b] == w0[b - 1]);
            }
        }
        vstd::seq_lib::lemma_multiset_commutative(w0.take(p as int), seq![x]);
        vstd::seq_lib::lemma_multiset_commutative(w0.take(p as int) + seq![x], w0.skip(p as int));
        vstd::seq_lib::lemma_multiset_commutative(w0.take(p as int), w0.skip(p as int));
        assert(w0.take(p as int) + w0.skip(p as int) =~= w0);
        assert(seq![x] =~= Seq::<usize>::empty().push(x));
        assert(s =~= s.drop_last().push(x));
        assert(w.to_multiset() =~= s.to_multiset());
        w
    }
}

spec fn count_below(w: Seq<usize>, x: usize) -> nat
    decreases w.len(),
{
    if w.len() == 0 || w[0] > x {
        0
    } else {
        1 + count_below(w.drop_first(), x)
    }
}

proof fn lemma_count_below(w: Seq<usize>, x: usize)
    requires
        ascending(w),
    ensures
        count_below(w, x) <= w.len(),
        forall|j: int| 0 <= j < count_below(w, x) ==> w[j] <= x,
        count_below(w, x) < w.len() ==> w[count_below(w, x) as int] > x,
    decreases w.len(),
{
    if w.len() > 0 && w[0] <= x {
        let d = w.drop_first();
        assert(ascending(d)) by {
            assert forall|p: int, q: int| 0 <= p <= q < d.len() implies (#[trigger] d[p]) <= (#[trigger] d[q]) by {
                assert(d[p] == w[p + 1] && d[q] == w[q + 1]);
            }
        }
        lemma_count_below(d, x);
        assert forall|j: int| 0 <= j < count_below(w, x) implies w[j] <= x by {
            if j > 0 {
                assert(w[j] == d[j - 1]);
            }
        }
        if count_below(w, x) < w.len() {
            assert(w[count_below(w, x) as int] == d[count_below(d, x) as int]);
        }
    }
}

/// Every click keeps the selected ids in ascending order.
#[verifier::spinoff_prover]
#[verifier::rlimit(30)]
pub proof fn lemma_select_keeps_ascending(
    sel: SelectionView,
    entries: Seq<LyricEntry>,
    id: usize,
    mode: SelectionMode,
)
    requires
        entries_wf(entries),
        id < entries.len(),
        ascending(sel.selected),
    ensures
        ascending(spec_select(sel, entries, id, mode).selected),
{
    match mode {
        SelectionMode::Replace => {},
        SelectionMode::Toggle => {
            if sel.selected.contains(id) {
                let s = sel.selected;
                let k = choose|k: int| 0 <= k < s.len() && s[k] == id;
                lemma_first_occurrence(s, id, k);
                let i = choose|i: int| 0 <= i < s.len() && s[i] == id && forall|j: int| 0 <= j < i ==> s[j] != id;
                lemma_remove_ascending(s, i);
            } else if entries[id as int].display_text@.len() != 0 {
                let _ = lemma_sorted_insert_exists(sel.selected, id);
            }
        },
        SelectionMode::Range => {
            let anchor = match sel.anchor {
                Some(a) => a,
                None => id,
            };
            let start = if anchor <= id { anchor } else { id };
            let end = if anchor <= id { id } else { anchor };
            lemma_nonempty_ids_ascending(entries, start as int, end as int);
        },
    }
}

} // verus!
