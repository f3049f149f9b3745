//! Editing lyric chunks on the timeline: moving, resizing and adding chunks,
//! and writing the result back as LRC text.
use vstd::prelude::*;

use crate::document::{
    chunk_of_entry, entries_wf, metadata_text, next_uid_after, push_metadata_line, LrcDocument,
    LrcDocumentView,
};
use crate::entry::{LyricEntry, TimelineChunk};
use crate::text::{chars_of, push_range, push_text, skip_white_start, trim_start};
use crate::time::{spec_timestamp, TimeMs};

verus! {

/// Represents an interval of text on the timeline.
#[derive(Clone, Debug)]
pub struct Interval {
    pub entry_id: usize,
    pub uid: usize,
    pub color_index: u8,
    pub start: TimeMs,
    pub end: TimeMs,
    pub raw_text: String,
    pub is_empty: bool,
}

/// An interval in model form.
#[verifier::ext_equal]
pub struct IntervalModel {
    pub entry_id: usize,
    pub uid: usize,
    pub color_index: u8,
    pub start: u32,
    pub end: u32,
    pub raw_text: Seq<char>,
    pub is_empty: bool,
}

pub open spec fn model(i: Interval) -> IntervalModel {
    IntervalModel {
        entry_id: i.entry_id,
        uid: i.uid,
        color_index: i.color_index,
        start: i.start.0,
        end: i.end.0,
        raw_text: i.raw_text@,
        is_empty: i.is_empty,
    }
}

pub open spec fn models(s: Seq<Interval>) -> Seq<IntervalModel> {
    s.map_values(|i: Interval| model(i))
}

impl Interval {
    /// A field-by-field copy.
    pub fn copy(&self) -> (r: Interval)
        ensures
            r == *self,
    {
        Interval {
            entry_id: self.entry_id,
            uid: self.uid,
            color_index: self.color_index,
            start: self.start,
            end: self.end,
            raw_text: self.raw_text.clone(),
            is_empty: self.is_empty,
        }
    }
}

pub open spec fn with_start(f: IntervalModel, start: u32) -> IntervalModel {
    IntervalModel { start, ..f }
}

pub open spec fn with_end(f: IntervalModel, end: u32) -> IntervalModel {
    IntervalModel { end, ..f }
}

// ---------------------------------------------------------------------------
// Overlap resolution
// ---------------------------------------------------------------------------

/// What remains of fragment `f` where the moved interval `m` covers it.
pub open spec fn cut(f: IntervalModel, m: IntervalModel) -> Seq<IntervalModel> {
    if m.start <= f.start && m.end >= f.end {
        Seq::empty()
    } else if m.start > f.start && m.end < f.end {
        seq![with_end(f, m.start), with_start(f, m.end)]
    } else if m.start <= f.start && m.end > f.start {
        seq![with_start(f, m.end)]
    } else if m.start < f.end && m.end >= f.end {
        seq![with_end(f, m.start)]
    } else {
        seq![f]
    }
}

/// `cut` applied to each fragment, in order.
pub open spec fn cut_all(frags: Seq<IntervalModel>, m: IntervalModel) -> Seq<IntervalModel>
    decreases frags.len(),
{
    if frags.len() == 0 {
        Seq::empty()
    } else {
        cut_all(frags.drop_last(), m) + cut(frags.last(), m)
    }
}

/// The fragments of a static interval left after every moved interval, taken in order.
pub open spec fn cut_by_moved(frags: Seq<IntervalModel>, moved: Seq<IntervalModel>) -> Seq<
    IntervalModel,
>
    decreases moved.len(),
{
    if moved.len() == 0 {
        frags
    } else {
        cut_all(cut_by_moved(frags, moved.drop_last()), moved.last())
    }
}

/// All static fragments, static by static.
pub open spec fn static_fragments(statics: Seq<IntervalModel>, moved: Seq<IntervalModel>) -> Seq<
    IntervalModel,
>
    decreases statics.len(),
{
    if statics.len() == 0 {
        Seq::empty()
    } else {
        static_fragments(statics.drop_last(), moved) + cut_by_moved(seq![statics.last()], moved)
    }
}

/// Places `x` after every interval that starts no later than it.
pub open spec fn insert_by_start(s: Seq<IntervalModel>, x: IntervalModel) -> Seq<IntervalModel>
    decreases s.len(),
{
    if s.len() == 0 {
        seq![x]
    } else if s.last().start <= x.start {
        s.push(x)
    } else {
        insert_by_start(s.drop_last(), x).push(s.last())
    }
}

/// Stable sort by start time.
pub open spec fn sort_by_start(s: Seq<IntervalModel>) -> Seq<IntervalModel>
    decreases s.len(),
{
    if s.len() == 0 {
        s
    } else {
        insert_by_start(sort_by_start(s.drop_last()), s.last())
    }
}

/// Static intervals give way to the moved ones; the result is ordered by start.
pub open spec fn resolve(statics: Seq<IntervalModel>, moved: Seq<IntervalModel>) -> Seq<
    IntervalModel,
> {
    sort_by_start(static_fragments(statics, moved) + moved)
}

// ---------------------------------------------------------------------------
// What overlap resolution guarantees
// ---------------------------------------------------------------------------

/// Ordered by start.
pub open spec fn sorted_by_start(s: Seq<IntervalModel>) -> bool {
    forall|i: int, j: int| 0 <= i <= j < s.len() ==> (#[trigger] s[i]).start <= (#[trigger] s[j]).start
}

/// The two intervals do not overlap.
pub open spec fn disjoint(a: IntervalModel, b: IntervalModel) -> bool {
    a.end <= b.start || b.end <= a.start
}

/// `p` overlaps none of `ms`.
pub open spec fn clear_of(p: IntervalModel, ms: Seq<IntervalModel>) -> bool {
    forall|k: int| 0 <= k < ms.len() ==> disjoint(p, #[trigger] ms[k])
}

/// `p` lies inside `g`.
pub open spec fn within(p: IntervalModel, g: IntervalModel) -> bool {
    g.start <= p.start && p.end <= g.end
}

proof fn lemma_cut_pieces(f: IntervalModel, m: IntervalModel)
    requires
        m.start < m.end,
    ensures
        forall|i: int|
            0 <= i < cut(f, m).len() ==> within(#[trigger] cut(f, m)[i], f) && disjoint(cut(f, m)[i], m),
{
}

proof fn lemma_cut_all_clear(gs: Seq<IntervalModel>, m: IntervalModel, prev: Seq<IntervalModel>)
    requires
        m.start < m.end,
        forall|j: int| 0 <= j < gs.len() ==> clear_of(#[trigger] gs[j], prev),
    ensures
        forall|i: int| 0 <= i < cut_all(gs, m).len() ==> clear_of(#[trigger] cut_all(gs, m)[i], prev.push(m)),
    decreases gs.len(),
{
    if gs.len() > 0 {
        let d = gs.drop_last();
        assert forall|j: int| 0 <= j < d.len() implies clear_of(#[trigger] d[j], prev) by {
            assert(d[j] == gs[j]);
        }
        lemma_cut_all_clear(d, m, prev);
        let g = gs.last();
        assert(clear_of(g, prev)) by {
            assert(gs[gs.len() - 1] == g);
        }
        lemma_cut_pieces(g, m);
        let a = cut_all(d, m);
        let b = cut(g, m);
        let all = cut_all(gs, m);
        assert(all == a + b);
        assert forall|i: int| 0 <= i < all.len() implies clear_of(#[trigger] all[i], prev.push(m)) by {
            if i < a.len() {
                assert(all[i] == a[i]);
                assert(clear_of(a[i], prev.push(m)));
            } else {
                let p = b[i - a.len()];
                assert(all[i] == p);
                assert(within(p, g) && disjoint(p, m));
                assert forall|k: int| 0 <= k < prev.push(m).len() implies disjoint(p, #[trigger] prev.push(m)[k]) by {
                    if k < prev.len() {
                        assert(prev.push(m)[k] == prev[k]);
                        assert(disjoint(g, prev[k]));
                    }
                }
            }
        }
    }
}

proof fn lemma_cut_by_moved_clear(frags: Seq<IntervalModel>, moved: Seq<IntervalModel>)
    requires
        forall|k: int| 0 <= k < moved.len() ==> (#[trigger] moved[k]).start < moved[k].end,
    ensures
        forall|i: int|
            0 <= i < cut_by_moved(frags, moved).len() ==> clear_of(#[trigger] cut_by_moved(frags, moved)[i], moved),
    decreases moved.len(),
{
    if moved.len() > 0 {
        let d = moved.drop_last();
        assert forall|k: int| 0 <= k < d.len() implies (#[trigger] d[k]).start < d[k].end by {
            assert(d[k] == moved[k]);
        }
        lemma_cut_by_moved_clear(frags, d);
        assert(moved[moved.len() - 1] == moved.last());
        lemma_cut_all_clear(cut_by_moved(frags, d), moved.last(), d);
        assert(d.push(moved.last()) =~= moved);
    }
}

proof fn lemma_static_fragments_clear(statics: Seq<IntervalModel>, moved: Seq<IntervalModel>)
    requires
        forall|k: int| 0 <= k < moved.len() ==> (#[trigger] moved[k]).start < moved[k].end,
    ensures
        forall|i: int|
            0 <= i < static_fragments(statics, moved).len() ==> clear_of(
                #[trigger] static_fragments(statics, moved)[i],
                moved,
            ),
    decreases statics.len(),
{
    if statics.len() > 0 {
        lemma_static_fragments_clear(statics.drop_last(), moved);
        lemma_cut_by_moved_clear(seq![statics.last()], moved);
        let a = static_fragments(statics.drop_last(), moved);
        let b = cut_by_moved(seq![statics.last()], moved);
        let all = static_fragments(statics, moved);
        assert forall|i: int| 0 <= i < all.len() implies clear_of(#[trigger] all[i], moved) by {
            if i < a.len() {
                assert(all[i] == a[i]);
            } else {
                assert(all[i] == b[i - a.len()]);
            }
        }
    }
}

proof fn lemma_insert_by_start_sorted(s: Seq<IntervalModel>, x: IntervalModel)
    requires
        sorted_by_start(s),
    ensures
        sorted_by_start(insert_by_start(s, x)),
        insert_by_start(s, x).to_multiset() == s.to_multiset().insert(x),
    decreases s.len(),
{
    broadcast use vstd::seq_lib::group_to_multiset_ensures;

    if s.len() == 0 {
        assert(seq![x] =~= Seq::<IntervalModel>::empty().push(x));
    } else if s.last().start <= x.start {
        assert forall|i: int, j: int| 0 <= i <= j < s.push(x).len() implies (#[trigger] s.push(x)[i]).start
            <= (#[trigger] s.push(x)[j]).start by {
            if j == s.len() && i < j {
                assert(s.push(x)[i] == s[i]);
                assert(s[i].start <= s[s.len() - 1].start);
            } else if i < j {
                assert(s.push(x)[i] == s[i] && s.push(x)[j] == s[j]);
            }
        }
    } else {
        let d = s.drop_last();
        let l = s.last();
        assert(sorted_by_start(d)) by {
            assert forall|i: int, j: int| 0 <= i <= j < d.len() implies (#[trigger] d[i]).start <= (
            #[trigger] d[j]).start by {
                assert(d[i] == s[i] && d[j] == s[j]);
            }
        }
        lemma_insert_by_start_sorted(d, x);
        let t = insert_by_start(d, x);
        assert forall|i: int| 0 <= i < t.len() implies (#[trigger] t[i]).start <= l.start by {
            let y = t[i];
            assert(t.contains(y));
            assert(t.to_multiset().count(y) > 0);
            if y != x {
                assert(d.to_multiset().count(y) > 0);
                assert(d.contains(y));
                let k = choose|k: int| 0 <= k < d.len() && d[k] == y;
                assert(s[k] == y);
                assert(s[k].start <= s[s.len() - 1].start);
            }
        }
        assert forall|i: int, j: int| 0 <= i <= j < t.push(l).len() implies (#[trigger] t.push(l)[i]).start
            <= (#[trigger] t.push(l)[j]).start by {
            if j == t.len() && i < j {
                assert(t.push(l)[i] == t[i]);
                assert(t[i].start <= l.start);
            } else if i < j {
                assert(t.push(l)[i] == t[i] && t.push(l)[j] == t[j]);
            }
        }
        assert(d.push(l) =~= s);
        assert(t.push(l).to_multiset() =~= s.to_multiset().insert(x));
    }
}

proof fn lemma_sort_by_start(s: Seq<IntervalModel>)
    ensures
        sorted_by_start(sort_by_start(s)),
        sort_by_start(s).to_multiset() == s.to_multiset(),
    decreases s.len(),
{
    broadcast use vstd::seq_lib::group_to_multiset_ensures;

    if s.len() > 0 {
        lemma_sort_by_start(s.drop_last());
        lemma_insert_by_start_sorted(sort_by_start(s.drop_last()), s.last());
        assert(s.drop_last().push(s.last()) =~= s);
    }
}

/// Resolving overlaps orders the intervals by start, keeps every moved
/// interval, and leaves nothing of the static intervals overlapping a moved
/// one (for moved intervals of positive length, as every drag and every new
/// chunk gives).
pub proof fn lemma_resolve_sorted_clear(statics: Seq<IntervalModel>, moved: Seq<IntervalModel>)
    requires
        forall|k: int| 0 <= k < moved.len() ==> (#[trigger] moved[k]).start < moved[k].end,
    ensures
        sorted_by_start(resolve(statics, moved)),
        forall|k: int| 0 <= k < moved.len() ==> resolve(statics, moved).contains(#[trigger] moved[k]),
        forall|i: int|
            0 <= i < resolve(statics, moved).len() ==> moved.contains(#[trigger] resolve(statics, moved)[i])
                || clear_of(resolve(statics, moved)[i], moved),
{
    broadcast use vstd::seq_lib::group_to_multiset_ensures;

    let f = static_fragments(statics, moved);
    let all = f + moved;
    let r = resolve(statics, moved);
    lemma_static_fragments_clear(statics, moved);
    lemma_sort_by_start(all);
    assert forall|k: int| 0 <= k < moved.len() implies r.contains(#[trigger] moved[k]) by {
        assert(all[f.len() + k] == moved[k]);
        assert(all.contains(moved[k]));
        assert(r.to_multiset().count(moved[k]) > 0);
    }
    assert forall|i: int| 0 <= i < r.len() implies moved.contains(#[trigger] r[i]) || clear_of(r[i], moved) by {
        let y = r[i];
        assert(r.contains(y));
        assert(all.to_multiset().count(y) > 0);
        assert(all.contains(y));
        let j = choose|j: int| 0 <= j < all.len() && all[j] == y;
        if j < f.len() {
            assert(all[j] == f[j]);
        } else {
            assert(all[j] == moved[j - f.len()]);
        }
    }
}

/// `p` covers the instant `t`.
pub open spec fn covers(p: IntervalModel, t: int) -> bool {
    p.start <= t < p.end
}

/// `p` is a piece of `f`: the same chunk, color and text, whatever its ends.
pub open spec fn piece_of(p: IntervalModel, f: IntervalModel) -> bool {
    &&& p.entry_id == f.entry_id
    &&& p.uid == f.uid
    &&& p.color_index == f.color_index
    &&& p.raw_text == f.raw_text
    &&& p.is_empty == f.is_empty
}

/// Some interval of `s` is a piece of `f` that covers `t`.
pub open spec fn covered_by_piece(s: Seq<IntervalModel>, f: IntervalModel, t: int) -> bool {
    exists|j: int| 0 <= j < s.len() && covers(#[trigger] s[j], t) && piece_of(s[j], f)
}

proof fn lemma_cut_keeps(g: IntervalModel, m: IntervalModel, f: IntervalModel, t: int)
    requires
        covers(g, t),
        piece_of(g, f),
        !covers(m, t),
    ensures
        covered_by_piece(cut(g, m), f, t),
{
    let c = cut(g, m);
    if m.start <= g.start && m.end >= g.end {
    } else if m.start > g.start && m.end < g.end {
        if t < m.start {
            assert(covers(c[0], t) && piece_of(c[0], f));
        } else {
            assert(covers(c[1], t) && piece_of(c[1], f));
        }
    } else {
        assert(covers(c[0], t) && piece_of(c[0], f));
    }
}

proof fn lemma_cut_all_keeps(gs: Seq<IntervalModel>, m: IntervalModel, f: IntervalModel, t: int)
    requires
        covered_by_piece(gs, f, t),
        !covers(m, t),
    ensures
        covered_by_piece(cut_all(gs, m), f, t),
    decreases gs.len(),
{
    let j = choose|j: int| 0 <= j < gs.len() && covers(#[trigger] gs[j], t) && piece_of(gs[j], f);
    let d = gs.drop_last();
    let a = cut_all(d, m);
    let b = cut(gs.last(), m);
    assert(cut_all(gs, m) == a + b);
    if j == gs.len() - 1 {
        lemma_cut_keeps(gs.last(), m, f, t);
        let q = choose|q: int| 0 <= q < b.len() && covers(#[trigger] b[q], t) && piece_of(b[q], f);
        assert((a + b)[a.len() + q] == b[q]);
    } else {
        assert(d[j] == gs[j]);
        lemma_cut_all_keeps(d, m, f, t);
        let q = choose|q: int| 0 <= q < a.len() && covers(#[trigger] a[q], t) && piece_of(a[q], f);
        assert((a + b)[q] == a[q]);
    }
}

proof fn lemma_cut_by_moved_keeps(frags: Seq<IntervalModel>, moved: Seq<IntervalModel>, f: IntervalModel, t: int)
    requires
        covered_by_piece(frags, f, t),
        forall|k: int| 0 <= k < moved.len() ==> !covers(#[trigger] moved[k], t),
    ensures
        covered_by_piece(cut_by_moved(frags, moved), f, t),
    decreases moved.len(),
{
    if moved.len() > 0 {
        let d = moved.drop_last();
        assert forall|k: int| 0 <= k < d.len() implies !covers(#[trigger] d[k], t) by {
            assert(d[k] == moved[k]);
        }
        lemma_cut_by_moved_keeps(frags, d, f, t);
        assert(!covers(moved[moved.len() - 1], t));
        lemma_cut_all_keeps(cut_by_moved(frags, d), moved.last(), f, t);
    }
}

proof fn lemma_static_fragments_keep(statics: Seq<IntervalModel>, moved: Seq<IntervalModel>, i: int, t: int)
    requires
        0 <= i < statics.len(),
        covers(statics[i], t),
        forall|k: int| 0 <= k < moved.len() ==> !covers(#[trigger] moved[k], t),
    ensures
        covered_by_piece(static_fragments(statics, moved), statics[i], t),
    decreases statics.len(),
{
    let d = statics.drop_last();
    let a = static_fragments(d, moved);
    let b = cut_by_moved(seq![statics.last()], moved);
    assert(static_fragments(statics, moved) == a + b);
    if i == statics.len() - 1 {
        let one = seq![statics.last()];
        assert(covers(one[0], t) && piece_of(one[0], statics[i]));
        lemma_cut_by_moved_keeps(one, moved, statics[i], t);
        let q = choose|q: int| 0 <= q < b.len() && covers(#[trigger] b[q], t) && piece_of(b[q], statics[i]);
        assert((a + b)[a.len() + q] == b[q]);
    } else {
        assert(d[i] == statics[i]);
        lemma_static_fragments_keep(d, moved, i, t);
        let q = choose|q: int| 0 <= q < a.len() && covers(#[trigger] a[q], t) && piece_of(a[q], statics[i]);
        assert((a + b)[q] == a[q]);
    }
}

/// Overlap resolution loses no static time outside the moved intervals: an
/// instant that a static interval covers and no moved interval covers is still
/// covered, after resolution, by a piece of that static interval with its own
/// chunk, color and text. So a moved interval strictly inside a static one
/// leaves both the static interval's left part and its right part.
pub proof fn lemma_resolve_keeps_static_time(statics: Seq<IntervalModel>, moved: Seq<IntervalModel>, i: int, t: int)
    requires
        0 <= i < statics.len(),
        statics[i].start <= t < statics[i].end,
        forall|k: int| 0 <= k < moved.len() ==> !(#[trigger] moved[k].start <= t < moved[k].end),
    ensures
        exists|j: int|
            0 <= j < resolve(statics, moved).len() && covers(#[trigger] resolve(statics, moved)[j], t)
                && piece_of(resolve(statics, moved)[j], statics[i]),
{
    broadcast use vstd::seq_lib::group_to_multiset_ensures;

    assert forall|k: int| 0 <= k < moved.len() implies !covers(#[trigger] moved[k], t) by {
        assert(!(moved[k].start <= t < moved[k].end));
    }
    lemma_static_fragments_keep(statics, moved, i, t);
    let f = static_fragments(statics, moved);
    let all = f + moved;
    let r = resolve(statics, moved);
    let q = choose|q: int| 0 <= q < f.len() && covers(#[trigger] f[q], t) && piece_of(f[q], statics[i]);
    let y = f[q];
    assert(all[q] == y);
    assert(all.contains(y));
    lemma_sort_by_start(all);
    assert(r.to_multiset().count(y) > 0);
    assert(r.contains(y));
    let j = choose|j: int| 0 <= j < r.len() && r[j] == y;
    assert(covers(r[j], t) && piece_of(r[j], statics[i]));
}

proof fn lemma_insert_by_start_at(s: Seq<IntervalModel>, x: IntervalModel, p: int)
    requires
        0 <= p <= s.len(),
        forall|i: int| p <= i < s.len() ==> x.start < (#[trigger] s[i]).start,
        p > 0 ==> s[p - 1].start <= x.start,
    ensures
        insert_by_start(s, x) == s.take(p) + seq![x] + s.skip(p),
    decreases s.len(),
{
    if s.len() == 0 {
        assert(s.take(p) + seq![x] + s.skip(p) =~= seq![x]);
    } else if s.last().start <= x.start {
        assert(p == s.len()) by {
            if p < s.len() {
                assert(x.start < s[s.len() - 1].start);
            }
        }
        assert(s.take(p) + seq![x] + s.skip(p) =~= s.push(x));
    } else {
        assert(p < s.len());
        let d = s.drop_last();
        assert forall|i: int| p <= i < d.len() implies x.start < (#[trigger] d[i]).start by {
            assert(d[i] == s[i]);
        }
        if p > 0 {
            assert(d[p - 1] == s[p - 1]);
        }
        lemma_insert_by_start_at(d, x, p);
        assert(s.take(p) + seq![x] + s.skip(p) =~= (d.take(p) + seq![x] + d.skip(p)).push(
            s.last(),
        ));
    }
}

/// Stable insertion sort of intervals by start.
fn sort_intervals(v: Vec<Interval>) -> (r: Vec<Interval>)
    ensures
        models(r@) == sort_by_start(models(v@)),
{
    let ghost ms = models(v@);
    let mut sorted: Vec<Interval> = Vec::new();
    let mut i: usize = 0;
    assert(ms.take(0) =~= Seq::<IntervalModel>::empty());
    while i < v.len()
        invariant
            i <= v@.len(),
            ms == models(v@),
            models(sorted@) == sort_by_start(ms.take(i as int)),
        decreases v@.len() - i,
    {
        let x = v[i].copy();
        let ghost s = models(sorted@);
        let mut p: usize = sorted.len();
        while p > 0 && sorted[p - 1].start.0 > x.start.0
            invariant
                p <= sorted@.len(),
                s == models(sorted@),
                forall|j: int| p <= j < s.len() ==> x.start.0 < (#[trigger] s[j]).start,
            decreases p,
        {
            p = p - 1;
        }
        proof {
            if p > 0 {
                assert(s[p - 1] == model(sorted@[p - 1]));
            }
            lemma_insert_by_start_at(s, model(x), p as int);
            assert(ms.take(i + 1).drop_last() =~= ms.take(i as int));
            assert(ms.take(i + 1).last() == model(v@[i as int]));
        }
        sorted.insert(p, x);
        i = i + 1;
        proof {
            assert(models(sorted@) =~= s.take(p as int) + seq![model(x)] + s.skip(p as int));
        }
    }
    assert(ms.take(i as int) =~= ms);
    sorted
}

/// Pieces of `f` left after cutting with `m`, appended to `out`.
fn push_cut(out: &mut Vec<Interval>, f: Interval, m: &Interval)
    ensures
        models(final(out)@) == models(old(out)@) + cut(model(f), model(*m)),
{
    let ghost before = models(out@);
    if m.start.0 <= f.start.0 && m.end.0 >= f.end.0 {
        // fully covered: dropped
        assert(models(out@) =~= before + cut(model(f), model(*m)));
    } else if m.start.0 > f.start.0 && m.end.0 < f.end.0 {
        let mut left = f.copy();
        left.end = m.start;
        let mut right = f;
        right.start = m.end;
        out.push(left);
        out.push(right);
        assert(models(out@) =~= before + cut(model(f), model(*m)));
    } else if m.start.0 <= f.start.0 && m.end.0 > f.start.0 {
        let mut right = f;
        right.start = m.end;
        out.push(right);
        assert(models(out@) =~= before + cut(model(f), model(*m)));
    } else if m.start.0 < f.end.0 && m.end.0 >= f.end.0 {
        let mut left = f;
        left.end = m.start;
        out.push(left);
        assert(models(out@) =~= before + cut(model(f), model(*m)));
    } else {
        out.push(f);
        assert(models(out@) =~= before + cut(model(f), model(*m)));
    }
}

/// The fragments of one static interval left by all moved intervals.
fn fragments_of(st: Interval, moved: &Vec<Interval>) -> (r: Vec<Interval>)
    ensures
        models(r@) == cut_by_moved(seq![model(st)], models(moved@)),
{
    let ghost mm = models(moved@);
    let ghost st_m = model(st);
    let mut fragments: Vec<Interval> = Vec::new();
    fragments.push(st);
    assert(models(fragments@) =~= seq![st_m]);
    assert(mm.take(0) =~= Seq::<IntervalModel>::empty());
    let mut k: usize = 0;
    while k < moved.len()
        invariant
            k <= moved@.len(),
            mm == models(moved@),
            models(fragments@) == cut_by_moved(seq![st_m], mm.take(k as int)),
        decreases moved@.len() - k,
    {
        let m = &moved[k];
        let ghost fm = models(fragments@);
        let mut new_fragments: Vec<Interval> = Vec::new();
        let mut j: usize = 0;
        assert(fm.take(0) =~= Seq::<IntervalModel>::empty());
        while j < fragments.len()
            invariant
                j <= fragments@.len(),
                fm == models(fragments@),
                models(new_fragments@) == cut_all(fm.take(j as int), model(*m)),
            decreases fragments@.len() - j,
        {
            let f = fragments[j].copy();
            proof {
                assert(fm.take(j + 1).drop_last() =~= fm.take(j as int));
                assert(fm.take(j + 1).last() == model(fragments@[j as int]));
            }
            push_cut(&mut new_fragments, f, m);
            j = j + 1;
        }
        proof {
            assert(fm.take(j as int) =~= fm);
            assert(mm.take(k + 1).drop_last() =~= mm.take(k as int));
            assert(mm.take(k + 1).last() == model(*m));
        }
        fragments = new_fragments;
        k = k + 1;
    }
    assert(mm.take(k as int) =~= mm);
    fragments
}


// ---------------------------------------------------------------------------
// Writing intervals back as LRC text
// ---------------------------------------------------------------------------

/// An empty interval covering a gap.
pub open spec fn gap(start: u32, end: u32) -> IntervalModel {
    IntervalModel {
        entry_id: 0,
        uid: 0,
        color_index: 0,
        start,
        end,
        raw_text: Seq::empty(),
        is_empty: true,
    }
}

/// The intervals with an empty interval inserted wherever one starts after the
/// previous one (or `current`, at first) ended.
pub open spec fn fill_gaps(ivs: Seq<IntervalModel>, current: u32) -> Seq<IntervalModel>
    decreases ivs.len(),
{
    if ivs.len() == 0 {
        Seq::empty()
    } else {
        let i = ivs[0];
        (if i.start > current {
            seq![gap(current, i.start), i]
        } else {
            seq![i]
        }) + fill_gaps(ivs.drop_first(), i.end)
    }
}

/// Adjacent empty intervals merged into one.
pub open spec fn merge_empty(ivs: Seq<IntervalModel>) -> Seq<IntervalModel>
    decreases ivs.len(),
{
    if ivs.len() == 0 {
        Seq::empty()
    } else {
        let m = merge_empty(ivs.drop_last());
        let i = ivs.last();
        if m.len() > 0 && m.last().is_empty && i.is_empty {
            m.drop_last().push(with_end(m.last(), i.end))
        } else {
            m.push(i)
        }
    }
}

/// The intervals that get written: gaps filled, empty runs merged, zero-length
/// intervals dropped, and no empty interval at the end.
pub open spec fn prepared(ivs: Seq<IntervalModel>) -> Seq<IntervalModel> {
    let first = if ivs.len() > 0 {
        ivs[0].start
    } else {
        0u32
    };
    let kept = merge_empty(fill_gaps(ivs, first)).filter(|i: IntervalModel| i.end > i.start);
    if kept.len() > 0 && kept.last().is_empty {
        kept.drop_last()
    } else {
        kept
    }
}

pub open spec fn has_text(i: IntervalModel) -> bool {
    trim_start(i.raw_text).len() > 0
}

pub open spec fn any_text(ivs: Seq<IntervalModel>) -> bool {
    exists|k: int| 0 <= k < ivs.len() && has_text(#[trigger] ivs[k])
}

/// `[mm:ss.cc] text` for an interval with text; `[mm:ss.cc]` for an empty one
/// once some text has been written, else nothing.
pub open spec fn interval_line(i: IntervalModel, seen: bool) -> Seq<char> {
    if !has_text(i) {
        if seen {
            seq!['['] + spec_timestamp(i.start) + seq![']', '\n']
        } else {
            Seq::empty()
        }
    } else {
        seq!['['] + spec_timestamp(i.start) + seq![']', ' '] + trim_start(i.raw_text) + seq!['\n']
    }
}

pub open spec fn body_text(ivs: Seq<IntervalModel>) -> Seq<char>
    decreases ivs.len(),
{
    if ivs.len() == 0 {
        Seq::empty()
    } else {
        body_text(ivs.drop_last()) + interval_line(ivs.last(), any_text(ivs.drop_last()))
    }
}

/// The LRC text for metadata and the intervals to write: a closing timestamp
/// at the end of the last interval follows once some text was written.
pub open spec fn lrc_text(meta: Seq<crate::metadata::MetadataTag>, ivs: Seq<IntervalModel>) -> Seq<char> {
    metadata_text(meta) + body_text(ivs) + if ivs.len() > 0 && any_text(ivs) {
        seq!['['] + spec_timestamp(ivs.last().end) + seq![']', '\n']
    } else {
        Seq::empty()
    }
}

fn empty_interval(start: TimeMs, end: TimeMs) -> (r: Interval)
    ensures
        model(r) == gap(start.0, end.0),
{
    let r = Interval {
        entry_id: 0,
        uid: 0,
        color_index: 0,
        start,
        end,
        raw_text: String::new(),
        is_empty: true,
    };
    assert(model(r) =~= gap(start.0, end.0));
    r
}

/// `fill_gaps` of the intervals.
fn fill_interval_gaps(ivs: &Vec<Interval>, start: TimeMs) -> (r: Vec<Interval>)
    ensures
        models(r@) == fill_gaps(models(ivs@), start.0),
{
    let ghost ms = models(ivs@);
    let mut out: Vec<Interval> = Vec::new();
    let mut current = start;
    let mut k: usize = 0;
    assert(ms.skip(0) =~= ms);
    assert(models(out@) + fill_gaps(ms, start.0) =~= fill_gaps(ms, start.0));
    while k < ivs.len()
        invariant
            k <= ivs@.len(),
            ms == models(ivs@),
            models(out@) + fill_gaps(ms.skip(k as int), current.0) == fill_gaps(ms, start.0),
        decreases ivs@.len() - k,
    {
        let i = ivs[k].copy();
        let ghost rest = ms.skip(k as int);
        let ghost o = models(out@);
        let ghost cur0 = current.0;
        proof {
            assert(rest[0] == model(i));
            assert(rest.drop_first() =~= ms.skip(k + 1));
        }
        if i.start.0 > current.0 {
            out.push(empty_interval(current, i.start));
        }
        current = i.end;
        out.push(i);
        proof {
            let prefix = if model(i).start > cur0 {
                seq![gap(cur0, model(i).start), model(i)]
            } else {
                seq![model(i)]
            };
            assert(models(out@) =~= o + prefix);
            assert(fill_gaps(rest, cur0) == prefix + fill_gaps(ms.skip(k + 1), current.0));
            assert(models(out@) + fill_gaps(ms.skip(k + 1), current.0) =~= o + fill_gaps(rest, cur0));
        }
        k = k + 1;
    }
    assert(ms.skip(k as int) =~= Seq::<IntervalModel>::empty());
    assert(models(out@) + Seq::<IntervalModel>::empty() =~= models(out@));
    out
}

/// `merge_empty` of the intervals.
fn merge_empty_intervals(ivs: &Vec<Interval>) -> (r: Vec<Interval>)
    ensures
        models(r@) == merge_empty(models(ivs@)),
{
    let ghost ms = models(ivs@);
    let mut merged: Vec<Interval> = Vec::new();
    let mut k: usize = 0;
    assert(ms.take(0) =~= Seq::<IntervalModel>::empty());
    while k < ivs.len()
        invariant
            k <= ivs@.len(),
            ms == models(ivs@),
            models(merged@) == merge_empty(ms.take(k as int)),
        decreases ivs@.len() - k,
    {
        let i = ivs[k].copy();
        let ghost m = models(merged@);
        proof {
            assert(ms.take(k + 1).drop_last() =~= ms.take(k as int));
            assert(ms.take(k + 1).last() == model(i));
        }
        let n = merged.len();
        if n > 0 && merged[n - 1].is_empty && i.is_empty {
            let mut last = merged[n - 1].copy();
            last.end = i.end;
            merged.set(n - 1, last);
            proof {
                assert(models(merged@) =~= m.drop_last().push(with_end(m.last(), i.end.0)));
            }
        } else {
            merged.push(i);
            proof {
                assert(models(merged@) =~= m.push(model(i)));
            }
        }
        k = k + 1;
    }
    assert(ms.take(k as int) =~= ms);
    merged
}

/// The intervals that end after they start.
fn keep_nonzero(ivs: &Vec<Interval>) -> (r: Vec<Interval>)
    ensures
        models(r@) == models(ivs@).filter(|i: IntervalModel| i.end > i.start),
{
    let ghost ms = models(ivs@);
    let mut kept: Vec<Interval> = Vec::new();
    let mut k: usize = 0;
    assert(ms.take(0) =~= Seq::<IntervalModel>::empty());
    while k < ivs.len()
        invariant
            k <= ivs@.len(),
            ms == models(ivs@),
            models(kept@) == ms.take(k as int).filter(|i: IntervalModel| i.end > i.start),
        decreases ivs@.len() - k,
    {
        let i = ivs[k].copy();
        let ghost before = models(kept@);
        proof {
            reveal_with_fuel(Seq::filter, 1);
            assert(ms.take(k + 1).drop_last() =~= ms.take(k as int));
            assert(ms.take(k + 1).last() == model(i));
        }
        if i.end.0 > i.start.0 {
            kept.push(i);
            assert(models(kept@) =~= before.push(model(i)));
        }
        k = k + 1;
    }
    assert(ms.take(k as int) =~= ms);
    kept
}

/// `prepared` of the intervals.
fn prepare(final_intervals: &Vec<Interval>) -> (r: Vec<Interval>)
    ensures
        models(r@) == prepared(models(final_intervals@)),
{
    let first = if final_intervals.len() > 0 {
        final_intervals[0].start
    } else {
        TimeMs(0)
    };
    proof {
        if final_intervals@.len() > 0 {
            assert(models(final_intervals@)[0] == model(final_intervals@[0]));
        }
    }
    let filled = fill_interval_gaps(final_intervals, first);
    let merged = merge_empty_intervals(&filled);
    let mut kept = keep_nonzero(&merged);
    let n = kept.len();
    if n > 0 && kept[n - 1].is_empty {
        let ghost before = models(kept@);
        kept.pop();
        proof {
            assert(models(kept@) =~= before.drop_last());
        }
    }
    kept
}

/// The characters of `s` and where `trim_start(s)` begins among them.
fn trim_start_of(s: &String) -> (r: (Vec<char>, usize))
    ensures
        r.0@ == s@,
        r.1 <= r.0@.len(),
        trim_start(s@) == r.0@.subrange(r.1 as int, r.0@.len() as int),
{
    let v = chars_of(s.as_str());
    let k = skip_white_start(&v, 0, v.len());
    assert(v@.subrange(0, v@.len() as int) =~= s@);
    (v, k)
}

proof fn lemma_any_text_step(ms: Seq<IntervalModel>, k: int)
    requires
        0 <= k < ms.len(),
    ensures
        any_text(ms.take(k + 1)) == (any_text(ms.take(k)) || has_text(ms[k])),
{
    let a = ms.take(k + 1);
    let b = ms.take(k);
    if any_text(b) {
        let j = choose|j: int| 0 <= j < b.len() && has_text(#[trigger] b[j]);
        assert(a[j] == b[j]);
    }
    if has_text(ms[k]) {
        assert(a[k] == ms[k]);
    }
    if any_text(a) {
        let j = choose|j: int| 0 <= j < a.len() && has_text(#[trigger] a[j]);
        if j < k {
            assert(b[j] == a[j]);
        }
    }
}

/// Appends `body_text` of the intervals and the closing timestamp.
fn write_intervals(text: &mut String, ivs: &Vec<Interval>)
    ensures
        final(text)@ == old(text)@ + body_text(models(ivs@)) + (if ivs@.len() > 0 && any_text(
            models(ivs@),
        ) {
            seq!['['] + spec_timestamp(models(ivs@).last().end) + seq![']', '\n']
        } else {
            Seq::empty()
        }),
{
    let ghost ms = models(ivs@);
    let ghost head = text@;
    let mut seen = false;
    let mut k: usize = 0;
    assert(ms.take(0) =~= Seq::<IntervalModel>::empty());
    while k < ivs.len()
        invariant
            k <= ivs@.len(),
            ms == models(ivs@),
            text@ == head + body_text(ms.take(k as int)),
            seen == any_text(ms.take(k as int)),
        decreases ivs@.len() - k,
    {
        let i = &ivs[k];
        let ghost before = text@;
        proof {
            assert(ms[k as int] == model(*i));
            assert(ms.take(k + 1).drop_last() =~= ms.take(k as int));
            assert(ms.take(k + 1).last() == model(*i));
            lemma_any_text_step(ms, k as int);
        }
        let (v, b) = trim_start_of(&i.raw_text);
        if b == v.len() {
            if seen {
                text.push('[');
                i.start.push_timestamp(text);
                text.push(']');
                text.push('\n');
            }
        } else {
            seen = true;
            text.push('[');
            i.start.push_timestamp(text);
            text.push(']');
            text.push(' ');
            push_range(text, &v, b, v.len());
            text.push('\n');
        }
        k = k + 1;
        proof {
            assert(text@ =~= head + body_text(ms.take(k as int)));
        }
    }
    assert(ms.take(k as int) =~= ms);
    let n = ivs.len();
    if n > 0 && seen {
        let ghost before = text@;
        text.push('[');
        ivs[n - 1].end.push_timestamp(text);
        text.push(']');
        text.push('\n');
        proof {
            assert(ms.last() == model(ivs@[n - 1]));
            assert(text@ =~= before + (seq!['['] + spec_timestamp(ms.last().end) + seq![']', '\n']));
        }
    } else {
        assert(text@ =~= text@ + Seq::<char>::empty());
    }
}

// ---------------------------------------------------------------------------
// The editor
// ---------------------------------------------------------------------------

/// What a pointer drag on the timeline acts on.
#[derive(Clone, Copy, Debug, PartialEq, Eq, Structural)]
pub enum DragTarget {
    Body,
    LeftEdge,
    RightEdge,
    Boundary,
    Playhead,
    Selection,
    Scrollbar,
}

/// The interval drawn for entry `i`.
pub open spec fn chunk_interval(entries: Seq<LyricEntry>, i: int, duration: TimeMs) -> IntervalModel {
    IntervalModel {
        entry_id: entries[i].id,
        uid: entries[i].uid,
        color_index: entries[i].color_index,
        start: entries[i].time.0,
        end: if i + 1 < entries.len() {
            entries[i + 1].time.0
        } else {
            duration.0
        },
        raw_text: entries[i].text@,
        is_empty: entries[i].display_text@.len() == 0,
    }
}

pub open spec fn chunk_intervals(entries: Seq<LyricEntry>, duration: TimeMs) -> Seq<IntervalModel> {
    Seq::new(entries.len(), |i: int| chunk_interval(entries, i, duration))
}

/// The identities a drag moves.
pub open spec fn moved_uids(
    entries: Seq<LyricEntry>,
    selected: Seq<usize>,
    mode: DragTarget,
    target: Option<usize>,
) -> Seq<usize> {
    match mode {
        DragTarget::Body => selected,
        DragTarget::LeftEdge | DragTarget::RightEdge => match target {
            Some(u) => seq![u],
            None => Seq::empty(),
        },
        DragTarget::Boundary => match target {
            Some(u) => match next_uid_after(entries, u) {
                Some(n) => seq![u, n],
                None => seq![u],
            },
            None => Seq::empty(),
        },
        _ => Seq::empty(),
    }
}

/// `((x as i32) + d).max(0) as u32`.
pub open spec fn shifted(x: u32, d: i32) -> u32 {
    let v = (x as i32) as int + d as int;
    if v < 0 {
        0
    } else {
        v as u32
    }
}

/// `(x as i32) + d` does not overflow.
pub open spec fn shift_fits(x: u32, d: i32) -> bool {
    i32::MIN <= (x as i32) as int + d as int <= i32::MAX
}

/// The interval after the drag moved the edges it acts on.
pub open spec fn adjusted(iv: IntervalModel, mode: DragTarget, target: Option<usize>, d: i32) -> IntervalModel {
    match mode {
        DragTarget::Body => IntervalModel { start: shifted(iv.start, d), end: shifted(iv.end, d), ..iv },
        DragTarget::LeftEdge => if target == Some(iv.uid) {
            with_start(iv, shifted(iv.start, d))
        } else {
            iv
        },
        DragTarget::RightEdge => if target == Some(iv.uid) {
            with_end(iv, shifted(iv.end, d))
        } else {
            iv
        },
        DragTarget::Boundary => if target == Some(iv.uid) {
            with_end(iv, shifted(iv.end, d))
        } else {
            with_start(iv, shifted(iv.start, d))
        },
        _ => iv,
    }
}

/// The edges the drag moves do not overflow.
pub open spec fn adjust_fits(iv: IntervalModel, mode: DragTarget, target: Option<usize>, d: i32) -> bool {
    match mode {
        DragTarget::Body => shift_fits(iv.start, d) && shift_fits(iv.end, d),
        DragTarget::LeftEdge => target == Some(iv.uid) ==> shift_fits(iv.start, d),
        DragTarget::RightEdge => target == Some(iv.uid) ==> shift_fits(iv.end, d),
        DragTarget::Boundary => if target == Some(iv.uid) {
            shift_fits(iv.end, d)
        } else {
            shift_fits(iv.start, d)
        },
        _ => true,
    }
}

/// Statics (not moved) and moved intervals (after the drag, zero-length ones dropped).
pub open spec fn split_moved(
    ivs: Seq<IntervalModel>,
    moved: Seq<usize>,
    mode: DragTarget,
    target: Option<usize>,
    d: i32,
) -> (Seq<IntervalModel>, Seq<IntervalModel>)
    decreases ivs.len(),
{
    if ivs.len() == 0 {
        (Seq::empty(), Seq::empty())
    } else {
        let (st, mv) = split_moved(ivs.drop_last(), moved, mode, target, d);
        let c = ivs.last();
        if moved.contains(c.uid) {
            let a = adjusted(c, mode, target, d);
            if a.end > a.start {
                (st, mv.push(a))
            } else {
                (st, mv)
            }
        } else {
            (st.push(c), mv)
        }
    }
}

/// The drag can be applied without arithmetic overflow.
pub open spec fn drag_fits(
    entries: Seq<LyricEntry>,
    duration: TimeMs,
    selected: Seq<usize>,
    mode: DragTarget,
    target: Option<usize>,
    d: i32,
) -> bool {
    let moved = moved_uids(entries, selected, mode, target);
    forall|i: int|
        0 <= i < entries.len() && moved.contains(#[trigger] chunk_interval(entries, i, duration).uid)
            ==> adjust_fits(chunk_interval(entries, i, duration), mode, target, d)
}

/// The intervals of the timeline while a drag is in progress.
pub open spec fn spec_preview(
    entries: Seq<LyricEntry>,
    duration: TimeMs,
    selected: Seq<usize>,
    mode: DragTarget,
    target: Option<usize>,
    d: i32,
) -> Seq<IntervalModel> {
    let (st, mv) = split_moved(
        chunk_intervals(entries, duration),
        moved_uids(entries, selected, mode, target),
        mode,
        target,
        d,
    );
    resolve(st, mv)
}

fn contains_id(v: &Vec<usize>, x: usize) -> (r: bool)
    ensures
        r == v@.contains(x),
{
    let mut i: usize = 0;
    while i < v.len()
        invariant
            i <= v@.len(),
            forall|j: int| 0 <= j < i ==> v@[j] != x,
        decreases v@.len() - i,
    {
        if v[i] == x {
            return true;
        }
        i = i + 1;
    }
    false
}

fn shift(x: TimeMs, d: i32) -> (r: TimeMs)
    requires
        shift_fits(x.0, d),
    ensures
        r.0 == shifted(x.0, d),
{
    let v = (x.0 as i32) + d;
    if v < 0 {
        TimeMs(0)
    } else {
        TimeMs(v as u32)
    }
}

fn interval_of_chunk(c: TimelineChunk) -> (r: Interval)
    ensures
        r.entry_id == c.entry_id,
        r.uid == c.uid,
        r.color_index == c.color_index,
        r.start == c.start_ms,
        r.end == c.end_ms,
        r.raw_text == c.raw_text,
        r.is_empty == c.is_empty,
{
    Interval {
        entry_id: c.entry_id,
        uid: c.uid,
        color_index: c.color_index,
        start: c.start_ms,
        end: c.end_ms,
        raw_text: c.raw_text,
        is_empty: c.is_empty,
    }
}

/// Provides functionality for editing the timeline by dragging or shifting chunks.
pub struct TimelineEditor<'a> {
    doc: &'a LrcDocument,
}

impl<'a> TimelineEditor<'a> {
    /// Statics are cut around the moved intervals; all pieces are ordered by start.
    fn resolve_overlaps(statics: Vec<Interval>, moved: Vec<Interval>) -> (r: Vec<Interval>)
        ensures
            models(r@) == resolve(models(statics@), models(moved@)),
    {
        let ghost sm = models(statics@);
        let mut next_static: Vec<Interval> = Vec::new();
        let mut i: usize = 0;
        assert(sm.take(0) =~= Seq::<IntervalModel>::empty());
        while i < statics.len()
            invariant
                i <= statics@.len(),
                sm == models(statics@),
                models(next_static@) == static_fragments(sm.take(i as int), models(moved@)),
            decreases statics@.len() - i,
        {
            let st = statics[i].copy();
            let frags = fragments_of(st, &moved);
            let ghost before = models(next_static@);
            let mut j: usize = 0;
            while j < frags.len()
                invariant
                    j <= frags@.len(),
                    models(next_static@) == before + models(frags@).take(j as int),
                decreases frags@.len() - j,
            {
                let x = frags[j].copy();
                let ghost b2 = models(next_static@);
                next_static.push(x);
                proof {
                    assert(models(next_static@) =~= b2.push(model(x)));
                    assert(models(frags@)[j as int] == model(x));
                    assert(models(frags@).take(j + 1) =~= models(frags@).take(j as int).push(model(x)));
                }
                j = j + 1;
            }
            proof {
                assert(models(frags@).take(j as int) =~= models(frags@));
                assert(sm.take(i + 1).drop_last() =~= sm.take(i as int));
                assert(sm.take(i + 1).last() == model(statics@[i as int]));
            }
            i = i + 1;
        }
        assert(sm.take(i as int) =~= sm);
        let ghost ns = models(next_static@);
        let mut j: usize = 0;
        while j < moved.len()
            invariant
                j <= moved@.len(),
                models(next_static@) == ns + models(moved@).take(j as int),
            decreases moved@.len() - j,
        {
            let x = moved[j].copy();
            let ghost b2 = models(next_static@);
            next_static.push(x);
            proof {
                assert(models(next_static@) =~= b2.push(model(x)));
                assert(models(moved@)[j as int] == model(x));
                assert(models(moved@).take(j + 1) =~= models(moved@).take(j as int).push(model(x)));
            }
            j = j + 1;
        }
        assert(models(moved@).take(j as int) =~= models(moved@));
        sort_intervals(next_static)
    }

    /// The document being edited.
    pub closed spec fn document(&self) -> LrcDocumentView {
        self.doc@
    }

    /// Creates a new TimelineEditor for the given document.
    pub fn new(doc: &'a LrcDocument) -> (r: Self)
        ensures
            r.document() == doc@,
    {
        Self { doc }
    }

    /// Whether a drag of `delta_ms` can be previewed without overflow.
    pub fn drag_fits(
        &self,
        duration_ms: TimeMs,
        selected_uids: &[usize],
        drag_mode: DragTarget,
        drag_target_uid: Option<usize>,
        drag_offset_ms: i32,
    ) -> (r: bool)
        ensures
            r == drag_fits(
                self.document().entries,
                duration_ms,
                selected_uids@,
                drag_mode,
                drag_target_uid,
                drag_offset_ms,
            ),
    {
        let chunks = self.doc.timeline_chunks(duration_ms);
        let ghost entries = self.doc@.entries;
        let moved = self.moved_uids(selected_uids, drag_mode, drag_target_uid);
        let mut i: usize = 0;
        while i < chunks.len()
            invariant
                i <= chunks@.len(),
                chunks@.len() == entries.len(),
                entries == self.document().entries,
                moved@ == moved_uids(entries, selected_uids@, drag_mode, drag_target_uid),
                forall|k: int| 0 <= k < chunks@.len() ==> chunk_of_entry(#[trigger] chunks@[k], entries, k, duration_ms),
                forall|k: int|
                    0 <= k < i && moved@.contains(#[trigger] chunk_interval(entries, k, duration_ms).uid)
                        ==> adjust_fits(chunk_interval(entries, k, duration_ms), drag_mode, drag_target_uid, drag_offset_ms),
            decreases chunks@.len() - i,
        {
            let c = &chunks[i];
            proof {
                assert(chunk_of_entry(chunks@[i as int], entries, i as int, duration_ms));
            }
            if contains_id(&moved, c.uid) {
                let fits = match drag_mode {
                    DragTarget::Body => Self::fits(c.start_ms, drag_offset_ms) && Self::fits(c.end_ms, drag_offset_ms),
                    DragTarget::LeftEdge => !Self::is_target(drag_target_uid, c.uid) || Self::fits(c.start_ms, drag_offset_ms),
                    DragTarget::RightEdge => !Self::is_target(drag_target_uid, c.uid) || Self::fits(c.end_ms, drag_offset_ms),
                    DragTarget::Boundary => if Self::is_target(drag_target_uid, c.uid) {
                        Self::fits(c.end_ms, drag_offset_ms)
                    } else {
                        Self::fits(c.start_ms, drag_offset_ms)
                    },
                    _ => true,
                };
                proof {
                    let ci = chunk_interval(entries, i as int, duration_ms);
                    assert(ci.uid == c.uid && ci.start == c.start_ms.0 && ci.end == c.end_ms.0);
                    assert(moved@.contains(ci.uid));
                    assert(fits == adjust_fits(ci, drag_mode, drag_target_uid, drag_offset_ms));
                }
                if !fits {
                    return false;
                }
            }
            i = i + 1;
        }
        true
    }

    fn fits(x: TimeMs, d: i32) -> (r: bool)
        ensures
            r == shift_fits(x.0, d),
    {
        let v = (x.0 as i32) as i64 + d as i64;
        i32::MIN as i64 <= v && v <= i32::MAX as i64
    }

    fn is_target(target: Option<usize>, uid: usize) -> (r: bool)
        ensures
            r == (target == Some(uid)),
    {
        match target {
            Some(t) => t == uid,
            None => false,
        }
    }

    pub(crate) fn moved_uids(&self, selected_uids: &[usize], drag_mode: DragTarget, drag_target_uid: Option<usize>) -> (r: Vec<usize>)
        ensures
            r@ == moved_uids(self.document().entries, selected_uids@, drag_mode, drag_target_uid),
    {
        let mut moved: Vec<usize> = Vec::new();
        match drag_mode {
            DragTarget::Body => {
                let mut i: usize = 0;
                while i < selected_uids.len()
                    invariant
                        i <= selected_uids@.len(),
                        moved@ == selected_uids@.take(i as int),
                    decreases selected_uids@.len() - i,
                {
                    moved.push(selected_uids[i]);
                    i = i + 1;
                    assert(moved@ =~= selected_uids@.take(i as int));
                }
                assert(moved@ =~= selected_uids@);
            },
            DragTarget::LeftEdge | DragTarget::RightEdge => {
                if let Some(uid) = drag_target_uid {
                    moved.push(uid);
                    assert(moved@ =~= seq![uid]);
                }
            },
            DragTarget::Boundary => {
                if let Some(uid) = drag_target_uid {
                    moved.push(uid);
                    if let Some(next_uid) = self.doc.next_entry_uid(uid) {
                        moved.push(next_uid);
                        assert(moved@ =~= seq![uid, next_uid]);
                    } else {
                        assert(moved@ =~= seq![uid]);
                    }
                }
            },
            _ => {},
        }
        moved
    }

    /// The intervals of the timeline while a drag is in progress.
    pub fn preview_intervals(
        &self,
        duration_ms: TimeMs,
        selected_uids: &[usize],
        drag_mode: DragTarget,
        drag_target_uid: Option<usize>,
        drag_offset_ms: i32,
    ) -> (r: Vec<Interval>)
        requires
            drag_fits(
                self.document().entries,
                duration_ms,
                selected_uids@,
                drag_mode,
                drag_target_uid,
                drag_offset_ms,
            ),
        ensures
            models(r@) == spec_preview(
                self.document().entries,
                duration_ms,
                selected_uids@,
                drag_mode,
                drag_target_uid,
                drag_offset_ms,
            ),
    {
        let chunks = self.doc.timeline_chunks(duration_ms);
        let ghost entries = self.doc@.entries;
        let ghost cis = chunk_intervals(entries, duration_ms);
        let moved_ids = self.moved_uids(selected_uids, drag_mode, drag_target_uid);
        let mut moved: Vec<Interval> = Vec::new();
        let mut statics: Vec<Interval> = Vec::new();
        let mut chunks = chunks;
        let n = chunks.len();
        let mut k: usize = 0;
        assert(cis.take(0) =~= Seq::<IntervalModel>::empty());
        while k < n
            invariant
                k <= n,
                n == entries.len(),
                chunks@.len() == n,
                entries == self.document().entries,
                cis == chunk_intervals(entries, duration_ms),
                moved_ids@ == moved_uids(entries, selected_uids@, drag_mode, drag_target_uid),
                drag_fits(entries, duration_ms, selected_uids@, drag_mode, drag_target_uid, drag_offset_ms),
                forall|j: int| k <= j < n ==> chunk_of_entry(#[trigger] chunks@[j], entries, j, duration_ms),
                (models(statics@), models(moved@)) == split_moved(cis.take(k as int), moved_ids@, drag_mode, drag_target_uid, drag_offset_ms),
            decreases n - k,
        {
            let c = chunks[k].clone_chunk();
            proof {
                assert(chunk_of_entry(c, entries, k as int, duration_ms));
            }
            let mut i = interval_of_chunk(c);
            proof {
                assert(model(i) =~= chunk_interval(entries, k as int, duration_ms));
                assert(cis[k as int] == model(i));
                assert(cis.take(k + 1).drop_last() =~= cis.take(k as int));
                assert(cis.take(k + 1).last() == model(i));
            }
            let ghost st0 = models(statics@);
            let ghost mv0 = models(moved@);
            if contains_id(&moved_ids, i.uid) {
                proof {
                    assert(moved_ids@.contains(chunk_interval(entries, k as int, duration_ms).uid));
                    assert(adjust_fits(chunk_interval(entries, k as int, duration_ms), drag_mode, drag_target_uid, drag_offset_ms));
                }
                let is_target = Self::is_target(drag_target_uid, i.uid);
                match drag_mode {
                    DragTarget::Body => {
                        i.start = shift(i.start, drag_offset_ms);
                        i.end = shift(i.end, drag_offset_ms);
                    },
                    DragTarget::LeftEdge => {
                        if is_target {
                            i.start = shift(i.start, drag_offset_ms);
                        }
                    },
                    DragTarget::RightEdge => {
                        if is_target {
                            i.end = shift(i.end, drag_offset_ms);
                        }
                    },
                    DragTarget::Boundary => {
                        if is_target {
                            i.end = shift(i.end, drag_offset_ms);
                        } else {
                            i.start = shift(i.start, drag_offset_ms);
                        }
                    },
                    _ => {},
                }
                proof {
                    assert(model(i) =~= adjusted(cis[k as int], drag_mode, drag_target_uid, drag_offset_ms));
                }
                if i.end.0 > i.start.0 {
                    moved.push(i);
                    assert(models(moved@) =~= mv0.push(model(i)));
                }
            } else {
                statics.push(i);
                assert(models(statics@) =~= st0.push(model(i)));
            }
            k = k + 1;
        }
        assert(cis.take(n as int) =~= cis);
        Self::resolve_overlaps(statics, moved)
    }

    /// Writes the document's metadata and the intervals as LRC text.
    fn build_lrc(&self, final_intervals: Vec<Interval>) -> (s: String)
        ensures
            s@ == lrc_text(self.document().metadata, prepared(models(final_intervals@))),
    {
        let merged = prepare(&final_intervals);
        let mut text = String::new();
        let metadata = self.doc.metadata();
        let mut i: usize = 0;
        while i < metadata.len()
            invariant
                i <= metadata@.len(),
                metadata@ == self.document().metadata,
                text@ == metadata_text(metadata@.take(i as int)),
            decreases metadata@.len() - i,
        {
            push_metadata_line(&mut text, &metadata[i]);
            i = i + 1;
            assert(metadata@.take(i as int).drop_last() =~= metadata@.take(i - 1));
        }
        assert(metadata@.take(i as int) =~= metadata@);
        write_intervals(&mut text, &merged);
        text
    }

    /// Shifts selected chunks by a given delta in milliseconds.
    pub fn shift_selected(&self, selected_uids: &[usize], delta_ms: i32, duration_ms: TimeMs) -> (s: String)
        requires
            drag_fits(
                self.document().entries,
                duration_ms,
                selected_uids@,
                DragTarget::Body,
                None,
                delta_ms,
            ),
        ensures
            s@ == lrc_text(
                self.document().metadata,
                prepared(
                    spec_preview(
                        self.document().entries,
                        duration_ms,
                        selected_uids@,
                        DragTarget::Body,
                        None,
                        delta_ms,
                    ),
                ),
            ),
    {
        let intervals = self.preview_intervals(duration_ms, selected_uids, DragTarget::Body, None, delta_ms);
        self.build_lrc(intervals)
    }

    /// Shifts the boundary of a specific chunk.
    pub fn shift_boundary(
        &self,
        chunk_uid: usize,
        left_edge: bool,
        both: bool,
        delta_ms: i32,
        duration_ms: TimeMs,
    ) -> (s: String)
        requires
            drag_fits(
                self.document().entries,
                duration_ms,
                Seq::empty(),
                boundary_mode(left_edge, both),
                Some(chunk_uid),
                delta_ms,
            ),
        ensures
            s@ == lrc_text(
                self.document().metadata,
                prepared(
                    spec_preview(
                        self.document().entries,
                        duration_ms,
                        Seq::empty(),
                        boundary_mode(left_edge, both),
                        Some(chunk_uid),
                        delta_ms,
                    ),
                ),
            ),
    {
        let mode = if both {
            DragTarget::Boundary
        } else if left_edge {
            DragTarget::LeftEdge
        } else {
            DragTarget::RightEdge
        };
        let none: [usize; 0] = [];
        let intervals = self.preview_intervals(duration_ms, &none, mode, Some(chunk_uid), delta_ms);
        proof {
            assert(none@ =~= Seq::<usize>::empty());
        }
        self.build_lrc(intervals)
    }

    /// The non-empty chunks as intervals.
    fn nonempty_intervals(&self, duration_ms: TimeMs) -> (r: Vec<Interval>)
        ensures
            models(r@) == chunk_intervals(self.document().entries, duration_ms).filter(
                |i: IntervalModel| !i.is_empty,
            ),
    {
        let chunks = self.doc.timeline_chunks(duration_ms);
        let ghost entries = self.doc@.entries;
        let ghost cis = chunk_intervals(entries, duration_ms);
        let mut statics: Vec<Interval> = Vec::new();
        let mut k: usize = 0;
        assert(cis.take(0) =~= Seq::<IntervalModel>::empty());
        while k < chunks.len()
            invariant
                k <= chunks@.len(),
                chunks@.len() == entries.len(),
                entries == self.document().entries,
                cis == chunk_intervals(entries, duration_ms),
                forall|j: int| 0 <= j < chunks@.len() ==> chunk_of_entry(#[trigger] chunks@[j], entries, j, duration_ms),
                models(statics@) == cis.take(k as int).filter(|i: IntervalModel| !i.is_empty),
            decreases chunks@.len() - k,
        {
            let c = chunks[k].clone_chunk();
            proof {
                assert(chunk_of_entry(chunks@[k as int], entries, k as int, duration_ms));
            }
            let i = interval_of_chunk(c);
            proof {
                reveal_with_fuel(Seq::filter, 1);
                assert(model(i) =~= chunk_interval(entries, k as int, duration_ms));
                assert(cis.take(k + 1).drop_last() =~= cis.take(k as int));
                assert(cis.take(k + 1).last() == model(i));
            }
            let ghost before = models(statics@);
            if !i.is_empty {
                statics.push(i);
                assert(models(statics@) =~= before.push(model(i)));
            }
            k = k + 1;
        }
        assert(cis.take(k as int) =~= cis);
        statics
    }

    /// Adds a new chunk to the timeline track.
    pub fn add_chunk(&self, start: TimeMs, end: TimeMs, duration_ms: TimeMs) -> (s: String)
        ensures
            s@ == lrc_text(
                self.document().metadata,
                prepared(
                    resolve(
                        chunk_intervals(self.document().entries, duration_ms).filter(
                            |i: IntervalModel| !i.is_empty,
                        ),
                        seq![new_chunk(start.0, end.0)],
                    ),
                ),
            ),
    {
        let statics = self.nonempty_intervals(duration_ms);
        let mut label = String::new();
        push_text(&mut label, "Change me");
        let fresh = Interval {
            entry_id: 0,
            uid: 0,
            color_index: 0,
            start,
            end,
            raw_text: label,
            is_empty: false,
        };
        let mut added: Vec<Interval> = Vec::new();
        added.push(fresh);
        proof {
            assert(models(added@) =~= seq![new_chunk(start.0, end.0)]);
        }
        let resolved = Self::resolve_overlaps(statics, added);
        // Colour the new chunk unlike its nearest neighbours; colours are not written.
        let best_color = pick_color(&resolved);
        let recolored = recolor_new(resolved, best_color);
        let ghost a = models(recolored@);
        proof {
            lemma_lrc_prepared_strip(self.document().metadata, a);
            lemma_lrc_prepared_strip(
                self.document().metadata,
                resolve(
                    chunk_intervals(self.document().entries, duration_ms).filter(
                        |i: IntervalModel| !i.is_empty,
                    ),
                    seq![new_chunk(start.0, end.0)],
                ),
            );
        }
        self.build_lrc(recolored)
    }
}

/// The drag mode of a boundary shift.
pub open spec fn boundary_mode(left_edge: bool, both: bool) -> DragTarget {
    if both {
        DragTarget::Boundary
    } else if left_edge {
        DragTarget::LeftEdge
    } else {
        DragTarget::RightEdge
    }
}

/// The chunk `add_chunk` inserts.
pub open spec fn new_chunk(start: u32, end: u32) -> IntervalModel {
    IntervalModel {
        entry_id: 0,
        uid: 0,
        color_index: 0,
        start,
        end,
        raw_text: "Change me"@,
        is_empty: false,
    }
}

// ---------------------------------------------------------------------------
// Colours do not reach the text
// ---------------------------------------------------------------------------

pub open spec fn strip(x: IntervalModel) -> IntervalModel {
    IntervalModel { color_index: 0, ..x }
}

pub open spec fn strip_all(s: Seq<IntervalModel>) -> Seq<IntervalModel> {
    s.map_values(|x: IntervalModel| strip(x))
}

proof fn lemma_fill_gaps_strip(a: Seq<IntervalModel>, c: u32)
    ensures
        fill_gaps(strip_all(a), c) == strip_all(fill_gaps(a, c)),
    decreases a.len(),
{
    if a.len() > 0 {
        let i = a[0];
        assert(strip_all(a).drop_first() =~= strip_all(a.drop_first()));
        assert(strip_all(a)[0] == strip(i));
        lemma_fill_gaps_strip(a.drop_first(), i.end);
        let p = if i.start > c {
            seq![gap(c, i.start), i]
        } else {
            seq![i]
        };
        assert(strip_all(p + fill_gaps(a.drop_first(), i.end)) =~= strip_all(p) + strip_all(
            fill_gaps(a.drop_first(), i.end),
        ));
        assert(strip(gap(c, i.start)) =~= gap(c, i.start));
        if i.start > c {
            assert(strip_all(p) =~= seq![gap(c, i.start), strip(i)]);
        } else {
            assert(strip_all(p) =~= seq![strip(i)]);
        }
    } else {
        assert(strip_all(a) =~= Seq::<IntervalModel>::empty());
        assert(strip_all(Seq::<IntervalModel>::empty()) =~= Seq::<IntervalModel>::empty());
    }
}

proof fn lemma_merge_empty_strip(a: Seq<IntervalModel>)
    ensures
        merge_empty(strip_all(a)) == strip_all(merge_empty(a)),
    decreases a.len(),
{
    if a.len() > 0 {
        assert(strip_all(a).drop_last() =~= strip_all(a.drop_last()));
        assert(strip_all(a).last() == strip(a.last()));
        lemma_merge_empty_strip(a.drop_last());
        let m = merge_empty(a.drop_last());
        if m.len() > 0 && m.last().is_empty && a.last().is_empty {
            assert(strip_all(m).last() == strip(m.last()));
            assert(strip_all(m.drop_last().push(with_end(m.last(), a.last().end))) =~= strip_all(
                m,
            ).drop_last().push(with_end(strip_all(m).last(), a.last().end)));
        } else {
            assert(strip_all(m.push(a.last())) =~= strip_all(m).push(strip(a.last())));
        }
    } else {
        assert(strip_all(a) =~= Seq::<IntervalModel>::empty());
        assert(strip_all(Seq::<IntervalModel>::empty()) =~= Seq::<IntervalModel>::empty());
    }
}

proof fn lemma_filter_strip(a: Seq<IntervalModel>)
    ensures
        strip_all(a).filter(|i: IntervalModel| i.end > i.start) == strip_all(
            a.filter(|i: IntervalModel| i.end > i.start),
        ),
    decreases a.len(),
{
    reveal_with_fuel(Seq::filter, 1);
    if a.len() > 0 {
        assert(strip_all(a).drop_last() =~= strip_all(a.drop_last()));
        assert(strip_all(a).last() == strip(a.last()));
        lemma_filter_strip(a.drop_last());
        let f = a.drop_last().filter(|i: IntervalModel| i.end > i.start);
        assert(strip_all(f.push(a.last())) =~= strip_all(f).push(strip(a.last())));
    } else {
        assert(strip_all(a) =~= Seq::<IntervalModel>::empty());
        assert(strip_all(Seq::<IntervalModel>::empty()) =~= Seq::<IntervalModel>::empty());
    }
}

proof fn lemma_prepared_strip(a: Seq<IntervalModel>)
    ensures
        prepared(strip_all(a)) == strip_all(prepared(a)),
{
    let first = if a.len() > 0 {
        a[0].start
    } else {
        0u32
    };
    if a.len() > 0 {
        assert(strip_all(a)[0] == strip(a[0]));
    }
    lemma_fill_gaps_strip(a, first);
    lemma_merge_empty_strip(fill_gaps(a, first));
    lemma_filter_strip(merge_empty(fill_gaps(a, first)));
    let kept = merge_empty(fill_gaps(a, first)).filter(|i: IntervalModel| i.end > i.start);
    if kept.len() > 0 {
        assert(strip_all(kept).last() == strip(kept.last()));
        assert(strip_all(kept).drop_last() =~= strip_all(kept.drop_last()));
    }
}

proof fn lemma_any_text_strip(a: Seq<IntervalModel>)
    ensures
        any_text(strip_all(a)) == any_text(a),
{
    if any_text(a) {
        let k = choose|k: int| 0 <= k < a.len() && has_text(#[trigger] a[k]);
        assert(strip_all(a)[k] == strip(a[k]));
    }
    if any_text(strip_all(a)) {
        let k = choose|k: int| 0 <= k < strip_all(a).len() && has_text(#[trigger] strip_all(a)[k]);
        assert(strip_all(a)[k] == strip(a[k]));
    }
}

proof fn lemma_body_text_strip(a: Seq<IntervalModel>)
    ensures
        body_text(strip_all(a)) == body_text(a),
    decreases a.len(),
{
    if a.len() > 0 {
        assert(strip_all(a).drop_last() =~= strip_all(a.drop_last()));
        assert(strip_all(a).last() == strip(a.last()));
        lemma_body_text_strip(a.drop_last());
        lemma_any_text_strip(a.drop_last());
    }
}

/// The text written for intervals does not depend on their colours.
pub proof fn lemma_lrc_prepared_strip(meta: Seq<crate::metadata::MetadataTag>, a: Seq<IntervalModel>)
    ensures
        lrc_text(meta, prepared(a)) == lrc_text(meta, prepared(strip_all(a))),
{
    lemma_prepared_strip(a);
    let p = prepared(a);
    lemma_body_text_strip(p);
    lemma_any_text_strip(p);
    if p.len() > 0 {
        assert(strip_all(p).last() == strip(p.last()));
    }
}

// ---------------------------------------------------------------------------
// The colour of a new chunk
// ---------------------------------------------------------------------------

/// The colours of the non-empty intervals, and whether each is new (identity 0).
pub open spec fn shown_colors(s: Seq<IntervalModel>) -> Seq<(u8, bool)>
    decreases s.len(),
{
    if s.len() == 0 {
        Seq::empty()
    } else if s.last().is_empty {
        shown_colors(s.drop_last())
    } else {
        shown_colors(s.drop_last()).push((s.last().color_index, s.last().uid == 0))
    }
}

/// `k` is the first new interval.
pub open spec fn is_first_new(cs: Seq<(u8, bool)>, k: int) -> bool {
    &&& 0 <= k < cs.len()
    &&& cs[k].1
    &&& forall|j: int| 0 <= j < k ==> !(#[trigger] cs[j]).1
}

/// `l` is the nearest interval of colour `c` before `k`.
pub open spec fn is_nearest_before(cs: Seq<(u8, bool)>, k: int, c: u8, l: int) -> bool {
    &&& 0 <= l < k
    &&& cs[l].0 == c
    &&& forall|m: int| l < m < k ==> (#[trigger] cs[m]).0 != c
}

/// `r` is the nearest interval of colour `c` after `k`.
pub open spec fn is_nearest_after(cs: Seq<(u8, bool)>, k: int, c: u8, r: int) -> bool {
    &&& k < r < cs.len()
    &&& cs[r].0 == c
    &&& forall|m: int| k < m < r ==> (#[trigger] cs[m]).0 != c
}

/// How many intervals back the nearest one of colour `c` lies, or `i32::MAX`.
pub open spec fn gap_before(cs: Seq<(u8, bool)>, k: int, c: u8) -> i32 {
    if exists|l: int| is_nearest_before(cs, k, c, l) {
        (k - choose|l: int| is_nearest_before(cs, k, c, l)) as i32
    } else {
        i32::MAX
    }
}

/// How many intervals ahead the nearest one of colour `c` lies, or `i32::MAX`.
pub open spec fn gap_after(cs: Seq<(u8, bool)>, k: int, c: u8) -> i32 {
    if exists|r: int| is_nearest_after(cs, k, c, r) {
        ((choose|r: int| is_nearest_after(cs, k, c, r)) - k) as i32
    } else {
        i32::MAX
    }
}

pub open spec fn spacing(cs: Seq<(u8, bool)>, k: int, c: u8) -> i32 {
    if gap_before(cs, k, c) < gap_after(cs, k, c) {
        gap_before(cs, k, c)
    } else {
        gap_after(cs, k, c)
    }
}

/// Among colours `0..n`, the first with the widest spacing, and that spacing
/// (`(0, -1)` for no colour).
pub open spec fn widest(cs: Seq<(u8, bool)>, k: int, n: nat) -> (u8, int)
    decreases n,
{
    if n == 0 {
        (0, -1)
    } else {
        let (b, m) = widest(cs, k, (n - 1) as nat);
        let d = spacing(cs, k, (n - 1) as u8);
        if d > m {
            ((n - 1) as u8, d as int)
        } else {
            (b, m)
        }
    }
}

/// The colour for the new chunk: of the six, the first that keeps it furthest
/// from a chunk of the same colour; 0 when there is no new chunk.
pub open spec fn chosen_color(s: Seq<IntervalModel>) -> u8 {
    let cs = shown_colors(s);
    if exists|k: int| is_first_new(cs, k) {
        widest(cs, choose|k: int| is_first_new(cs, k), 6).0
    } else {
        0
    }
}

/// The colour (0 to 5) that keeps the new chunk furthest from chunks of the same colour.
fn pick_color(resolved: &Vec<Interval>) -> (c: u8)
    ensures
        c == chosen_color(models(resolved@)),
        c < 6,
{
    let ghost ms = models(resolved@);
    let mut colors: Vec<u8> = Vec::new();
    let mut fresh: Vec<bool> = Vec::new();
    let mut k: usize = 0;
    while k < resolved.len()
        invariant
            k <= resolved@.len(),
            ms == models(resolved@),
            colors@.len() == fresh@.len(),
            forall|j: int|
                0 <= j < colors@.len() ==> (#[trigger] shown_colors(ms.take(k as int))[j]) == (
                colors@[j],
                fresh@[j],
            ),
            shown_colors(ms.take(k as int)).len() == colors@.len(),
        decreases resolved@.len() - k,
    {
        proof {
            assert(ms.take(k + 1).drop_last() =~= ms.take(k as int));
            assert(ms.take(k + 1).last() == model(resolved@[k as int]));
        }
        if !resolved[k].is_empty {
            colors.push(resolved[k].color_index);
            fresh.push(resolved[k].uid == 0);
        }
        k = k + 1;
    }
    assert(ms.take(k as int) =~= ms);
    let ghost cs = shown_colors(ms);
    assert(cs =~= Seq::new(colors@.len(), |j: int| (colors@[j], fresh@[j])));
    let mut new_idx: usize = 0;
    while new_idx < fresh.len() && !fresh[new_idx]
        invariant
            new_idx <= fresh@.len(),
            forall|j: int| 0 <= j < new_idx ==> !fresh@[j],
        decreases fresh@.len() - new_idx,
    {
        new_idx = new_idx + 1;
    }
    if new_idx >= fresh.len() {
        proof {
            assert forall|q: int| !is_first_new(cs, q) by {
                if 0 <= q < cs.len() {
                    assert(!fresh@[q]);
                }
            }
        }
        return 0;
    }
    proof {
        assert(is_first_new(cs, new_idx as int));
        let q = choose|q: int| is_first_new(cs, q);
        if q < new_idx {
            assert(!fresh@[q]);
        } else if new_idx < q {
            assert(!cs[new_idx as int].1);
        }
    }
    let ghost ki = new_idx as int;
    let mut best_color: u8 = 0;
    let mut max_dist: i32 = -1;
    let mut c: u8 = 0;
    while c < 6
        invariant
            c <= 6,
            best_color < 6,
            cs == Seq::new(colors@.len(), |j: int| (colors@[j], fresh@[j])),
            ki == new_idx,
            new_idx < colors@.len(),
            colors@.len() == fresh@.len(),
            (best_color, max_dist as int) == widest(cs, ki, c as nat),
        decreases 6 - c,
    {
        let left_dist = gap_before_exec(&colors, new_idx, c);
        let right_dist = gap_after_exec(&colors, new_idx, c);
        proof {
            assert(forall|j: int| 0 <= j < cs.len() ==> (#[trigger] cs[j]).0 == colors@[j]);
        }
        let min_dist = if left_dist < right_dist {
            left_dist
        } else {
            right_dist
        };
        assert(min_dist == spacing(cs, ki, c));
        if min_dist > max_dist {
            max_dist = min_dist;
            best_color = c;
        }
        c = c + 1;
    }
    best_color
}

/// `gap_before` of colour `c` at `k`, over the colours `colors`.
fn gap_before_exec(colors: &Vec<u8>, k: usize, c: u8) -> (r: i32)
    requires
        k < colors@.len(),
    ensures
        forall|cs: Seq<(u8, bool)>|
            cs.len() == colors@.len() && (forall|j: int| 0 <= j < cs.len() ==> (#[trigger] cs[j]).0 == colors@[j])
                ==> r == gap_before(cs, k as int, c),
{
    let mut l: usize = k;
    while l > 0
        invariant
            l <= k < colors@.len(),
            forall|m: int| l <= m < k ==> colors@[m] != c,
        decreases l,
    {
        l = l - 1;
        if colors[l] == c {
            let r: i32 = #[verifier::truncate] ((k - l) as i32);
            proof {
                assert forall|cs: Seq<(u8, bool)>|
                    cs.len() == colors@.len() && (forall|j: int| 0 <= j < cs.len() ==> (#[trigger] cs[j]).0 == colors@[j])
                    implies r == gap_before(cs, k as int, c) by {
                    assert(is_nearest_before(cs, k as int, c, l as int));
                    let q = choose|q: int| is_nearest_before(cs, k as int, c, q);
                    if q < l {
                        assert(cs[l as int].0 == c);
                    } else if l < q {
                        assert(cs[q].0 == c);
                    }
                }
            }
            return r;
        }
    }
    proof {
        assert forall|cs: Seq<(u8, bool)>|
            cs.len() == colors@.len() && (forall|j: int| 0 <= j < cs.len() ==> (#[trigger] cs[j]).0 == colors@[j])
            implies gap_before(cs, k as int, c) == i32::MAX by {
            assert forall|q: int| !is_nearest_before(cs, k as int, c, q) by {
                if 0 <= q < k {
                    assert(cs[q].0 == colors@[q]);
                }
            }
        }
    }
    i32::MAX
}

/// `gap_after` of colour `c` at `k`, over the colours `colors`.
fn gap_after_exec(colors: &Vec<u8>, k: usize, c: u8) -> (r: i32)
    requires
        k < colors@.len(),
    ensures
        forall|cs: Seq<(u8, bool)>|
            cs.len() == colors@.len() && (forall|j: int| 0 <= j < cs.len() ==> (#[trigger] cs[j]).0 == colors@[j])
                ==> r == gap_after(cs, k as int, c),
{
    let n = colors.len();
    let mut r: usize = k + 1;
    while r < n
        invariant
            k < r <= colors@.len(),
            n == colors@.len(),
            forall|m: int| k < m < r ==> colors@[m] != c,
        decreases colors@.len() - r,
    {
        if colors[r] == c {
            let d: i32 = #[verifier::truncate] ((r - k) as i32);
            proof {
                assert forall|cs: Seq<(u8, bool)>|
                    cs.len() == colors@.len() && (forall|j: int| 0 <= j < cs.len() ==> (#[trigger] cs[j]).0 == colors@[j])
                    implies d == gap_after(cs, k as int, c) by {
                    assert(is_nearest_after(cs, k as int, c, r as int));
                    let q = choose|q: int| is_nearest_after(cs, k as int, c, q);
                    if q < r {
                        assert(cs[q].0 == c);
                    } else if r < q {
                        assert(cs[r as int].0 == c);
                    }
                }
            }
            return d;
        }
        r = r + 1;
    }
    proof {
        assert forall|cs: Seq<(u8, bool)>|
            cs.len() == colors@.len() && (forall|j: int| 0 <= j < cs.len() ==> (#[trigger] cs[j]).0 == colors@[j])
            implies gap_after(cs, k as int, c) == i32::MAX by {
            assert forall|q: int| !is_nearest_after(cs, k as int, c, q) by {
                if k < q < cs.len() {
                    assert(cs[q].0 == colors@[q]);
                }
            }
        }
    }
    i32::MAX
}

/// The intervals with every interval of identity 0 given colour `color`.
fn recolor_new(resolved: Vec<Interval>, color: u8) -> (r: Vec<Interval>)
    ensures
        r@.len() == resolved@.len(),
        forall|j: int|
            0 <= j < r@.len() ==> model(#[trigger] r@[j]) == (if resolved@[j].uid == 0 {
                IntervalModel { color_index: color, ..model(resolved@[j]) }
            } else {
                model(resolved@[j])
            }),
        strip_all(models(r@)) == strip_all(models(resolved@)),
{
    let mut out = resolved;
    let ghost orig = out@;
    let mut k: usize = 0;
    while k < out.len()
        invariant
            k <= out@.len(),
            out@.len() == orig.len(),
            forall|j: int| 0 <= j < out@.len() ==> strip(model(#[trigger] out@[j])) == strip(model(orig[j])),
            forall|j: int|
                0 <= j < k ==> model(#[trigger] out@[j]) == (if orig[j].uid == 0 {
                    IntervalModel { color_index: color, ..model(orig[j]) }
                } else {
                    model(orig[j])
                }),
            forall|j: int| k <= j < out@.len() ==> #[trigger] out@[j] == orig[j],
        decreases out@.len() - k,
    {
        if out[k].uid == 0 {
            let mut i = out[k].copy();
            i.color_index = color;
            out.set(k, i);
        }
        k = k + 1;
    }
    proof {
        assert(strip_all(models(out@)) =~= strip_all(models(orig)));
    }
    out
}

// ---------------------------------------------------------------------------
// Gaps
// ---------------------------------------------------------------------------

pub open spec fn chunk_contains(entries: Seq<LyricEntry>, duration: TimeMs, i: int, t: u32) -> bool {
    chunk_interval(entries, i, duration).start <= t < chunk_interval(entries, i, duration).end
}

pub open spec fn is_first_containing(entries: Seq<LyricEntry>, duration: TimeMs, i: int, t: u32) -> bool {
    &&& 0 <= i < entries.len()
    &&& chunk_contains(entries, duration, i, t)
    &&& forall|j: int| 0 <= j < i ==> !chunk_contains(entries, duration, j, t)
}

/// The empty stretch of the lyric lane that holds `t`, if `t` is not on a lyric chunk.
pub open spec fn spec_find_gap(doc: Option<LrcDocumentView>, t: TimeMs, duration: TimeMs) -> Option<(TimeMs, TimeMs)> {
    match doc {
        None => Some((TimeMs(0), duration)),
        Some(v) => {
            let entries = v.entries;
            if entries.len() == 0 {
                Some((TimeMs(0), duration))
            } else if t.0 < entries[0].time.0 {
                Some((TimeMs(0), entries[0].time))
            } else if exists|i: int| is_first_containing(entries, duration, i, t.0) {
                let i = choose|i: int| is_first_containing(entries, duration, i, t.0);
                if entries[i].display_text@.len() == 0 {
                    Some((entries[i].time, TimeMs(chunk_interval(entries, i, duration).end)))
                } else {
                    None
                }
            } else if entries.last().time.0 <= t.0 && t.0 < duration.0 {
                Some((entries.last().time, duration))
            } else {
                None
            }
        },
    }
}

/// Helper function to find the gap containing the given time.
pub fn find_gap(doc: Option<&LrcDocument>, t: TimeMs, duration_ms: TimeMs) -> (r: Option<(TimeMs, TimeMs)>)
    ensures
        r == spec_find_gap(
            match doc {
                Some(d) => Some(d@),
                None => None,
            },
            t,
            duration_ms,
        ),
{
    let d = match doc {
        Some(d) => d,
        None => {
            return Some((TimeMs(0), duration_ms));
        },
    };
    let entries = d.entries();
    if entries.len() == 0 {
        return Some((TimeMs(0), duration_ms));
    }
    let first_start = entries[0].time;
    if t.0 < first_start.0 {
        return Some((TimeMs(0), first_start));
    }
    let chunks = d.timeline_chunks(duration_ms);
    let ghost es = d@.entries;
    let mut k: usize = 0;
    while k < chunks.len()
        invariant
            k <= chunks@.len(),
            chunks@.len() == es.len(),
            es == d@.entries,
            doc == Some(d),
            es.len() > 0,
            es[0].time.0 <= t.0,
            forall|j: int| 0 <= j < chunks@.len() ==> chunk_of_entry(#[trigger] chunks@[j], es, j, duration_ms),
            forall|j: int| 0 <= j < k ==> !chunk_contains(es, duration_ms, j, t.0),
        decreases chunks@.len() - k,
    {
        let chunk = &chunks[k];
        proof {
            assert(chunk_of_entry(chunks@[k as int], es, k as int, duration_ms));
        }
        if t.0 >= chunk.start_ms.0 && t.0 < chunk.end_ms.0 {
            proof {
                assert(is_first_containing(es, duration_ms, k as int, t.0));
                let i = choose|i: int| is_first_containing(es, duration_ms, i, t.0);
                if i < k {
                    assert(!chunk_contains(es, duration_ms, i, t.0));
                } else if k < i {
                    assert(!chunk_contains(es, duration_ms, k as int, t.0));
                }
            }
            proof {
                let i = choose|i: int| is_first_containing(es, duration_ms, i, t.0);
                assert(i == k);
                assert(exists|i: int| is_first_containing(es, duration_ms, i, t.0));
                assert(chunk.is_empty == (es[k as int].display_text@.len() == 0));
                assert(chunk.start_ms == es[k as int].time);
                assert(chunk.end_ms == TimeMs(chunk_interval(es, k as int, duration_ms).end));
            }
            if chunk.is_empty {
                return Some((chunk.start_ms, chunk.end_ms));
            } else {
                return None;
            }
        }
        k = k + 1;
    }
    let last_end = entries[entries.len() - 1].time;
    if t.0 >= last_end.0 && t.0 < duration_ms.0 {
        return Some((last_end, duration_ms));
    }
    None
}

} // verus!
