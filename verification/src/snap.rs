//! Snapping the playhead and dragged chunk edges to nearby boundaries.
//!
//! How close is close enough is a distance in pixels turned into milliseconds
//! by the zoom level; callers pass that distance in milliseconds.
use vstd::prelude::*;

use crate::document::LrcDocumentView;
use crate::entry::LyricEntry;
use crate::state::{contains_uid, doc_view, end_of, AppAction, AppState};
use crate::time::TimeMs;
use crate::timeline::{
    chunk_intervals, find_gap, moved_uids, spec_find_gap, DragTarget, IntervalModel, TimelineEditor,
};

verus! {

pub open spec fn abs_int(x: int) -> int {
    if x < 0 {
        -x
    } else {
        x
    }
}

/// One step of the search for the adjustment of least magnitude: a later
/// candidate wins only when it is strictly smaller.
pub open spec fn better_adjust(best: Option<int>, x: int) -> Option<int> {
    match best {
        None => Some(x),
        Some(b) => if abs_int(x) < abs_int(b) {
            Some(x)
        } else {
            Some(b)
        },
    }
}

/// The first candidate of least magnitude, if there is any candidate.
pub open spec fn best_adjust(c: Seq<int>) -> Option<int>
    decreases c.len(),
{
    if c.len() == 0 {
        None
    } else {
        better_adjust(best_adjust(c.drop_last()), c.last())
    }
}

/// An adjustment that `i32` holds and whose magnitude `i32` holds too.
pub open spec fn adjust_fits(a: int) -> bool {
    i32::MIN < a <= i32::MAX
}

/// How far point `p`, read as `i32`, lies from `from`.
pub open spec fn toward(p: u32, from: int) -> int {
    (p as i32) as int - from
}

/// Start and end of each interval, in order.
pub open spec fn interval_points(cs: Seq<IntervalModel>) -> Seq<u32>
    decreases cs.len(),
{
    if cs.len() == 0 {
        Seq::empty()
    } else {
        interval_points(cs.drop_last()) + seq![cs.last().start, cs.last().end]
    }
}

pub open spec fn entries_of(d: Option<LrcDocumentView>) -> Seq<LyricEntry> {
    match d {
        Some(v) => v.entries,
        None => Seq::empty(),
    }
}

/// The chunks of the state's document on a timeline of `duration`.
pub open spec fn state_chunks(s: AppState, duration: TimeMs) -> Seq<IntervalModel> {
    chunk_intervals(entries_of(doc_view(s.document.document)), duration)
}

/// What the playhead snaps to: the timeline's start and end, the end of the
/// audio, and the start and end of every chunk.
pub open spec fn playhead_points(s: AppState, duration: TimeMs) -> Seq<u32> {
    seq![0u32, duration.0, s.playback.duration_ms.0] + interval_points(state_chunks(s, duration))
}

/// The adjustments that would move `target` onto each point.
pub open spec fn playhead_candidates(s: AppState, target: TimeMs, duration: TimeMs) -> Seq<int> {
    playhead_points(s, duration).map_values(|p: u32| toward(p, (target.0 as i32) as int))
}

/// No adjustment overflows `i32`.
pub open spec fn playhead_fits(s: AppState, target: TimeMs, duration: TimeMs) -> bool {
    forall|k: int|
        0 <= k < playhead_points(s, duration).len() ==> adjust_fits(
            #[trigger] toward(playhead_points(s, duration)[k], (target.0 as i32) as int),
        )
}

/// The playhead time after snapping: moved onto the nearest point (the first
/// of equally near ones) when that is within `threshold`, else unchanged.
pub open spec fn snapped_playhead(s: AppState, target: TimeMs, duration: TimeMs, threshold: i32) -> TimeMs {
    match best_adjust(playhead_candidates(s, target, duration)) {
        Some(a) => if abs_int(a) <= threshold {
            let v = (target.0 as i32) as int + a;
            TimeMs(
                if v < 0 {
                    0
                } else {
                    v as u32
                },
            )
        } else {
            target
        },
        None => target,
    }
}

/// `best_adjust` picks the first candidate of least magnitude.
pub proof fn lemma_best_adjust_nearest(c: Seq<int>)
    ensures
        c.len() == 0 <==> best_adjust(c) is None,
        best_adjust(c) matches Some(a) ==> exists|i: int|
            0 <= i < c.len() && c[i] == a && (forall|j: int|
                0 <= j < c.len() ==> abs_int(a) <= abs_int(#[trigger] c[j])) && (forall|j: int|
                0 <= j < i ==> abs_int(a) < abs_int(#[trigger] c[j])),
    decreases c.len(),
{
    if c.len() > 0 {
        let p = c.drop_last();
        lemma_best_adjust_nearest(p);
        match best_adjust(p) {
            None => {
                assert(c[c.len() - 1] == c.last());
            },
            Some(b) => {
                let i = choose|i: int|
                    0 <= i < p.len() && p[i] == b && (forall|j: int|
                        0 <= j < p.len() ==> abs_int(b) <= abs_int(#[trigger] p[j])) && (forall|j: int|
                        0 <= j < i ==> abs_int(b) < abs_int(#[trigger] p[j]));
                if abs_int(c.last()) < abs_int(b) {
                    let k = c.len() - 1;
                    assert(c[k] == c.last());
                    assert forall|j: int| 0 <= j < c.len() implies abs_int(c.last()) <= abs_int(
                        #[trigger] c[j],
                    ) by {
                        if j < k {
                            assert(c[j] == p[j]);
                        }
                    }
                    assert forall|j: int| 0 <= j < k implies abs_int(c.last()) < abs_int(
                        #[trigger] c[j],
                    ) by {
                        assert(c[j] == p[j]);
                    }
                } else {
                    assert(c[i] == p[i]);
                    assert forall|j: int| 0 <= j < c.len() implies abs_int(b) <= abs_int(#[trigger] c[j]) by {
                        if j < c.len() - 1 {
                            assert(c[j] == p[j]);
                        }
                    }
                    assert forall|j: int| 0 <= j < i implies abs_int(b) < abs_int(#[trigger] c[j]) by {
                        assert(c[j] == p[j]);
                    }
                }
            },
        }
    }
}

/// Appends the start and end of every chunk of the state's document.
fn push_chunk_points(state: &AppState, duration_ms: TimeMs, pts: &mut Vec<u32>)
    ensures
        final(pts)@ == old(pts)@ + interval_points(state_chunks(*state, duration_ms)),
{
    let ghost head = pts@;
    match &state.document.document {
        None => {
            assert(state_chunks(*state, duration_ms) =~= Seq::<IntervalModel>::empty());
            assert(pts@ =~= head + Seq::<u32>::empty());
        },
        Some(doc) => {
            let chunks = doc.timeline_chunks(duration_ms);
            let ghost cis = state_chunks(*state, duration_ms);
            assert(cis == chunk_intervals(doc@.entries, duration_ms));
            let mut i: usize = 0;
            assert(cis.take(0) =~= Seq::<IntervalModel>::empty());
            assert(pts@ =~= head + interval_points(cis.take(0)));
            while i < chunks.len()
                invariant
                    i <= chunks@.len(),
                    chunks@.len() == cis.len(),
                    cis == chunk_intervals(doc@.entries, duration_ms),
                    forall|j: int|
                        0 <= j < chunks@.len() ==> crate::document::chunk_of_entry(
                            #[trigger] chunks@[j],
                            doc@.entries,
                            j,
                            duration_ms,
                        ),
                    pts@ == head + interval_points(cis.take(i as int)),
                decreases chunks@.len() - i,
            {
                proof {
                    assert(crate::document::chunk_of_entry(chunks@[i as int], doc@.entries, i as int, duration_ms));
                    assert(cis.take(i + 1).drop_last() =~= cis.take(i as int));
                    assert(cis.take(i + 1).last() == cis[i as int]);
                }
                pts.push(chunks[i].start_ms.0);
                pts.push(chunks[i].end_ms.0);
                i = i + 1;
                assert(pts@ =~= head + interval_points(cis.take(i as int)));
            }
            assert(cis.take(i as int) =~= cis);
        },
    }
}

/// The first of the least adjustments that move `from` onto a point of `pts`,
/// continuing a search that stood at `best`.
fn search_row(pts: &Vec<u32>, from: i32, best: Option<i32>, Ghost(before): Ghost<Seq<int>>) -> (r: Option<i32>)
    requires
        opt_int(best) == best_adjust(before),
        best matches Some(b) ==> b > i32::MIN,
        forall|k: int| 0 <= k < pts@.len() ==> adjust_fits(#[trigger] toward(pts@[k], from as int)),
    ensures
        opt_int(r) == best_adjust(before + row(pts@, from as int)),
        r matches Some(b) ==> b > i32::MIN,
{
    let ghost rw = row(pts@, from as int);
    let mut best = best;
    let mut j: usize = 0;
    assert(before + rw.take(0) =~= before);
    while j < pts.len()
        invariant
            j <= pts@.len(),
            rw == row(pts@, from as int),
            forall|k: int| 0 <= k < pts@.len() ==> adjust_fits(#[trigger] toward(pts@[k], from as int)),
            opt_int(best) == best_adjust(before + rw.take(j as int)),
            best matches Some(b) ==> b > i32::MIN,
        decreases pts@.len() - j,
    {
        assert(adjust_fits(toward(pts@[j as int], from as int)));
        let adjust: i32 = (pts[j] as i32) - from;
        proof {
            let c = before + rw.take(j + 1);
            assert(c.drop_last() =~= before + rw.take(j as int));
            assert(c.last() == adjust);
        }
        let take = match best {
            None => true,
            Some(b) => abs_i32(adjust) < abs_i32(b),
        };
        if take {
            best = Some(adjust);
        }
        j = j + 1;
    }
    assert(rw.take(j as int) =~= rw);
    best
}

pub open spec fn opt_int(o: Option<i32>) -> Option<int> {
    match o {
        Some(x) => Some(x as int),
        None => None,
    }
}

/// The adjustments that move `from` onto each point, in order.
pub open spec fn row(pts: Seq<u32>, from: int) -> Seq<int> {
    pts.map_values(|p: u32| toward(p, from))
}

fn abs_i32(x: i32) -> (r: i32)
    requires
        x > i32::MIN,
    ensures
        r == abs_int(x as int),
{
    if x < 0 {
        -x
    } else {
        x
    }
}


// ---------------------------------------------------------------------------
// Dragging
// ---------------------------------------------------------------------------

/// Whether `k` is where `x` belongs in the ascending `s`: every element before
/// it is smaller and the one at it, if any, is not.
pub open spec fn is_insert_point(s: Seq<u32>, x: u32, k: int) -> bool {
    &&& 0 <= k <= s.len()
    &&& forall|j: int| 0 <= j < k ==> (#[trigger] s[j]) < x
    &&& k < s.len() ==> s[k] >= x
}

/// `x` added to the ascending `s` unless it is already there.
pub open spec fn insert_ascending(s: Seq<u32>, x: u32) -> Seq<u32> {
    let k = choose|k: int| is_insert_point(s, x, k);
    if k < s.len() && s[k] == x {
        s
    } else {
        s.insert(k, x)
    }
}

/// The points of `s` in ascending order, each once.
pub open spec fn ascending_unique(s: Seq<u32>) -> Seq<u32>
    decreases s.len(),
{
    if s.len() == 0 {
        Seq::empty()
    } else {
        insert_ascending(ascending_unique(s.drop_last()), s.last())
    }
}

pub open spec fn is_moved(moved: Seq<usize>) -> spec_fn(IntervalModel) -> bool {
    |c: IntervalModel| moved.contains(c.uid)
}

pub open spec fn is_static(moved: Seq<usize>) -> spec_fn(IntervalModel) -> bool {
    |c: IntervalModel| !moved.contains(c.uid)
}

/// The drag modes that move chunks.
pub open spec fn drags_chunks(mode: DragTarget) -> bool {
    mode is Body || mode is LeftEdge || mode is RightEdge || mode is Boundary
}

/// The identities a drag moves in the state's document.
pub open spec fn drag_moved(s: AppState, mode: DragTarget, target: Option<usize>) -> Seq<usize> {
    moved_uids(entries_of(doc_view(s.document.document)), s.view.selection@.selected, mode, target)
}

/// What a dragged edge snaps to, before sorting: the timeline's start and end,
/// the playhead, the end of the audio, and both ends of every chunk that does
/// not move.
pub open spec fn static_points_unsorted(s: AppState, duration: TimeMs, moved: Seq<usize>) -> Seq<u32> {
    seq![0u32, duration.0, s.playback.current_time_ms.0, s.playback.duration_ms.0] + interval_points(
        state_chunks(s, duration).filter(is_static(moved)),
    )
}

/// The snap points, ascending and without repeats.
pub open spec fn static_points(s: AppState, duration: TimeMs, moved: Seq<usize>) -> Seq<u32> {
    ascending_unique(static_points_unsorted(s, duration, moved))
}

/// The edges of a moving chunk that the drag carries, shifted by `raw`.
pub open spec fn edges_of(c: IntervalModel, mode: DragTarget, target: Option<usize>, raw: i32) -> Seq<int> {
    let start = (c.start as i32) as int + raw;
    let end = (c.end as i32) as int + raw;
    match mode {
        DragTarget::Body => seq![start, end],
        DragTarget::LeftEdge => if target == Some(c.uid) {
            seq![start]
        } else {
            Seq::empty()
        },
        DragTarget::RightEdge | DragTarget::Boundary => if target == Some(c.uid) {
            seq![end]
        } else {
            Seq::empty()
        },
        _ => Seq::empty(),
    }
}

pub open spec fn edge_points(cs: Seq<IntervalModel>, mode: DragTarget, target: Option<usize>, raw: i32) -> Seq<int>
    decreases cs.len(),
{
    if cs.len() == 0 {
        Seq::empty()
    } else {
        edge_points(cs.drop_last(), mode, target, raw) + edges_of(cs.last(), mode, target, raw)
    }
}

/// The dragged edges, chunk by chunk.
pub open spec fn moving_edges(s: AppState, duration: TimeMs, mode: DragTarget, target: Option<usize>, raw: i32) -> Seq<int> {
    edge_points(state_chunks(s, duration).filter(is_moved(drag_moved(s, mode, target))), mode, target, raw)
}

/// For each edge in turn, the adjustments onto each point in turn.
pub open spec fn drag_candidates(edges: Seq<int>, pts: Seq<u32>) -> Seq<int>
    decreases edges.len(),
{
    if edges.len() == 0 {
        Seq::empty()
    } else {
        drag_candidates(edges.drop_last(), pts) + row(pts, edges.last())
    }
}

pub open spec fn drag_adjust(s: AppState, mode: DragTarget, target: Option<usize>, raw: i32, duration: TimeMs) -> Option<int> {
    best_adjust(
        drag_candidates(
            moving_edges(s, duration, mode, target, raw),
            static_points(s, duration, drag_moved(s, mode, target)),
        ),
    )
}

/// The drag offset after snapping: the first dragged edge nearest to a snap
/// point moves onto it when within `threshold`; other drags keep `raw`.
pub open spec fn snapped_offset(
    s: AppState,
    mode: DragTarget,
    target: Option<usize>,
    raw: i32,
    duration: TimeMs,
    threshold: i32,
) -> int {
    if !drags_chunks(mode) {
        raw as int
    } else {
        match drag_adjust(s, mode, target, raw, duration) {
            Some(a) => if abs_int(a) <= threshold {
                raw + a
            } else {
                raw as int
            },
            None => raw as int,
        }
    }
}

/// The arithmetic of snapping a drag stays within `i32`.
pub open spec fn drag_snap_fits(
    s: AppState,
    mode: DragTarget,
    target: Option<usize>,
    raw: i32,
    duration: TimeMs,
    threshold: i32,
) -> bool {
    drags_chunks(mode) ==> {
        let edges = moving_edges(s, duration, mode, target, raw);
        let pts = static_points(s, duration, drag_moved(s, mode, target));
        &&& forall|i: int| 0 <= i < edges.len() ==> i32::MIN <= #[trigger] edges[i] <= i32::MAX
        &&& forall|i: int, k: int|
            0 <= i < edges.len() && 0 <= k < pts.len() ==> adjust_fits(
                #[trigger] toward(pts[k], edges[i]),
            )
        &&& match drag_adjust(s, mode, target, raw, duration) {
            Some(a) => abs_int(a) <= threshold ==> i32::MIN <= raw + a <= i32::MAX,
            None => true,
        }
    }
}

proof fn lemma_insert_point_unique(s: Seq<u32>, x: u32, a: int, b: int)
    requires
        is_insert_point(s, x, a),
        is_insert_point(s, x, b),
    ensures
        a == b,
{
    if a < b {
        assert(s[a] < x);
    } else if b < a {
        assert(s[b] < x);
    }
}

/// Strictly ascending.
pub open spec fn strictly_ascending(s: Seq<u32>) -> bool {
    forall|i: int, j: int| 0 <= i < j < s.len() ==> (#[trigger] s[i]) < (#[trigger] s[j])
}

proof fn lemma_insert_point_exists(s: Seq<u32>, x: u32)
    requires
        strictly_ascending(s),
    ensures
        exists|k: int| is_insert_point(s, x, k),
    decreases s.len(),
{
    if s.len() == 0 {
        assert(is_insert_point(s, x, 0));
    } else if s.last() < x {
        assert forall|j: int| 0 <= j < s.len() implies (#[trigger] s[j]) < x by {
            if j < s.len() - 1 {
                assert(s[j] < s[s.len() - 1]);
            }
        }
        assert(is_insert_point(s, x, s.len() as int));
    } else {
        let d = s.drop_last();
        assert(strictly_ascending(d)) by {
            assert forall|i: int, j: int| 0 <= i < j < d.len() implies (#[trigger] d[i]) < (#[trigger] d[j]) by {
                assert(d[i] == s[i] && d[j] == s[j]);
            }
        }
        lemma_insert_point_exists(d, x);
        let k = choose|k: int| is_insert_point(d, x, k);
        assert forall|j: int| 0 <= j < k implies (#[trigger] s[j]) < x by {
            assert(d[j] == s[j]);
            assert(d[j] < x);
        }
        if k < d.len() {
            assert(d[k] == s[k]);
        }
        assert(is_insert_point(s, x, k));
    }
}

/// Sorting without repeats keeps exactly the points there were, in strictly
/// ascending order.
proof fn lemma_ascending_unique(s: Seq<u32>)
    ensures
        strictly_ascending(ascending_unique(s)),
        forall|x: u32| ascending_unique(s).contains(x) <==> s.contains(x),
    decreases s.len(),
{
    if s.len() > 0 {
        let d = s.drop_last();
        let x = s.last();
        lemma_ascending_unique(d);
        let a = ascending_unique(d);
        lemma_insert_point_exists(a, x);
        let k = choose|k: int| is_insert_point(a, x, k);
        let r = ascending_unique(s);
        assert(r == insert_ascending(a, x));
        assert forall|y: u32| s.contains(y) <==> d.contains(y) || y == x by {
            if s.contains(y) {
                let i = choose|i: int| 0 <= i < s.len() && s[i] == y;
                if i < d.len() {
                    assert(d[i] == y);
                }
            }
            if d.contains(y) {
                let i = choose|i: int| 0 <= i < d.len() && d[i] == y;
                assert(s[i] == y);
            }
            if y == x {
                assert(s[s.len() - 1] == y);
            }
        }
        if k < a.len() && a[k] == x {
            assert(r == a);
        } else {
            a.insert_ensures(k, x);
            assert(r == a.insert(k, x));
            assert forall|i: int, j: int| 0 <= i < j < r.len() implies (#[trigger] r[i]) < (#[trigger] r[j]) by {
                if j < k {
                    assert(r[i] == a[i] && r[j] == a[j]);
                } else if j == k {
                    assert(r[i] == a[i]);
                } else if i < k {
                    assert(r[i] == a[i] && r[j] == a[j - 1]);
                    assert(a[j - 1] >= a[k]);
                } else if i == k {
                    assert(r[j] == a[j - 1]);
                    assert(a[j - 1] >= a[k]);
                } else {
                    assert(r[i] == a[i - 1] && r[j] == a[j - 1]);
                }
            }
            assert forall|y: u32| r.contains(y) <==> a.contains(y) || y == x by {
                if r.contains(y) {
                    let i = choose|i: int| 0 <= i < r.len() && r[i] == y;
                    if i < k {
                        assert(a[i] == y);
                    } else if i > k {
                        assert(a[i - 1] == y);
                    }
                }
                if a.contains(y) {
                    let i = choose|i: int| 0 <= i < a.len() && a[i] == y;
                    if i < k {
                        assert(r[i] == y);
                    } else {
                        assert(r[i + 1] == y);
                    }
                }
                if y == x {
                    assert(r[k] == y);
                }
            }
        }
    }
}

/// Each candidate moves some dragged edge onto some point, and every such
/// move is a candidate.
proof fn lemma_drag_candidates(edges: Seq<int>, pts: Seq<u32>)
    ensures
        forall|c: int|
            drag_candidates(edges, pts).contains(c) ==> exists|j: int, k: int|
                0 <= j < edges.len() && 0 <= k < pts.len() && c == #[trigger] toward(pts[k], edges[j]),
        forall|j: int, k: int|
            0 <= j < edges.len() && 0 <= k < pts.len() ==> drag_candidates(edges, pts).contains(
                #[trigger] toward(pts[k], edges[j]),
            ),
    decreases edges.len(),
{
    if edges.len() > 0 {
        let d = edges.drop_last();
        let e = edges.last();
        lemma_drag_candidates(d, pts);
        let a = drag_candidates(d, pts);
        let b = row(pts, e);
        let all = drag_candidates(edges, pts);
        assert(all == a + b);
        assert forall|c: int| all.contains(c) implies exists|j: int, k: int|
            0 <= j < edges.len() && 0 <= k < pts.len() && c == #[trigger] toward(pts[k], edges[j]) by {
            let i = choose|i: int| 0 <= i < all.len() && all[i] == c;
            if i < a.len() {
                assert(a[i] == c);
                assert(a.contains(c));
                let (j, k) = choose|j: int, k: int|
                    0 <= j < d.len() && 0 <= k < pts.len() && c == #[trigger] toward(pts[k], d[j]);
                assert(d[j] == edges[j]);
            } else {
                let k = i - a.len();
                assert(b[k] == c);
                assert(edges[edges.len() - 1] == e);
                assert(c == toward(pts[k], edges[edges.len() - 1]));
            }
        }
        assert forall|j: int, k: int| 0 <= j < edges.len() && 0 <= k < pts.len() implies all.contains(
            #[trigger] toward(pts[k], edges[j]),
        ) by {
            if j < d.len() {
                assert(d[j] == edges[j]);
                assert(a.contains(toward(pts[k], d[j])));
                let i = choose|i: int| 0 <= i < a.len() && a[i] == toward(pts[k], d[j]);
                assert(all[i] == a[i]);
            } else {
                assert(edges[j] == e);
                assert(b[k] == toward(pts[k], e));
                assert(all[a.len() + k] == b[k]);
            }
        }
    }
}

/// The playhead is among the points a dragged edge snaps to: when the
/// playhead lies within the threshold of dragged edge `i`, and every other
/// pairing of a dragged edge with a snap point (any dragged edge with a point
/// other than the playhead, or another edge with the playhead) is strictly
/// farther apart, the snapped offset puts edge `i` exactly on the playhead.
pub proof fn lemma_drag_snaps_to_playhead(
    s: AppState,
    mode: DragTarget,
    target: Option<usize>,
    raw: i32,
    duration: TimeMs,
    threshold: i32,
    i: int,
)
    requires
        drags_chunks(mode),
        drag_snap_fits(s, mode, target, raw, duration, threshold),
        0 <= i < moving_edges(s, duration, mode, target, raw).len(),
        abs_int(toward(s.playback.current_time_ms.0, moving_edges(s, duration, mode, target, raw)[i]))
            <= threshold,
        forall|j: int|
            0 <= j < moving_edges(s, duration, mode, target, raw).len() ==> moving_edges(
                s,
                duration,
                mode,
                target,
                raw,
            )[j] == moving_edges(s, duration, mode, target, raw)[i] || abs_int(
                toward(s.playback.current_time_ms.0, #[trigger] moving_edges(s, duration, mode, target, raw)[j]),
            ) > abs_int(toward(s.playback.current_time_ms.0, moving_edges(s, duration, mode, target, raw)[i])),
        forall|j: int, p: u32|
            0 <= j < moving_edges(s, duration, mode, target, raw).len() && static_points(
                s,
                duration,
                drag_moved(s, mode, target),
            ).contains(p) && p as i32 != s.playback.current_time_ms.0 as i32 ==> abs_int(
                #[trigger] toward(p, moving_edges(s, duration, mode, target, raw)[j]),
            ) > abs_int(toward(s.playback.current_time_ms.0, moving_edges(s, duration, mode, target, raw)[i])),
    ensures
        snapped_offset(s, mode, target, raw, duration, threshold) == raw + toward(
            s.playback.current_time_ms.0,
            moving_edges(s, duration, mode, target, raw)[i],
        ),
{
    let edges = moving_edges(s, duration, mode, target, raw);
    let mv = drag_moved(s, mode, target);
    let un = static_points_unsorted(s, duration, mv);
    let pts = static_points(s, duration, mv);
    let cur = s.playback.current_time_ms.0;
    let ei = edges[i];
    let d = abs_int(toward(cur, ei));
    // The playhead is a snap point.
    assert(un[2] == cur);
    assert(un.contains(cur));
    lemma_ascending_unique(un);
    assert(pts.contains(cur));
    let kc = choose|k: int| 0 <= k < pts.len() && pts[k] == cur;
    let c = drag_candidates(edges, pts);
    lemma_drag_candidates(edges, pts);
    assert(c.contains(toward(pts[kc], edges[i])));
    let ic = choose|q: int| 0 <= q < c.len() && c[q] == toward(cur, ei);
    lemma_best_adjust_nearest(c);
    let a = best_adjust(c)->0;
    let ia = choose|q: int|
        0 <= q < c.len() && c[q] == a && (forall|j: int| 0 <= j < c.len() ==> abs_int(a) <= abs_int(#[trigger] c[j]))
            && (forall|j: int| 0 <= j < q ==> abs_int(a) < abs_int(#[trigger] c[j]));
    assert(abs_int(a) <= abs_int(c[ic]));
    assert(c.contains(a));
    let (j, k) = choose|j: int, k: int| 0 <= j < edges.len() && 0 <= k < pts.len() && a == #[trigger] toward(pts[k], edges[j]);
    assert(pts.contains(pts[k]));
    if pts[k] as i32 != cur as i32 {
        assert(abs_int(toward(pts[k], edges[j])) > d);
    }
    assert(a == toward(cur, edges[j]));
    if edges[j] != ei {
        assert(abs_int(toward(cur, edges[j])) > d);
    }
    assert(a == toward(cur, ei));
}

/// The elements of `v`, ascending, each once.
fn sorted_unique(v: &Vec<u32>) -> (r: Vec<u32>)
    ensures
        r@ == ascending_unique(v@),
{
    let mut out: Vec<u32> = Vec::new();
    let mut i: usize = 0;
    assert(v@.take(0) =~= Seq::<u32>::empty());
    while i < v.len()
        invariant
            i <= v@.len(),
            out@ == ascending_unique(v@.take(i as int)),
        decreases v@.len() - i,
    {
        let x = v[i];
        let mut k: usize = 0;
        while k < out.len() && out[k] < x
            invariant
                k <= out@.len(),
                forall|j: int| 0 <= j < k ==> (#[trigger] out@[j]) < x,
            decreases out@.len() - k,
        {
            k = k + 1;
        }
        proof {
            assert(is_insert_point(out@, x, k as int));
            let c = choose|c: int| is_insert_point(out@, x, c);
            lemma_insert_point_unique(out@, x, k as int, c);
            assert(v@.take(i + 1).drop_last() =~= v@.take(i as int));
            assert(v@.take(i + 1).last() == x);
        }
        if !(k < out.len() && out[k] == x) {
            out.insert(k, x);
        }
        i = i + 1;
    }
    assert(v@.take(i as int) =~= v@);
    out
}


proof fn lemma_edge_points_append(a: Seq<IntervalModel>, b: Seq<IntervalModel>, mode: DragTarget, target: Option<usize>, raw: i32)
    ensures
        edge_points(a + b, mode, target, raw) == edge_points(a, mode, target, raw) + edge_points(b, mode, target, raw),
    decreases b.len(),
{
    if b.len() == 0 {
        assert(a + b =~= a);
        assert(edge_points(a, mode, target, raw) + edge_points(b, mode, target, raw) =~= edge_points(a, mode, target, raw));
    } else {
        lemma_edge_points_append(a, b.drop_last(), mode, target, raw);
        assert((a + b).drop_last() =~= a + b.drop_last());
        assert((a + b).last() == b.last());
        assert(edge_points(a + b, mode, target, raw) =~= edge_points(a, mode, target, raw) + edge_points(b, mode, target, raw));
    }
}

/// The edges of the moving chunks among the first `n` chunks begin the edges
/// of all moving chunks.
proof fn lemma_edges_prefix(cis: Seq<IntervalModel>, mv: Seq<usize>, mode: DragTarget, target: Option<usize>, raw: i32, n: int)
    requires
        0 <= n <= cis.len(),
    ensures
        ({
            let part = edge_points(cis.take(n).filter(is_moved(mv)), mode, target, raw);
            let all = edge_points(cis.filter(is_moved(mv)), mode, target, raw);
            &&& part.len() <= all.len()
            &&& forall|k: int| 0 <= k < part.len() ==> part[k] == all[k]
        }),
{
    let a = cis.take(n);
    let b = cis.skip(n);
    assert(a + b =~= cis);
    Seq::filter_distributes_over_add(a, b, is_moved(mv));
    lemma_edge_points_append(a.filter(is_moved(mv)), b.filter(is_moved(mv)), mode, target, raw);
}

/// Snaps timeline times to nearby chunk boundaries.
pub struct TimelineSnapper;

impl TimelineSnapper {
    /// Snaps a playhead time to the nearest chunk boundary or timeline edge if
    /// it is within `snap_threshold_ms`.
    pub fn snap_playhead(state: &AppState, target_time: TimeMs, duration_ms: TimeMs, snap_threshold_ms: i32) -> (r:
        TimeMs)
        requires
            playhead_fits(*state, target_time, duration_ms),
        ensures
            r == snapped_playhead(*state, target_time, duration_ms, snap_threshold_ms),
    {
        let mut pts: Vec<u32> = Vec::new();
        pts.push(0);
        pts.push(duration_ms.0);
        pts.push(state.playback.duration_ms.0);
        push_chunk_points(state, duration_ms, &mut pts);
        assert(pts@ =~= playhead_points(*state, duration_ms));
        let target_ms = target_time.0 as i32;
        proof {
            assert forall|k: int| 0 <= k < pts@.len() implies adjust_fits(
                #[trigger] toward(pts@[k], target_ms as int),
            ) by {
                assert(adjust_fits(toward(playhead_points(*state, duration_ms)[k], (target_time.0 as i32) as int)));
            }
            assert(Seq::<int>::empty() + row(pts@, target_ms as int) =~= playhead_candidates(
                *state,
                target_time,
                duration_ms,
            ));
        }
        let best = search_row(&pts, target_ms, None, Ghost(Seq::empty()));
        if let Some(adjust) = best {
            if abs_i32(adjust) <= snap_threshold_ms {
                proof {
                    let c = row(pts@, target_ms as int);
                    lemma_best_adjust_nearest(c);
                    let i = choose|i: int| 0 <= i < c.len() && c[i] == adjust as int && (forall|j: int|
                        0 <= j < c.len() ==> abs_int(adjust as int) <= abs_int(#[trigger] c[j])) && (forall|j: int|
                        0 <= j < i ==> abs_int(adjust as int) < abs_int(#[trigger] c[j]));
                    assert(c[i] == toward(pts@[i], target_ms as int));
                }
                let v: i32 = target_ms + adjust;
                let snapped: u32 = if v < 0 {
                    0
                } else {
                    v as u32
                };
                return TimeMs(snapped);
            }
        }
        target_time
    }

    /// Snaps a drag offset so that a dragged edge lands on a nearby boundary of
    /// a chunk that stays, a timeline edge, the playhead or the end of the audio.
    pub fn snap_drag_offset(
        state: &AppState,
        drag_mode: DragTarget,
        drag_target_uid: Option<usize>,
        raw_offset_ms: i32,
        duration_ms: TimeMs,
        snap_threshold_ms: i32,
    ) -> (r: i32)
        requires
            drag_snap_fits(*state, drag_mode, drag_target_uid, raw_offset_ms, duration_ms, snap_threshold_ms),
        ensures
            r == snapped_offset(*state, drag_mode, drag_target_uid, raw_offset_ms, duration_ms, snap_threshold_ms),
    {
        match drag_mode {
            DragTarget::Body | DragTarget::LeftEdge | DragTarget::RightEdge | DragTarget::Boundary => {},
            _ => {
                return raw_offset_ms;
            },
        }
        let doc = match &state.document.document {
            Some(d) => d,
            None => {
                proof {
                    let cs = state_chunks(*state, duration_ms);
                    assert(cs =~= Seq::<IntervalModel>::empty());
                    let mv = cs.filter(is_moved(drag_moved(*state, drag_mode, drag_target_uid)));
                    assert(mv =~= Seq::<IntervalModel>::empty());
                    assert(moving_edges(*state, duration_ms, drag_mode, drag_target_uid, raw_offset_ms)
                        =~= Seq::<int>::empty());
                }
                return raw_offset_ms;
            },
        };
        let editor = TimelineEditor::new(doc);
        let moved = editor.moved_uids(state.view.selection.selected_ids(), drag_mode, drag_target_uid);
        let ghost mv = drag_moved(*state, drag_mode, drag_target_uid);
        assert(moved@ == mv);
        let chunks = doc.timeline_chunks(duration_ms);
        let ghost cis = state_chunks(*state, duration_ms);
        assert(cis == chunk_intervals(doc@.entries, duration_ms));

        // The points that stay.
        let mut raw_pts: Vec<u32> = Vec::new();
        raw_pts.push(0);
        raw_pts.push(duration_ms.0);
        raw_pts.push(state.playback.current_time_ms.0);
        raw_pts.push(state.playback.duration_ms.0);
        let ghost head = raw_pts@;
        let mut i: usize = 0;
        assert(cis.take(0) =~= Seq::<IntervalModel>::empty());
        assert(raw_pts@ =~= head + interval_points(cis.take(0).filter(is_static(mv))));
        while i < chunks.len()
            invariant
                i <= chunks@.len(),
                chunks@.len() == cis.len(),
                cis == chunk_intervals(doc@.entries, duration_ms),
                moved@ == mv,
                forall|j: int|
                    0 <= j < chunks@.len() ==> crate::document::chunk_of_entry(
                        #[trigger] chunks@[j],
                        doc@.entries,
                        j,
                        duration_ms,
                    ),
                raw_pts@ == head + interval_points(cis.take(i as int).filter(is_static(mv))),
            decreases chunks@.len() - i,
        {
            let c = &chunks[i];
            proof {
                assert(crate::document::chunk_of_entry(chunks@[i as int], doc@.entries, i as int, duration_ms));
                reveal_with_fuel(Seq::filter, 1);
                assert(cis.take(i + 1).drop_last() =~= cis.take(i as int));
                assert(cis.take(i + 1).last() == cis[i as int]);
            }
            let ghost before = cis.take(i as int).filter(is_static(mv));
            if !contains_uid(moved.as_slice(), c.uid) {
                raw_pts.push(c.start_ms.0);
                raw_pts.push(c.end_ms.0);
                proof {
                    let after = cis.take(i + 1).filter(is_static(mv));
                    assert(after == before.push(cis[i as int]));
                    assert(after.drop_last() =~= before);
                    assert(raw_pts@ =~= head + interval_points(after));
                }
            } else {
                assert(cis.take(i + 1).filter(is_static(mv)) == before);
            }
            i = i + 1;
        }
        assert(cis.take(i as int) =~= cis);
        assert(raw_pts@ =~= static_points_unsorted(*state, duration_ms, mv));
        let pts = sorted_unique(&raw_pts);
        let ghost sp = static_points(*state, duration_ms, mv);
        assert(pts@ == sp);

        // The edges that move.
        let ghost me = moving_edges(*state, duration_ms, drag_mode, drag_target_uid, raw_offset_ms);
        let ghost all_edges = edge_points(cis.filter(is_moved(mv)), drag_mode, drag_target_uid, raw_offset_ms);
        assert(me == all_edges);
        let mut edges: Vec<i32> = Vec::new();
        let mut i: usize = 0;
        assert(edge_points(cis.take(0).filter(is_moved(mv)), drag_mode, drag_target_uid, raw_offset_ms) =~= Seq::<int>::empty());
        assert(edges@.map_values(|e: i32| e as int) =~= Seq::<int>::empty());
        while i < chunks.len()
            invariant
                i <= chunks@.len(),
                chunks@.len() == cis.len(),
                cis == chunk_intervals(doc@.entries, duration_ms),
                moved@ == mv,
                forall|j: int|
                    0 <= j < chunks@.len() ==> crate::document::chunk_of_entry(
                        #[trigger] chunks@[j],
                        doc@.entries,
                        j,
                        duration_ms,
                    ),
                edges@.map_values(|e: i32| e as int) == edge_points(
                    cis.take(i as int).filter(is_moved(mv)),
                    drag_mode,
                    drag_target_uid,
                    raw_offset_ms,
                ),
                drag_snap_fits(*state, drag_mode, drag_target_uid, raw_offset_ms, duration_ms, snap_threshold_ms),
                me == moving_edges(*state, duration_ms, drag_mode, drag_target_uid, raw_offset_ms),
                me == edge_points(cis.filter(is_moved(mv)), drag_mode, drag_target_uid, raw_offset_ms),
                drags_chunks(drag_mode),
            decreases chunks@.len() - i,
        {
            let c = &chunks[i];
            let ghost cm = cis[i as int];
            proof {
                assert(crate::document::chunk_of_entry(chunks@[i as int], doc@.entries, i as int, duration_ms));
                reveal_with_fuel(Seq::filter, 1);
                assert(cis.take(i + 1).drop_last() =~= cis.take(i as int));
                assert(cis.take(i + 1).last() == cm);
                lemma_edges_prefix(cis, mv, drag_mode, drag_target_uid, raw_offset_ms, i + 1);
            }
            let ghost before = cis.take(i as int).filter(is_moved(mv));
            let ghost old_edges = edges@;
            if contains_uid(moved.as_slice(), c.uid) {
                proof {
                    let after = cis.take(i + 1).filter(is_moved(mv));
                    assert(after == before.push(cm));
                    assert(after.drop_last() =~= before);
                    let part = edge_points(after, drag_mode, drag_target_uid, raw_offset_ms);
                    let head = edge_points(before, drag_mode, drag_target_uid, raw_offset_ms);
                    let here = edges_of(cm, drag_mode, drag_target_uid, raw_offset_ms);
                    assert(part == head + here);
                    assert(old_edges.len() == head.len());
                    assert forall|k: int| 0 <= k < here.len() implies i32::MIN <= #[trigger] here[k]
                        <= i32::MAX by {
                        assert(here[k] == part[head.len() + k]);
                        assert(part[head.len() + k] == me[head.len() + k]);
                    }
                    assert(here.len() > 0 ==> i32::MIN <= here[0] <= i32::MAX);
                    assert(here.len() > 1 ==> i32::MIN <= here[1] <= i32::MAX);
                    assert(cm.uid == c.uid);
                    assert(cm.start == c.start_ms.0 && cm.end == c.end_ms.0);
                }
                let start = c.start_ms.0 as i32;
                let end = c.end_ms.0 as i32;
                match drag_mode {
                    DragTarget::Body => {
                        edges.push(start + raw_offset_ms);
                        edges.push(end + raw_offset_ms);
                    },
                    DragTarget::LeftEdge => {
                        if drag_target_uid == Some(c.uid) {
                            edges.push(start + raw_offset_ms);
                        }
                    },
                    _ => {
                        if drag_target_uid == Some(c.uid) {
                            edges.push(end + raw_offset_ms);
                        }
                    },
                }
                assert(edges@.map_values(|e: i32| e as int) =~= edge_points(
                    cis.take(i + 1).filter(is_moved(mv)),
                    drag_mode,
                    drag_target_uid,
                    raw_offset_ms,
                ));
            } else {
                assert(cis.take(i + 1).filter(is_moved(mv)) == before);
            }
            i = i + 1;
        }
        assert(cis.take(i as int) =~= cis);
        let ghost ev = edges@.map_values(|e: i32| e as int);
        assert(ev == me);

        // The search, edge by edge.
        let mut best: Option<i32> = None;
        let mut i: usize = 0;
        assert(ev.take(0) =~= Seq::<int>::empty());
        while i < edges.len()
            invariant
                i <= edges@.len(),
                ev == edges@.map_values(|e: i32| e as int),
                ev == me,
                pts@ == sp,
                sp == static_points(*state, duration_ms, mv),
                mv == drag_moved(*state, drag_mode, drag_target_uid),
                me == moving_edges(*state, duration_ms, drag_mode, drag_target_uid, raw_offset_ms),
                drag_snap_fits(*state, drag_mode, drag_target_uid, raw_offset_ms, duration_ms, snap_threshold_ms),
                drags_chunks(drag_mode),
                opt_int(best) == best_adjust(drag_candidates(ev.take(i as int), sp)),
                best matches Some(b) ==> b > i32::MIN,
            decreases edges@.len() - i,
        {
            proof {
                assert(ev[i as int] == edges@[i as int] as int);
                assert forall|k: int| 0 <= k < pts@.len() implies adjust_fits(
                    #[trigger] toward(pts@[k], edges@[i as int] as int),
                ) by {
                    assert(adjust_fits(toward(sp[k], me[i as int])));
                }
            }
            best = search_row(&pts, edges[i], best, Ghost(drag_candidates(ev.take(i as int), sp)));
            proof {
                assert(ev.take(i + 1).drop_last() =~= ev.take(i as int));
                assert(ev.take(i + 1).last() == edges@[i as int] as int);
            }
            i = i + 1;
        }
        assert(ev.take(i as int) =~= ev);
        if let Some(adjust) = best {
            if abs_i32(adjust) <= snap_threshold_ms {
                return raw_offset_ms + adjust;
            }
        }
        raw_offset_ms
    }
}


// ---------------------------------------------------------------------------
// Ghost chunk
// ---------------------------------------------------------------------------

/// A ghost chunk is this long where the gap has room for it.
pub const GHOST_CHUNK_MS: i32 = 5000;

/// The five-second window around `t`, pushed inside the gap at the side it
/// would leave.
pub open spec fn ghost_window(t: TimeMs, gap_start: TimeMs, gap_end: TimeMs) -> (int, int) {
    let tv = (t.0 as i32) as int;
    let gs = (gap_start.0 as i32) as int;
    let ge = (gap_end.0 as i32) as int;
    if tv - 2500 < gs {
        (gs, gs + 5000)
    } else if tv + 2500 > ge {
        (ge - 5000, ge)
    } else {
        (tv - 2500, tv + 2500)
    }
}

/// A time from a signed millisecond count, negative ones read as zero.
pub open spec fn nonnegative_ms(v: int) -> TimeMs {
    TimeMs(
        if v < 0 {
            0
        } else {
            v as u32
        },
    )
}

/// `t` brought into `lo..=hi` (`t.max(lo).min(hi)`).
pub open spec fn within(t: TimeMs, lo: TimeMs, hi: TimeMs) -> TimeMs {
    let a = if t.0 >= lo.0 {
        t
    } else {
        lo
    };
    if a.0 <= hi.0 {
        a
    } else {
        hi
    }
}

pub open spec fn gap_length(gap_start: TimeMs, gap_end: TimeMs) -> int {
    (gap_end.0 as i32) as int - (gap_start.0 as i32) as int
}

/// The chunk proposed by a click at `t` in the gap `gap_start..gap_end`: the
/// whole gap when it is at most five seconds long, else a five-second window
/// around `t` kept inside the gap, with both ends snapped and kept in the gap
/// when that leaves a nonempty chunk.
pub open spec fn ghost_chunk(
    s: AppState,
    t: TimeMs,
    gap_start: TimeMs,
    gap_end: TimeMs,
    duration: TimeMs,
    threshold: i32,
) -> (TimeMs, TimeMs) {
    if gap_length(gap_start, gap_end) <= 5000 {
        (gap_start, gap_end)
    } else {
        let (a, b) = ghost_window(t, gap_start, gap_end);
        let start = nonnegative_ms(a);
        let end = nonnegative_ms(b);
        let fs = within(snapped_playhead(s, start, duration, threshold), gap_start, gap_end);
        let fe = within(snapped_playhead(s, end, duration, threshold), gap_start, gap_end);
        if fs.0 < fe.0 {
            (fs, fe)
        } else {
            (start, end)
        }
    }
}

/// The arithmetic of `ghost_chunk` stays within `i32`.
pub open spec fn ghost_fits(s: AppState, t: TimeMs, gap_start: TimeMs, gap_end: TimeMs, duration: TimeMs) -> bool {
    let tv = (t.0 as i32) as int;
    let gs = (gap_start.0 as i32) as int;
    let ge = (gap_end.0 as i32) as int;
    &&& i32::MIN <= gap_length(gap_start, gap_end) <= i32::MAX
    &&& gap_length(gap_start, gap_end) > 5000 ==> {
        &&& i32::MIN <= tv - 2500
        &&& tv + 2500 <= i32::MAX
        &&& tv - 2500 < gs ==> gs + 5000 <= i32::MAX
        &&& !(tv - 2500 < gs) && tv + 2500 > ge ==> i32::MIN <= ge - 5000
        &&& playhead_fits(s, nonnegative_ms(ghost_window(t, gap_start, gap_end).0), duration)
        &&& playhead_fits(s, nonnegative_ms(ghost_window(t, gap_start, gap_end).1), duration)
    }
}

fn within_exec(t: TimeMs, lo: TimeMs, hi: TimeMs) -> (r: TimeMs)
    ensures
        r == within(t, lo, hi),
{
    let a = if t.0 >= lo.0 {
        t
    } else {
        lo
    };
    if a.0 <= hi.0 {
        a
    } else {
        hi
    }
}

fn nonnegative_exec(v: i32) -> (r: TimeMs)
    ensures
        r == nonnegative_ms(v as int),
{
    if v < 0 {
        TimeMs(0)
    } else {
        TimeMs(v as u32)
    }
}

/// The chunk that a click at `t` inside the gap `gap_start..gap_end` adds.
pub fn calculate_ghost_chunk(
    state: &AppState,
    t: TimeMs,
    gap_start: TimeMs,
    gap_end: TimeMs,
    duration_ms: TimeMs,
    snap_threshold_ms: i32,
) -> (r: (TimeMs, TimeMs))
    requires
        ghost_fits(*state, t, gap_start, gap_end, duration_ms),
    ensures
        r == ghost_chunk(*state, t, gap_start, gap_end, duration_ms, snap_threshold_ms),
{
    let gap_len = (gap_end.0 as i32) - (gap_start.0 as i32);
    if gap_len <= GHOST_CHUNK_MS {
        return (gap_start, gap_end);
    }
    let t_val = t.0 as i32;
    let mut ghost_start = t_val - 2500;
    let mut ghost_end = t_val + 2500;
    let gap_start_val = gap_start.0 as i32;
    let gap_end_val = gap_end.0 as i32;
    if ghost_start < gap_start_val {
        ghost_start = gap_start_val;
        ghost_end = gap_start_val + GHOST_CHUNK_MS;
    } else if ghost_end > gap_end_val {
        ghost_end = gap_end_val;
        ghost_start = gap_end_val - GHOST_CHUNK_MS;
    }
    let start_time = nonnegative_exec(ghost_start);
    let end_time = nonnegative_exec(ghost_end);
    let snapped_start = TimelineSnapper::snap_playhead(state, start_time, duration_ms, snap_threshold_ms);
    let snapped_end = TimelineSnapper::snap_playhead(state, end_time, duration_ms, snap_threshold_ms);
    let final_start = within_exec(snapped_start, gap_start, gap_end);
    let final_end = within_exec(snapped_end, gap_start, gap_end);
    if final_start.0 < final_end.0 {
        (final_start, final_end)
    } else {
        (start_time, end_time)
    }
}

// ---------------------------------------------------------------------------
// Releasing the mouse
// ---------------------------------------------------------------------------

/// The action a drag sends when the mouse is released: a moved chunk body or
/// edge is shifted by the offset, a dragged playhead seeks to where it was let
/// go (`playhead`); a scrollbar drag sends nothing.
pub open spec fn spec_release_action(mode: DragTarget, offset: i32, target: Option<usize>, playhead: TimeMs) -> Option<
    AppAction,
> {
    match mode {
        DragTarget::Body => if offset != 0 {
            Some(AppAction::ShiftSelected(offset))
        } else {
            None
        },
        DragTarget::LeftEdge => match target {
            Some(uid) => if offset != 0 {
                Some(AppAction::ShiftBoundary(uid, true, false, offset))
            } else {
                None
            },
            None => None,
        },
        DragTarget::RightEdge => match target {
            Some(uid) => if offset != 0 {
                Some(AppAction::ShiftBoundary(uid, false, false, offset))
            } else {
                None
            },
            None => None,
        },
        DragTarget::Boundary => match target {
            Some(uid) => if offset != 0 {
                Some(AppAction::ShiftBoundary(uid, false, true, offset))
            } else {
                None
            },
            None => None,
        },
        DragTarget::Playhead => Some(AppAction::Seek(playhead)),
        _ => None,
    }
}

/// The action sent when the mouse is released after a drag in `mode` (other
/// than a rectangle selection).
pub fn release_action(mode: DragTarget, offset: i32, target: Option<usize>, playhead: TimeMs) -> (r: Option<AppAction>)
    requires
        !(mode is Selection),
    ensures
        r == spec_release_action(mode, offset, target, playhead),
{
    match mode {
        DragTarget::Body => if offset != 0 {
            Some(AppAction::ShiftSelected(offset))
        } else {
            None
        },
        DragTarget::LeftEdge => match target {
            Some(uid) => if offset != 0 {
                Some(AppAction::ShiftBoundary(uid, true, false, offset))
            } else {
                None
            },
            None => None,
        },
        DragTarget::RightEdge => match target {
            Some(uid) => if offset != 0 {
                Some(AppAction::ShiftBoundary(uid, false, false, offset))
            } else {
                None
            },
            None => None,
        },
        DragTarget::Boundary => match target {
            Some(uid) => if offset != 0 {
                Some(AppAction::ShiftBoundary(uid, false, true, offset))
            } else {
                None
            },
            None => None,
        },
        DragTarget::Playhead => Some(AppAction::Seek(playhead)),
        _ => None,
    }
}

/// The action that ends drawing a new chunk from `start` to `current`: a drag
/// adds the chunk between them; a click (no movement) adds the ghost chunk of
/// the gap under the hovered time, if the hovered time lies in a gap.
pub open spec fn spec_create_action(
    s: AppState,
    start: TimeMs,
    current: TimeMs,
    hover: Option<TimeMs>,
    threshold: i32,
) -> Option<AppAction> {
    if start == current {
        match hover {
            Some(h) => {
                let duration = TimeMs(end_of(s) as u32);
                match spec_find_gap(doc_view(s.document.document), h, duration) {
                    Some((gs, ge)) => {
                        let (a, b) = ghost_chunk(s, h, gs, ge, duration, threshold);
                        Some(AppAction::AddChunk(a, b))
                    },
                    None => None,
                }
            },
            None => None,
        }
    } else if start.0 <= current.0 {
        Some(AppAction::AddChunk(start, current))
    } else {
        Some(AppAction::AddChunk(current, start))
    }
}

/// The ghost chunk of a click can be computed without overflow.
pub open spec fn create_fits(s: AppState, start: TimeMs, current: TimeMs, hover: Option<TimeMs>) -> bool {
    start == current && hover is Some ==> {
        let h = hover->0;
        let duration = TimeMs(end_of(s) as u32);
        &&& end_of(s) <= u32::MAX
        &&& match spec_find_gap(doc_view(s.document.document), h, duration) {
            Some((gs, ge)) => ghost_fits(s, h, gs, ge, duration),
            None => true,
        }
    }
}

/// The action sent when the mouse is released after drawing a new chunk.
pub fn create_release_action(
    state: &AppState,
    start: TimeMs,
    current: TimeMs,
    hover: Option<TimeMs>,
    snap_threshold_ms: i32,
) -> (r: Option<AppAction>)
    requires
        create_fits(*state, start, current, hover),
    ensures
        r == spec_create_action(*state, start, current, hover, snap_threshold_ms),
{
    if start == current {
        match hover {
            Some(h) => {
                let duration_ms = state.max_timeline_duration();
                let doc = match &state.document.document {
                    Some(d) => Some(d),
                    None => None,
                };
                match find_gap(doc, h, duration_ms) {
                    Some((gap_start, gap_end)) => {
                        let (a, b) = calculate_ghost_chunk(state, h, gap_start, gap_end, duration_ms, snap_threshold_ms);
                        Some(AppAction::AddChunk(a, b))
                    },
                    None => None,
                }
            },
            None => None,
        }
    } else if start.0 <= current.0 {
        Some(AppAction::AddChunk(start, current))
    } else {
        Some(AppAction::AddChunk(current, start))
    }
}

} // verus!
