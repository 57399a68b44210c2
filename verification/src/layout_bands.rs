//! What the reading order does with blocks on whole points of a page: where it cuts, and in which
//! order the parts are read.
use crate::float::F32;
use crate::layout_order::{
    axis_cut, best_cut, chosen_cut, count_before, cut_at, greatest_end, intervals, least_gap,
    least_start, merged, occupied, part_after, part_before, places, reading_order, Cut, CutAxis,
    Interval, Placed,
};
use crate::sorting::Keyed;
use crate::types::{Frame, LayoutBlock, Rect};
use crate::yolo::types::LayoutDetection;
use vstd::arithmetic::power2::{lemma2_to64, lemma_pow2_adds, lemma_pow2_pos, pow2};
use vstd::prelude::*;

verus! {

/// Where a frame starts along an axis: its left edge, or its top.
pub open spec fn low(axis: CutAxis, g: Frame) -> int {
    match axis {
        CutAxis::Vertical => g.left,
        CutAxis::Horizontal => g.top,
    }
}

/// Where a frame ends along an axis: its right edge, or its bottom.
pub open spec fn high(axis: CutAxis, g: Frame) -> int {
    match axis {
        CutAxis::Vertical => g.right,
        CutAxis::Horizontal => g.bottom,
    }
}

/// Whether a band of whitespace lies from `a` to `b` with frames on both sides of it: every frame
/// ends before it or starts after it.
pub open spec fn is_band(axis: CutAxis, frames: Seq<Frame>, a: int, b: int) -> bool {
    &&& a < b
    &&& exists|i: int| 0 <= i < frames.len() && high(axis, #[trigger] frames[i]) <= a
    &&& exists|i: int| 0 <= i < frames.len() && low(axis, #[trigger] frames[i]) >= b
    &&& forall|i: int|
        0 <= i < frames.len() ==> high(axis, #[trigger] frames[i]) <= a || low(axis, frames[i]) >= b
}

/// Whether a band is wide enough: eight points, and a share of what the frames span, which is
/// three hundredths across the page and two hundredths down the page.
pub open spec fn is_wide(axis: CutAxis, frames: Seq<Frame>, a: int, b: int) -> bool {
    &&& b - a >= 8
    &&& forall|i: int, j: int|
        0 <= i < frames.len() && 0 <= j < frames.len() ==> 100 * (b - a) >= (match axis {
            CutAxis::Vertical => 3int,
            CutAxis::Horizontal => 2int,
        }) * (high(axis, #[trigger] frames[i]) - low(axis, #[trigger] frames[j]))
}

/// Whether a band is wide enough to cut at.
pub open spec fn is_sufficient(axis: CutAxis, frames: Seq<Frame>, a: int, b: int) -> bool {
    is_band(axis, frames, a, b) && is_wide(axis, frames, a, b)
}

/// Whether a band is the widest of those that are wide enough, and the first one of that width.
pub open spec fn is_widest(axis: CutAxis, frames: Seq<Frame>, a: int, b: int) -> bool {
    &&& is_sufficient(axis, frames, a, b)
    &&& forall|c: int, d: int| #[trigger]
        is_sufficient(axis, frames, c, d) ==> d - c < b - a || (d - c == b - a && a <= c)
}

/// Whether the boxes are these frames, none of which is empty.
pub open spec fn are_frames(boxes: Seq<Rect>, frames: Seq<Frame>) -> bool {
    &&& boxes.len() == frames.len() <= usize::MAX
    &&& forall|i: int|
        0 <= i < frames.len() ==> (#[trigger] boxes[i]).is_framed(frames[i]) && frames[i].left
            < frames[i].right && frames[i].top < frames[i].bottom
}

/// How many frames end before a coordinate along an axis.
pub open spec fn frames_before(axis: CutAxis, frames: Seq<Frame>, a: int) -> nat {
    frames.filter(|g: Frame| high(axis, g) <= a).len()
}

spec fn is_proper(s: Seq<Interval>) -> bool {
    forall|i: int| 0 <= i < s.len() ==> (#[trigger] s[i]).start.less(s[i].end)
}

spec fn starts_in_order(s: Seq<Interval>) -> bool {
    forall|i: int, j: int|
        0 <= i <= j < s.len() ==> (#[trigger] s[i]).start.at_most((#[trigger] s[j]).start)
}

spec fn has_start(s: Seq<Interval>, x: F32) -> bool {
    exists|i: int| 0 <= i < s.len() && (#[trigger] s[i]).start == x
}

spec fn has_end(s: Seq<Interval>, x: F32) -> bool {
    exists|i: int| 0 <= i < s.len() && (#[trigger] s[i]).end == x
}

spec fn is_within(s: Seq<Interval>, i: Interval) -> bool {
    exists|k: int|
        0 <= k < s.len() && (#[trigger] s[k]).start.at_most(i.start) && i.end.at_most(s[k].end)
}

spec fn are_apart(s: Seq<Interval>) -> bool {
    forall|k: int, l: int| 0 <= k < l < s.len() ==> (#[trigger] s[k]).end.less((#[trigger] s[l]).start)
}

proof fn lemma_first_ones(s: Seq<Interval>)
    requires
        is_proper(s),
        s.len() > 0,
    ensures
        is_proper(s.drop_last()),
        starts_in_order(s) ==> starts_in_order(s.drop_last()),
        s.last().start.less(s.last().end),
{
    let d = s.drop_last();
    assert forall|i: int| 0 <= i < d.len() implies (#[trigger] d[i]).start.less(d[i].end) by {
        assert(s[i].start.less(s[i].end));
    }
    if starts_in_order(s) {
        assert forall|i: int, j: int| 0 <= i <= j < d.len() implies (#[trigger] d[i]).start.at_most(
            (#[trigger] d[j]).start,
        ) by {
            assert(s[i].start.at_most(s[j].start));
        }
    }
    assert(s[s.len() - 1].start.less(s[s.len() - 1].end));
}

proof fn lemma_merged_apart(s: Seq<Interval>)
    requires
        is_proper(s),
        starts_in_order(s),
    ensures
        is_proper(merged(s)),
        are_apart(merged(s)),
        s.len() > 0 ==> merged(s).len() > 0 && merged(s).last().start.at_most(s.last().start),
    decreases s.len(),
{
    if s.len() > 0 {
        let d = s.drop_last();
        let (before, now, last) = (merged(d), merged(s), s.last());
        let m = before.len() - 1;
        lemma_first_ones(s);
        lemma_merged_apart(d);
        if d.len() > 0 {
            assert(s[s.len() - 2].start.at_most(s[s.len() - 1].start));
            assert(d.last() == s[s.len() - 2]);
            assert(before[m].start.less(before[m].end));
        }
        assert forall|k: int| 0 <= k < m implies #[trigger] now[k] == before[k] by {}
        if m >= 0 {
            assert(now[m].start == before[m].start);
        }
        assert forall|k: int| 0 <= k < now.len() implies (#[trigger] now[k]).start.less(
            now[k].end,
        ) by {
            if k <= m {
                assert(before[k].start.less(before[k].end));
            }
        }
        assert forall|k: int, l: int| 0 <= k < l < now.len() implies (#[trigger] now[k]).end.less(
            (#[trigger] now[l]).start,
        ) by {
            if l <= m {
                assert(before[k].end.less(before[l].start));
            } else if k < m {
                assert(before[k].end.less(before[m].start));
            }
        }
    }
}

proof fn lemma_merged_ends(s: Seq<Interval>)
    ensures
        forall|k: int|
            0 <= k < merged(s).len() ==> has_start(s, (#[trigger] merged(s)[k]).start) && has_end(
                s,
                merged(s)[k].end,
            ),
    decreases s.len(),
{
    if s.len() > 0 {
        let d = s.drop_last();
        let (before, now, last) = (merged(d), merged(s), s.last());
        let m = before.len() - 1;
        let n = s.len() - 1;
        lemma_merged_ends(d);
        assert(s[n].start == last.start && s[n].end == last.end);
        assert forall|k: int| 0 <= k < now.len() implies has_start(s, (#[trigger] now[k]).start)
            && has_end(s, now[k].end) by {
            if k <= m {
                assert(has_start(d, before[k].start) && has_end(d, before[k].end));
                let i = choose|i: int| 0 <= i < d.len() && (#[trigger] d[i]).start == before[k].start;
                let j = choose|j: int| 0 <= j < d.len() && (#[trigger] d[j]).end == before[k].end;
                assert(s[i] == d[i] && s[j] == d[j]);
            }
        }
    }
}

proof fn lemma_merged_holds(s: Seq<Interval>)
    requires
        is_proper(s),
        starts_in_order(s),
    ensures
        forall|i: int| 0 <= i < s.len() ==> is_within(merged(s), #[trigger] s[i]),
    decreases s.len(),
{
    if s.len() > 0 {
        let d = s.drop_last();
        let (before, now, last) = (merged(d), merged(s), s.last());
        let m = before.len() - 1;
        let n = s.len() - 1;
        lemma_first_ones(s);
        lemma_merged_apart(s);
        lemma_merged_apart(d);
        lemma_merged_holds(d);
        if m >= 0 {
            assert(before[m].start.less(before[m].end));
        }
        assert forall|i: int| 0 <= i < s.len() implies is_within(now, #[trigger] s[i]) by {
            if i < n {
                assert(is_within(before, d[i]));
                let k = choose|k: int|
                    0 <= k < before.len() && (#[trigger] before[k]).start.at_most(d[i].start)
                        && d[i].end.at_most(before[k].end);
                assert(now[k].start == before[k].start);
                assert(before[k].start.less(before[k].end));
                assert(before[k].end.at_most(now[k].end));
            } else {
                let l = now.len() - 1;
                assert(now[l].start.at_most(last.start));
                assert(last.end.at_most(now[l].end));
            }
        }
    }
}

spec fn keeps_off(s: Seq<Interval>, a: F32, b: F32) -> bool {
    forall|i: int| 0 <= i < s.len() ==> (#[trigger] s[i]).end.at_most(a) || b.at_most(s[i].start)
}

proof fn lemma_merged_keeps_off(s: Seq<Interval>, a: F32, b: F32)
    requires
        is_proper(s),
        a.less(b),
        keeps_off(s, a, b),
    ensures
        keeps_off(merged(s), a, b),
    decreases s.len(),
{
    if s.len() > 0 {
        let d = s.drop_last();
        let before = merged(d);
        let now = merged(s);
        let last = s.last();
        assert forall|i: int| 0 <= i < d.len() implies (#[trigger] d[i]).start.less(d[i].end) by {
            assert(s[i].start.less(s[i].end));
        }
        assert forall|i: int| 0 <= i < d.len() implies (#[trigger] d[i]).end.at_most(a) || b.at_most(
            d[i].start,
        ) by {
            assert(s[i].end.at_most(a) || b.at_most(s[i].start));
        }
        lemma_merged_keeps_off(d, a, b);
        assert(s[s.len() - 1].start.less(s[s.len() - 1].end));
        assert(s[s.len() - 1].end.at_most(a) || b.at_most(s[s.len() - 1].start));
        let m = before.len() - 1;
        if before.len() > 0 {
            assert(before[m].end.at_most(a) || b.at_most(before[m].start));
        }
        assert forall|k: int| 0 <= k < now.len() implies (#[trigger] now[k]).end.at_most(a)
            || b.at_most(now[k].start) by {
            if k < m {
                assert(now[k] == before[k]);
            }
        }
    }
}

proof fn lemma_edges(axis: CutAxis, r: Rect, g: Frame)
    requires
        r.is_framed(g),
        g.left < g.right,
        g.top < g.bottom,
    ensures
        axis.start(r).is_whole(low(axis, g)),
        axis.end(r).is_whole(high(axis, g)),
        axis.middle(r).measures(128 * (low(axis, g) + high(axis, g))),
        axis.start(r).less(axis.end(r)),
        0 <= low(axis, g) < high(axis, g) < 2048,
{
    crate::types::framed_edges(r, g);
    crate::float::exact::measures_are_ordered(
        axis.start(r),
        axis.end(r),
        256 * low(axis, g),
        256 * high(axis, g),
    );
    let (w, h) = (g.right - g.left, g.bottom - g.top);
    crate::float::exact::measured_half(r.width, 128 * w);
    crate::float::exact::measured_half(r.height, 128 * h);
    let half = F32::ratio(1, 2);
    crate::float::exact::measured_sum(r.x, r.width.times(half), 256 * g.left, 128 * w);
    crate::float::exact::measured_sum(r.y, r.height.times(half), 256 * g.top, 128 * h);
}

proof fn lemma_intervals(axis: CutAxis, boxes: Seq<Rect>, frames: Seq<Frame>)
    requires
        are_frames(boxes, frames),
    ensures
        intervals(axis, boxes) == Seq::new(
            boxes.len(),
            |i: int| Interval { start: axis.start(boxes[i]), end: axis.end(boxes[i]) },
        ),
    decreases boxes.len(),
{
    if boxes.len() > 0 {
        let n = boxes.len() - 1;
        let (b, f) = (boxes.drop_last(), frames.drop_last());
        assert forall|i: int| 0 <= i < f.len() implies (#[trigger] b[i]).is_framed(f[i])
            && f[i].left < f[i].right && f[i].top < f[i].bottom by {
            assert(boxes[i].is_framed(frames[i]));
        }
        lemma_intervals(axis, b, f);
        assert(boxes[n].is_framed(frames[n]));
        lemma_edges(axis, boxes[n], frames[n]);
    }
    assert(intervals(axis, boxes) =~= Seq::new(
        boxes.len(),
        |i: int| Interval { start: axis.start(boxes[i]), end: axis.end(boxes[i]) },
    ));
}

proof fn lemma_sorted_intervals(axis: CutAxis, boxes: Seq<Rect>, frames: Seq<Frame>)
    requires
        are_frames(boxes, frames),
    ensures
        ({
            let s = crate::sorting::sorted(intervals(axis, boxes));
            &&& is_proper(s)
            &&& starts_in_order(s)
            &&& forall|k: int|
                0 <= k < s.len() ==> exists|i: int|
                    0 <= i < boxes.len() && (#[trigger] s[k]).start == axis.start(
                        #[trigger] boxes[i],
                    ) && s[k].end == axis.end(boxes[i])
            &&& forall|i: int|
                0 <= i < boxes.len() ==> s.contains(
                    (Interval { start: axis.start(#[trigger] boxes[i]), end: axis.end(boxes[i]) }),
                )
        }),
{
    let all = intervals(axis, boxes);
    let s = crate::sorting::sorted(all);
    lemma_intervals(axis, boxes, frames);
    crate::sorting::sorting_permutes_into_order(all);
    crate::permutations::lemma_same_elements(s, all);
    assert forall|k: int| 0 <= k < s.len() implies (#[trigger] s[k]).start.less(s[k].end) && exists|
        i: int,
    |
        0 <= i < boxes.len() && s[k].start == axis.start(#[trigger] boxes[i]) && s[k].end
            == axis.end(boxes[i]) by {
        assert(s.contains(s[k]));
        let i = choose|i: int| 0 <= i < all.len() && all[i] == s[k];
        assert(boxes[i].is_framed(frames[i]));
        lemma_edges(axis, boxes[i], frames[i]);
        assert(s[k].start == axis.start(boxes[i]));
    }
    assert forall|i: int, j: int| 0 <= i <= j < s.len() implies (#[trigger] s[i]).start.at_most(
        (#[trigger] s[j]).start,
    ) by {
        assert(s[i].key().at_most(s[j].key()));
        assert(s[i].start.less(s[i].end) && s[j].start.less(s[j].end));
    }
    assert forall|i: int| 0 <= i < boxes.len() implies s.contains(
        (Interval { start: axis.start(#[trigger] boxes[i]), end: axis.end(boxes[i]) }),
    ) by {
        assert(all[i] == (Interval { start: axis.start(boxes[i]), end: axis.end(boxes[i]) }));
        assert(all.contains(all[i]));
    }
}

/// Whether the gap before the `k`th stretch is the band from `a` to `b`, and the cut there parts
/// the boxes as the band parts the frames.
spec fn is_gap(
    axis: CutAxis,
    boxes: Seq<Rect>,
    frames: Seq<Frame>,
    stretches: Seq<Interval>,
    k: int,
    a: int,
    b: int,
) -> bool {
    let cut = cut_at(axis, boxes, stretches, k);
    &&& stretches[k - 1].end.is_whole(a)
    &&& stretches[k].start.is_whole(b)
    &&& 0 < a < b < 2048
    &&& is_band(axis, frames, a, b)
    &&& cut.axis == axis
    &&& cut.gap.is_whole(b - a)
    &&& cut.position.measures(128 * (a + b))
    &&& forall|i: int|
        0 <= i < boxes.len() ==> (axis.middle(#[trigger] boxes[i]).less(cut.position) <==> high(
            axis,
            frames[i],
        ) <= a)
}

/// Whether a whole edge of a frame is the end of the stretch before a gap, and another one the
/// start of the stretch behind it.
spec fn bound_gap(
    axis: CutAxis,
    frames: Seq<Frame>,
    stretches: Seq<Interval>,
    k: int,
    a: int,
    b: int,
) -> bool {
    &&& stretches[k - 1].end.is_whole(a)
    &&& stretches[k].start.is_whole(b)
    &&& 0 < a < b < 2048
    &&& exists|i: int| 0 <= i < frames.len() && high(axis, #[trigger] frames[i]) == a
    &&& exists|i: int| 0 <= i < frames.len() && low(axis, #[trigger] frames[i]) == b
}

proof fn lemma_gap_edges(axis: CutAxis, boxes: Seq<Rect>, frames: Seq<Frame>, k: int) -> (r: (
    int,
    int,
))
    requires
        are_frames(boxes, frames),
        1 <= k < occupied(axis, boxes).len(),
    ensures
        bound_gap(axis, frames, occupied(axis, boxes), k, r.0, r.1),
{
    let s = crate::sorting::sorted(intervals(axis, boxes));
    let m = occupied(axis, boxes);
    lemma_sorted_intervals(axis, boxes, frames);
    lemma_merged_apart(s);
    lemma_merged_ends(s);
    let (from, to) = (m[k - 1].end, m[k].start);
    assert(has_end(s, from));
    assert(has_start(s, to));
    let p = choose|p: int| 0 <= p < s.len() && (#[trigger] s[p]).end == from;
    let q = choose|q: int| 0 <= q < s.len() && (#[trigger] s[q]).start == to;
    let i = choose|i: int|
        0 <= i < boxes.len() && s[p].start == axis.start(#[trigger] boxes[i]) && s[p].end
            == axis.end(boxes[i]);
    let j = choose|j: int|
        0 <= j < boxes.len() && s[q].start == axis.start(#[trigger] boxes[j]) && s[q].end
            == axis.end(boxes[j]);
    assert(boxes[i].is_framed(frames[i]));
    assert(boxes[j].is_framed(frames[j]));
    lemma_edges(axis, boxes[i], frames[i]);
    lemma_edges(axis, boxes[j], frames[j]);
    let (a, b) = (high(axis, frames[i]), low(axis, frames[j]));
    assert(m[k - 1].end.less(m[k].start));
    crate::float::exact::measures_are_ordered(from, to, 256 * a, 256 * b);
    (a, b)
}

proof fn lemma_stretch_side(m: Seq<Interval>, k: int, e: Interval)
    requires
        is_proper(m),
        are_apart(m),
        is_within(m, e),
        1 <= k < m.len(),
    ensures
        e.end.at_most(m[k - 1].end) || m[k].start.at_most(e.start),
{
    let l = choose|l: int|
        0 <= l < m.len() && (#[trigger] m[l]).start.at_most(e.start) && e.end.at_most(m[l].end);
    if l < k - 1 {
        assert(m[l].end.less(m[k - 1].start));
        assert(m[k - 1].start.less(m[k - 1].end));
    } else if l > k {
        assert(m[k].end.less(m[l].start));
        assert(m[k].start.less(m[k].end));
    }
}

proof fn lemma_box_side(
    axis: CutAxis,
    boxes: Seq<Rect>,
    frames: Seq<Frame>,
    k: int,
    a: int,
    b: int,
    n: int,
)
    requires
        are_frames(boxes, frames),
        1 <= k < occupied(axis, boxes).len(),
        occupied(axis, boxes)[k - 1].end.is_whole(a),
        occupied(axis, boxes)[k].start.is_whole(b),
        0 <= n < boxes.len(),
    ensures
        high(axis, frames[n]) <= a || low(axis, frames[n]) >= b,
{
    let s = crate::sorting::sorted(intervals(axis, boxes));
    let m = occupied(axis, boxes);
    lemma_sorted_intervals(axis, boxes, frames);
    lemma_merged_apart(s);
    lemma_merged_holds(s);
    assert(boxes[n].is_framed(frames[n]));
    lemma_edges(axis, boxes[n], frames[n]);
    let e = Interval { start: axis.start(boxes[n]), end: axis.end(boxes[n]) };
    assert(s.contains(e));
    let x = choose|x: int| 0 <= x < s.len() && s[x] == e;
    assert(is_within(m, s[x]));
    lemma_stretch_side(m, k, e);
    crate::float::exact::measures_are_ordered(
        e.end,
        m[k - 1].end,
        256 * high(axis, frames[n]),
        256 * a,
    );
    crate::float::exact::measures_are_ordered(
        m[k].start,
        e.start,
        256 * b,
        256 * low(axis, frames[n]),
    );
}

proof fn lemma_gap(axis: CutAxis, boxes: Seq<Rect>, frames: Seq<Frame>, k: int) -> (r: (int, int))
    requires
        are_frames(boxes, frames),
        1 <= k < occupied(axis, boxes).len(),
    ensures
        is_gap(axis, boxes, frames, occupied(axis, boxes), k, r.0, r.1),
{
    let m = occupied(axis, boxes);
    let (a, b) = lemma_gap_edges(axis, boxes, frames, k);
    let (from, to) = (m[k - 1].end, m[k].start);
    crate::float::exact::whole_difference(to, from, b, a);
    crate::float::exact::whole_sum(from, to, a, b);
    crate::float::exact::measured_half(from.plus(to), 128 * (a + b));
    let cut = cut_at(axis, boxes, m, k);
    assert forall|n: int| 0 <= n < frames.len() implies high(axis, #[trigger] frames[n]) <= a || low(
        axis,
        frames[n],
    ) >= b by {
        lemma_box_side(axis, boxes, frames, k, a, b, n);
    }
    assert forall|n: int| 0 <= n < boxes.len() implies (axis.middle(#[trigger] boxes[n]).less(
        cut.position,
    ) <==> high(axis, frames[n]) <= a) by {
        assert(boxes[n].is_framed(frames[n]));
        lemma_edges(axis, boxes[n], frames[n]);
        crate::float::exact::measures_are_ordered(
            axis.middle(boxes[n]),
            cut.position,
            128 * (low(axis, frames[n]) + high(axis, frames[n])),
            128 * (a + b),
        );
    }
    (a, b)
}

proof fn lemma_find_gap(m: Seq<Interval>, a: F32, b: F32, l: int, n: int) -> (k: int)
    requires
        keeps_off(m, a, b),
        is_proper(m),
        a.less(b),
        0 <= l < n < m.len(),
        m[l].end.at_most(a),
        b.at_most(m[n].start),
    ensures
        l < k <= n,
        m[k - 1].end.at_most(a),
        b.at_most(m[k].start),
    decreases n,
{
    assert(m[n - 1].end.at_most(a) || b.at_most(m[n - 1].start));
    assert(m[l].start.less(m[l].end));
    if m[n - 1].end.at_most(a) {
        n
    } else {
        assert(n - 1 != l);
        lemma_find_gap(m, a, b, l, n - 1)
    }
}

proof fn lemma_holder(axis: CutAxis, boxes: Seq<Rect>, frames: Seq<Frame>, n: int) -> (l: int)
    requires
        are_frames(boxes, frames),
        0 <= n < boxes.len(),
    ensures
        0 <= l < occupied(axis, boxes).len(),
        occupied(axis, boxes)[l].start.at_most(axis.start(boxes[n])),
        axis.end(boxes[n]).at_most(occupied(axis, boxes)[l].end),
{
    let s = crate::sorting::sorted(intervals(axis, boxes));
    let m = occupied(axis, boxes);
    lemma_sorted_intervals(axis, boxes, frames);
    lemma_merged_holds(s);
    let e = Interval { start: axis.start(boxes[n]), end: axis.end(boxes[n]) };
    let _ = boxes[n];
    assert(s.contains(e));
    let x = choose|x: int| 0 <= x < s.len() && s[x] == e;
    assert(is_within(m, s[x]));
    choose|l: int|
        0 <= l < m.len() && (#[trigger] m[l]).start.at_most(e.start) && e.end.at_most(m[l].end)
}

proof fn lemma_keeps_off(axis: CutAxis, boxes: Seq<Rect>, frames: Seq<Frame>, a: int, b: int)
    requires
        are_frames(boxes, frames),
        0 < a < b < 2048,
        is_band(axis, frames, a, b),
    ensures
        keeps_off(occupied(axis, boxes), F32::from_nat(a as nat), F32::from_nat(b as nat)),
        F32::from_nat(a as nat).less(F32::from_nat(b as nat)),
{
    let s = crate::sorting::sorted(intervals(axis, boxes));
    let (x, y) = (F32::from_nat(a as nat), F32::from_nat(b as nat));
    crate::float::exact::naturals_are_whole(a as nat);
    crate::float::exact::naturals_are_whole(b as nat);
    crate::float::exact::measures_are_ordered(x, y, 256 * a, 256 * b);
    lemma_sorted_intervals(axis, boxes, frames);
    assert forall|k: int| 0 <= k < s.len() implies (#[trigger] s[k]).end.at_most(x) || y.at_most(
        s[k].start,
    ) by {
        let i = choose|i: int|
            0 <= i < boxes.len() && s[k].start == axis.start(#[trigger] boxes[i]) && s[k].end
                == axis.end(boxes[i]);
        assert(boxes[i].is_framed(frames[i]));
        lemma_edges(axis, boxes[i], frames[i]);
        let g = frames[i];
        assert(high(axis, g) <= a || low(axis, g) >= b);
        crate::float::exact::measures_are_ordered(s[k].end, x, 256 * high(axis, g), 256 * a);
        crate::float::exact::measures_are_ordered(y, s[k].start, 256 * b, 256 * low(axis, g));
    }
    lemma_merged_keeps_off(s, x, y);
}

proof fn lemma_band_is_in_a_gap(
    axis: CutAxis,
    boxes: Seq<Rect>,
    frames: Seq<Frame>,
    a: int,
    b: int,
) -> (r: (int, int, int))
    requires
        are_frames(boxes, frames),
        is_band(axis, frames, a, b),
    ensures
        1 <= r.0 < occupied(axis, boxes).len(),
        is_gap(axis, boxes, frames, occupied(axis, boxes), r.0, r.1, r.2),
        r.1 <= a,
        b <= r.2,
{
    let m = occupied(axis, boxes);
    let i = choose|i: int| 0 <= i < frames.len() && high(axis, #[trigger] frames[i]) <= a;
    let j = choose|j: int| 0 <= j < frames.len() && low(axis, #[trigger] frames[j]) >= b;
    assert(boxes[i].is_framed(frames[i]));
    assert(boxes[j].is_framed(frames[j]));
    lemma_edges(axis, boxes[i], frames[i]);
    lemma_edges(axis, boxes[j], frames[j]);
    let (x, y) = (F32::from_nat(a as nat), F32::from_nat(b as nat));
    crate::float::exact::naturals_are_whole(a as nat);
    crate::float::exact::naturals_are_whole(b as nat);
    lemma_keeps_off(axis, boxes, frames, a, b);
    let s = crate::sorting::sorted(intervals(axis, boxes));
    lemma_sorted_intervals(axis, boxes, frames);
    lemma_merged_apart(s);
    let l = lemma_holder(axis, boxes, frames, i);
    let n = lemma_holder(axis, boxes, frames, j);
    crate::float::exact::measures_are_ordered(
        axis.end(boxes[i]),
        x,
        256 * high(axis, frames[i]),
        256 * a,
    );
    crate::float::exact::measures_are_ordered(
        y,
        axis.start(boxes[j]),
        256 * b,
        256 * low(axis, frames[j]),
    );
    assert(m[l].end.at_most(x)) by {
        assert(m[l].end.at_most(x) || y.at_most(m[l].start));
    }
    assert(y.at_most(m[n].start)) by {
        assert(m[n].end.at_most(x) || y.at_most(m[n].start));
    }
    assert(m[l].start.less(m[l].end) && m[n].start.less(m[n].end));
    if n < l {
        assert(m[n].end.less(m[l].start));
    }
    let k = lemma_find_gap(m, x, y, l, n);
    let (c, d) = lemma_gap(axis, boxes, frames, k);
    crate::float::exact::measures_are_ordered(m[k - 1].end, x, 256 * c, 256 * a);
    crate::float::exact::measures_are_ordered(y, m[k].start, 256 * b, 256 * d);
    (k, c, d)
}

proof fn lemma_filter_len<T>(s: Seq<T>, p: spec_fn(T) -> bool)
    ensures
        s.filter(p).len() <= s.len(),
        s.filter(p).len() > 0 <==> exists|i: int| 0 <= i < s.len() && p(#[trigger] s[i]),
        s.filter(p).len() < s.len() <==> exists|i: int| 0 <= i < s.len() && !p(#[trigger] s[i]),
    decreases s.len(),
{
    reveal(Seq::filter);
    if s.len() > 0 {
        let d = s.drop_last();
        let n = s.len() - 1;
        lemma_filter_len(d, p);
        if exists|i: int| 0 <= i < d.len() && p(#[trigger] d[i]) {
            let i = choose|i: int| 0 <= i < d.len() && p(#[trigger] d[i]);
            assert(p(s[i]));
        }
        if exists|i: int| 0 <= i < d.len() && !p(#[trigger] d[i]) {
            let i = choose|i: int| 0 <= i < d.len() && !p(#[trigger] d[i]);
            assert(!p(s[i]));
        }
        if exists|i: int| 0 <= i < s.len() && p(#[trigger] s[i]) {
            let i = choose|i: int| 0 <= i < s.len() && p(#[trigger] s[i]);
            if i < n {
                assert(p(d[i]));
            }
        }
        if exists|i: int| 0 <= i < s.len() && !p(#[trigger] s[i]) {
            let i = choose|i: int| 0 <= i < s.len() && !p(#[trigger] s[i]);
            if i < n {
                assert(!p(d[i]));
            }
        }
        assert(p(s[n]) || !p(s[n]));
    }
}

proof fn lemma_count(
    axis: CutAxis,
    boxes: Seq<Rect>,
    frames: Seq<Frame>,
    position: F32,
    a: int,
)
    requires
        boxes.len() == frames.len(),
        forall|i: int|
            0 <= i < boxes.len() ==> (axis.middle(#[trigger] boxes[i]).less(position) <==> high(
                axis,
                frames[i],
            ) <= a),
    ensures
        count_before(axis, boxes, position) == frames_before(axis, frames, a),
    decreases boxes.len(),
{
    reveal(Seq::filter);
    if boxes.len() > 0 {
        let (b, f) = (boxes.drop_last(), frames.drop_last());
        let n = boxes.len() - 1;
        assert forall|i: int| 0 <= i < b.len() implies (axis.middle(#[trigger] b[i]).less(position)
            <==> high(axis, f[i]) <= a) by {
            assert(b[i] == boxes[i]);
        }
        lemma_count(axis, b, f, position, a);
        assert(axis.middle(boxes[n]).less(position) <==> high(axis, frames[n]) <= a);
    }
}

/// The counts of a cut in a gap are those of the frames on either side, of which there are some.
proof fn lemma_gap_counts(
    axis: CutAxis,
    boxes: Seq<Rect>,
    frames: Seq<Frame>,
    k: int,
    a: int,
    b: int,
)
    requires
        are_frames(boxes, frames),
        is_gap(axis, boxes, frames, occupied(axis, boxes), k, a, b),
    ensures
        ({
            let cut = cut_at(axis, boxes, occupied(axis, boxes), k);
            &&& cut.before_count == frames_before(axis, frames, a)
            &&& cut.after_count == frames.len() - frames_before(axis, frames, a)
            &&& 0 < cut.before_count < frames.len()
        }),
{
    let cut = cut_at(axis, boxes, occupied(axis, boxes), k);
    let p = |g: Frame| high(axis, g) <= a;
    lemma_count(axis, boxes, frames, cut.position, a);
    lemma_filter_len(frames, p);
    let i = choose|i: int| 0 <= i < frames.len() && high(axis, #[trigger] frames[i]) <= a;
    assert(p(frames[i]));
    let j = choose|j: int| 0 <= j < frames.len() && low(axis, #[trigger] frames[j]) >= b;
    assert(boxes[j].is_framed(frames[j]));
    lemma_edges(axis, boxes[j], frames[j]);
    assert(!p(frames[j]));
}

proof fn lemma_extremes(axis: CutAxis, boxes: Seq<Rect>, frames: Seq<Frame>) -> (r: (int, int))
    requires
        are_frames(boxes, frames),
        boxes.len() > 0,
    ensures
        0 <= r.0 < frames.len(),
        0 <= r.1 < frames.len(),
        least_start(axis, boxes).is_whole(low(axis, frames[r.0])),
        greatest_end(axis, boxes).is_whole(high(axis, frames[r.1])),
        forall|i: int|
            0 <= i < frames.len() ==> low(axis, frames[r.0]) <= low(axis, #[trigger] frames[i])
                && high(axis, frames[i]) <= high(axis, frames[r.1]),
    decreases boxes.len(),
{
    let n = boxes.len() - 1;
    let (b, f) = (boxes.drop_last(), frames.drop_last());
    assert(boxes[n].is_framed(frames[n]));
    lemma_edges(axis, boxes[n], frames[n]);
    let (start, end) = (axis.start(boxes[n]), axis.end(boxes[n]));
    if n == 0 {
        assert(least_start(axis, b) == F32 { bits: 0x7f80_0000 });
        assert(greatest_end(axis, b) == F32 { bits: 0xff80_0000 });
        assert(start.less(F32 { bits: 0x7f80_0000 }));
        assert((F32 { bits: 0xff80_0000 }).less(end));
        (0, 0)
    } else {
        assert forall|i: int| 0 <= i < f.len() implies (#[trigger] b[i]).is_framed(f[i])
            && f[i].left < f[i].right && f[i].top < f[i].bottom by {
            assert(boxes[i].is_framed(frames[i]));
        }
        let (i, j) = lemma_extremes(axis, b, f);
        crate::float::exact::measured_extremes(
            least_start(axis, b),
            start,
            256 * low(axis, f[i]),
            256 * low(axis, frames[n]),
        );
        crate::float::exact::measured_extremes(
            greatest_end(axis, b),
            end,
            256 * high(axis, f[j]),
            256 * high(axis, frames[n]),
        );
        let p = if low(axis, f[i]) <= low(axis, frames[n]) { i } else { n };
        let q = if high(axis, f[j]) <= high(axis, frames[n]) { n } else { j };
        assert forall|k: int| 0 <= k < frames.len() implies low(axis, frames[p]) <= low(
            axis,
            #[trigger] frames[k],
        ) && high(axis, frames[k]) <= high(axis, frames[q]) by {
            if k < n {
                assert(f[k] == frames[k]);
            }
        }
        (p, q)
    }
}

spec fn hundredths(axis: CutAxis) -> int {
    match axis {
        CutAxis::Vertical => 3,
        CutAxis::Horizontal => 2,
    }
}

spec fn share_numerator(axis: CutAxis) -> int {
    match axis {
        CutAxis::Vertical => 16106127,
        CutAxis::Horizontal => 10737418,
    }
}

proof fn lemma_share(axis: CutAxis)
    ensures
        axis.gap_share().finite(),
        !axis.gap_share().negative(),
        axis.gap_share().units() == share_numerator(axis) * pow2(120),
{
    lemma2_to64();
    match axis {
        CutAxis::Vertical => {
            lemma_pow2_adds(24, 5);
            assert(pow2(29) == 0x2000_0000);
            assert(crate::float::rounding::half_even(3 * 0x2000_0000, 100) == 16106127);
            crate::float::exact::ratio_has_units(3, 100, 120, 16106127);
        },
        CutAxis::Horizontal => {
            lemma_pow2_adds(24, 5);
            assert(pow2(29) == 0x2000_0000);
            assert(crate::float::rounding::half_even(2 * 0x2000_0000, 100) == 10737418);
            crate::float::exact::ratio_has_units(2, 100, 120, 10737418);
        },
    }
}

proof fn lemma_share_of(axis: CutAxis, span: F32, gap: F32, n: int, g: int)
    requires
        span.is_whole(n),
        !span.negative(),
        gap.is_whole(g),
        0 <= n < 2048,
        0 <= g < 2048,
    ensures
        !span.times(axis.gap_share()).nan(),
        gap.less(span.times(axis.gap_share())) <==> 100 * g < hundredths(axis) * n,
{
    let share = axis.gap_share();
    lemma_share(axis);
    let q = share_numerator(axis);
    let (u, p, one) = (pow2(120) as int, pow2(141) as int, pow2(149) as int);
    lemma_pow2_pos(120);
    lemma2_to64();
    lemma_pow2_adds(120, 21);
    lemma_pow2_adds(141, 8);
    lemma_pow2_pos(149);
    assert(p == u * 0x20_0000);
    assert(one == p * 256);
    let low = F32::from_nat(g as nat);
    crate::float::exact::naturals_are_whole(g as nat);
    crate::float::bounds::naturals_are_not_negative(g as nat);
    crate::float::exact::measures_are_ordered(low, gap, 256 * g, 256 * g);
    crate::float::exact::measures_are_ordered(gap, low, 256 * g, 256 * g);
    assert(n * 256 * p >= 0) by (nonlinear_arith)
        requires n >= 0, p >= 0;
    assert(span.units() == (256 * n) * p);
    if 100 * g >= hundredths(axis) * n {
        crate::float::bounds::small_naturals_are_exact(g as nat);
        crate::float::exact::product_bounds(span, share, low);
        match axis {
            CutAxis::Vertical => {
                assert(n * q == 16106127 * n) by (nonlinear_arith)
                    requires q == 16106127;
            },
            CutAxis::Horizontal => {
                assert(n * q == 10737418 * n) by (nonlinear_arith)
                    requires q == 10737418;
            },
        }
        let c = hundredths(axis);
        assert(c * n == 3 * n || c * n == 2 * n);
        assert(n * q <= 0x2000_0000 * g);
        assert(256 * n * q <= 256 * 0x2000_0000 * g) by (nonlinear_arith)
            requires n * q <= 0x2000_0000 * g;
        assert(((256 * n) * p) * (q * u) <= (g * one) * one) by (nonlinear_arith)
            requires
                256 * n * q <= 256 * 0x2000_0000 * g,
                p == u * 0x20_0000,
                one == p * 256,
                u > 0,
        ;
    } else {
        let v = 256 * g + 2;
        let f = crate::float::exact::of_parts(v as nat);
        crate::float::exact::parts_are_exact(v as nat);
        assert(v * p > 0) by (nonlinear_arith)
            requires v > 0, p > 0;
        crate::float::exact::measures_are_ordered(gap, f, 256 * g, v);
        assert(f.units() == v * p);
        crate::float::exact::product_bounds(span, share, f);
        match axis {
            CutAxis::Vertical => {
                assert(n * q == 16106127 * n) by (nonlinear_arith)
                    requires q == 16106127;
            },
            CutAxis::Horizontal => {
                assert(n * q == 10737418 * n) by (nonlinear_arith)
                    requires q == 10737418;
            },
        }
        assert(((256 * n) * p) * (q * u) >= (v * p) * one) by (nonlinear_arith)
            requires
                n * q >= v * 0x20_0000,
                p == u * 0x20_0000,
                one == p * 256,
                u > 0,
        ;
    }
}

proof fn lemma_sufficient(
    axis: CutAxis,
    boxes: Seq<Rect>,
    frames: Seq<Frame>,
    gap: F32,
    a: int,
    b: int,
)
    requires
        are_frames(boxes, frames),
        boxes.len() > 0,
        gap.is_whole(b - a),
        0 < a < b < 2048,
    ensures
        !gap.less(least_gap(axis, boxes)) <==> is_wide(axis, frames, a, b),
{
    let zero = F32 { bits: 0 };
    let (i, j) = lemma_extremes(axis, boxes, frames);
    let (l, h) = (low(axis, frames[i]), high(axis, frames[j]));
    let (start, end) = (least_start(axis, boxes), greatest_end(axis, boxes));
    assert(boxes[i].is_framed(frames[i]));
    assert(boxes[j].is_framed(frames[j]));
    lemma_edges(axis, boxes[i], frames[i]);
    lemma_edges(axis, boxes[j], frames[j]);
    assert(l < h) by {
        assert(high(axis, frames[i]) <= h);
    }
    crate::float::exact::whole_difference(end, start, h, l);
    let d = end.minus(start);
    crate::float::exact::zero_is_whole();
    crate::float::exact::measures_are_ordered(zero, d, 0, 256 * (h - l));
    crate::float::exact::measures_are_ordered(d, zero, 256 * (h - l), 0);
    let span = d.greater(zero);
    assert(span == d);
    assert(!span.negative());
    lemma_share_of(axis, span, gap, h - l, b - a);
    let eight = F32::from_nat(8);
    crate::float::exact::naturals_are_whole(8);
    crate::float::exact::measures_are_ordered(gap, eight, 256 * (b - a), 2048);
    let share = match axis {
        CutAxis::Vertical => 3int,
        CutAxis::Horizontal => 2int,
    };
    assert(share == hundredths(axis));
    if 100 * (b - a) >= share * (h - l) {
        assert forall|x: int, y: int| 0 <= x < frames.len() && 0 <= y < frames.len() implies 100 * (b
            - a) >= share * (high(axis, #[trigger] frames[x]) - low(axis, #[trigger] frames[y])) by {
            let e = high(axis, frames[x]) - low(axis, frames[y]);
            assert(e <= h - l);
            assert(share * e <= share * (h - l)) by (nonlinear_arith)
                requires e <= h - l, share > 0;
        }
    }
}

/// Whether the cut at a gap is wide enough and parts the boxes.
spec fn is_usable(axis: CutAxis, boxes: Seq<Rect>, stretches: Seq<Interval>, k: int) -> bool {
    let cut = cut_at(axis, boxes, stretches, k);
    !cut.gap.less(least_gap(axis, boxes)) && cut.before_count > 0 && cut.after_count > 0
}

/// Whether the cut at a gap is the best of those at the first ones.
spec fn is_best(axis: CutAxis, boxes: Seq<Rect>, stretches: Seq<Interval>, n: nat, k: int) -> bool {
    &&& 1 <= k < n
    &&& is_usable(axis, boxes, stretches, k)
    &&& forall|j: int|
        1 <= j < n && #[trigger] is_usable(axis, boxes, stretches, j) ==> {
            let (gap, other) = (
                cut_at(axis, boxes, stretches, k).gap,
                cut_at(axis, boxes, stretches, j).gap,
            );
            other.at_most(gap) && (j < k ==> other.less(gap))
        }
}

proof fn lemma_best(axis: CutAxis, boxes: Seq<Rect>, stretches: Seq<Interval>, n: nat) -> (r: int)
    requires
        forall|j: int| 1 <= j < n ==> !(#[trigger] cut_at(axis, boxes, stretches, j)).gap.nan(),
    ensures
        match best_cut(axis, boxes, stretches, n) {
            Some(cut) => cut == cut_at(axis, boxes, stretches, r) && is_best(
                axis,
                boxes,
                stretches,
                n,
                r,
            ),
            None => forall|j: int| 1 <= j < n ==> !(#[trigger] is_usable(axis, boxes, stretches, j)),
        },
    decreases n,
{
    if n < 2 {
        0
    } else {
        let m = (n - 1) as nat;
        let k = lemma_best(axis, boxes, stretches, m);
        let cut = cut_at(axis, boxes, stretches, n - 1);
        assert(!cut.gap.nan());
        match best_cut(axis, boxes, stretches, m) {
            Some(b) => {
                assert(!cut_at(axis, boxes, stretches, k).gap.nan());
                if !is_usable(axis, boxes, stretches, n - 1) || !b.gap.less(cut.gap) {
                    assert(is_best(axis, boxes, stretches, n, k));
                    k
                } else {
                    assert(is_best(axis, boxes, stretches, n, n - 1));
                    n - 1
                }
            },
            None => {
                if is_usable(axis, boxes, stretches, n - 1) {
                    assert(is_best(axis, boxes, stretches, n, n - 1));
                }
                n - 1
            },
        }
    }
}

/// Whether a cut lies in a band: in its middle, as wide as it, and with the frames on either side
/// counted.
pub open spec fn lies_in_band(
    cut: Cut,
    axis: CutAxis,
    frames: Seq<Frame>,
    a: int,
    b: int,
) -> bool {
    &&& cut.axis == axis
    &&& cut.gap.is_whole(b - a)
    &&& cut.position.measures(128 * (a + b))
    &&& cut.before_count == frames_before(axis, frames, a)
    &&& cut.after_count == frames.len() - frames_before(axis, frames, a)
}

/// Whether a cut parts boxes as a band parts their frames.
pub open spec fn parts_as_band(
    cut: Cut,
    axis: CutAxis,
    boxes: Seq<Rect>,
    frames: Seq<Frame>,
    a: int,
    b: int,
) -> bool {
    forall|i: int|
        0 <= i < boxes.len() ==> {
            let before = cut.axis.middle(#[trigger] boxes[i]).less(cut.position);
            &&& before <==> high(axis, frames[i]) <= a
            &&& !before <==> low(axis, frames[i]) >= b
        }
}

proof fn lemma_usable(axis: CutAxis, boxes: Seq<Rect>, frames: Seq<Frame>, k: int) -> (r: (int, int))
    requires
        are_frames(boxes, frames),
        1 <= k < occupied(axis, boxes).len(),
    ensures
        is_gap(axis, boxes, frames, occupied(axis, boxes), k, r.0, r.1),
        is_usable(axis, boxes, occupied(axis, boxes), k) <==> is_sufficient(
            axis,
            frames,
            r.0,
            r.1,
        ),
        !cut_at(axis, boxes, occupied(axis, boxes), k).gap.nan(),
{
    let m = occupied(axis, boxes);
    let (a, b) = lemma_gap(axis, boxes, frames, k);
    lemma_gap_counts(axis, boxes, frames, k, a, b);
    lemma_sufficient(axis, boxes, frames, cut_at(axis, boxes, m, k).gap, a, b);
    (a, b)
}

proof fn lemma_wider_is_wide(
    axis: CutAxis,
    frames: Seq<Frame>,
    a: int,
    b: int,
    c: int,
    d: int,
)
    requires
        is_wide(axis, frames, a, b),
        d - c >= b - a,
    ensures
        is_wide(axis, frames, c, d),
{
    assert forall|i: int, j: int| 0 <= i < frames.len() && 0 <= j < frames.len() implies 100 * (d
        - c) >= (match axis {
        CutAxis::Vertical => 3int,
        CutAxis::Horizontal => 2int,
    }) * (high(axis, #[trigger] frames[i]) - low(axis, #[trigger] frames[j])) by {
        assert(100 * (b - a) >= (match axis {
            CutAxis::Vertical => 3int,
            CutAxis::Horizontal => 2int,
        }) * (high(axis, frames[i]) - low(axis, frames[j])));
    }
}

proof fn lemma_no_band(axis: CutAxis, boxes: Seq<Rect>, frames: Seq<Frame>, a: int, b: int)
    requires
        are_frames(boxes, frames),
        axis_cut(axis, boxes) is None,
    ensures
        !is_sufficient(axis, frames, a, b),
{
    let m = occupied(axis, boxes);
    assert forall|j: int| 1 <= j < m.len() implies !(#[trigger] cut_at(
        axis,
        boxes,
        m,
        j,
    )).gap.nan() by {
        let _ = lemma_usable(axis, boxes, frames, j);
    }
    let _ = lemma_best(axis, boxes, m, m.len());
    if is_sufficient(axis, frames, a, b) {
        let (k, c, d) = lemma_band_is_in_a_gap(axis, boxes, frames, a, b);
        let (e, f) = lemma_usable(axis, boxes, frames, k);
        crate::float::exact::measures_are_unique(m[k - 1].end, 256 * c, 256 * e);
        crate::float::exact::measures_are_unique(m[k].start, 256 * d, 256 * f);
        lemma_wider_is_wide(axis, frames, a, b, c, d);
        assert(is_usable(axis, boxes, m, k));
    }
}

proof fn lemma_widest(
    axis: CutAxis,
    boxes: Seq<Rect>,
    frames: Seq<Frame>,
    k: int,
    a: int,
    b: int,
    c: int,
    d: int,
)
    requires
        are_frames(boxes, frames),
        is_best(axis, boxes, occupied(axis, boxes), occupied(axis, boxes).len(), k),
        is_gap(axis, boxes, frames, occupied(axis, boxes), k, a, b),
        is_sufficient(axis, frames, c, d),
    ensures
        d - c < b - a || (d - c == b - a && a <= c),
{
    let m = occupied(axis, boxes);
    let (j, e, f) = lemma_band_is_in_a_gap(axis, boxes, frames, c, d);
    let (g, h) = lemma_usable(axis, boxes, frames, j);
    crate::float::exact::measures_are_unique(m[j - 1].end, 256 * e, 256 * g);
    crate::float::exact::measures_are_unique(m[j].start, 256 * f, 256 * h);
    lemma_wider_is_wide(axis, frames, c, d, e, f);
    assert(is_usable(axis, boxes, m, j));
    let (mine, other) = (cut_at(axis, boxes, m, k).gap, cut_at(axis, boxes, m, j).gap);
    crate::float::exact::measures_are_ordered(other, mine, 256 * (f - e), 256 * (b - a));
    if d - c == b - a && c < a {
        assert(e == c);
        if j == k {
            crate::float::exact::measures_are_unique(m[k - 1].end, 256 * e, 256 * a);
        } else if k < j {
            let s = crate::sorting::sorted(intervals(axis, boxes));
            lemma_sorted_intervals(axis, boxes, frames);
            lemma_merged_apart(s);
            if k < j - 1 {
                assert(m[k].end.less(m[j - 1].start));
            }
            assert(m[k - 1].end.less(m[k].start));
            assert(m[k].start.less(m[k].end));
            assert(m[j - 1].start.less(m[j - 1].end));
            crate::float::exact::measures_are_ordered(m[k - 1].end, m[j - 1].end, 256 * a, 256 * e);
        }
    }
}

/// Along an axis there is a cut if and only if a band of whitespace with frames on both sides is
/// wide enough. The cut lies in the widest one of these bands, the first of several, and parts
/// the boxes as the band parts the frames.
pub proof fn cuts_lie_in_the_widest_band(axis: CutAxis, boxes: Seq<Rect>, frames: Seq<Frame>)
    requires
        are_frames(boxes, frames),
    ensures
        match axis_cut(axis, boxes) {
            None => forall|a: int, b: int| !(#[trigger] is_sufficient(axis, frames, a, b)),
            Some(cut) => exists|a: int, b: int|
                #![trigger is_widest(axis, frames, a, b)]
                is_widest(axis, frames, a, b) && lies_in_band(cut, axis, frames, a, b)
                    && parts_as_band(cut, axis, boxes, frames, a, b),
        },
{
    let m = occupied(axis, boxes);
    match axis_cut(axis, boxes) {
        None => {
            assert forall|a: int, b: int| !(#[trigger] is_sufficient(axis, frames, a, b)) by {
                lemma_no_band(axis, boxes, frames, a, b);
            }
        },
        Some(cut) => {
            assert forall|j: int| 1 <= j < m.len() implies !(#[trigger] cut_at(
                axis,
                boxes,
                m,
                j,
            )).gap.nan() by {
                let _ = lemma_usable(axis, boxes, frames, j);
            }
            let k = lemma_best(axis, boxes, m, m.len());
            let (a, b) = lemma_usable(axis, boxes, frames, k);
            lemma_gap_counts(axis, boxes, frames, k, a, b);
            assert forall|c: int, d: int| #[trigger] is_sufficient(
                axis,
                frames,
                c,
                d,
            ) implies d - c < b - a || (d - c == b - a && a <= c) by {
                lemma_widest(axis, boxes, frames, k, a, b, c, d);
            }
            assert(is_widest(axis, frames, a, b));
            assert forall|i: int| 0 <= i < boxes.len() implies {
                let before = cut.axis.middle(#[trigger] boxes[i]).less(cut.position);
                &&& before <==> high(axis, frames[i]) <= a
                &&& !before <==> low(axis, frames[i]) >= b
            } by {
                assert(boxes[i].is_framed(frames[i]));
                lemma_edges(axis, boxes[i], frames[i]);
                let g = frames[i];
                assert(high(axis, g) <= a || low(axis, g) >= b);
            }
            assert(parts_as_band(cut, axis, boxes, frames, a, b));
        },
    }
}

/// Whether a page is parted by a band from its top to its bottom: the widest one, where it has two
/// frames or more on each side, or is wider by more than a quarter than the widest one from left
/// to right, or there is no such one.
pub open spec fn cuts_across(frames: Seq<Frame>, a: int, b: int) -> bool {
    let before = frames_before(CutAxis::Vertical, frames, a);
    &&& is_widest(CutAxis::Vertical, frames, a, b)
    &&& (before >= 2 && frames.len() - before >= 2) || forall|c: int, d: int| #[trigger]
        is_widest(CutAxis::Horizontal, frames, c, d) ==> 4 * (b - a) > 5 * (d - c)
}

/// Whether a page is parted by a band from left to right: the widest one, where no band from the
/// top to the bottom comes first.
pub open spec fn cuts_down(frames: Seq<Frame>, c: int, d: int) -> bool {
    &&& is_widest(CutAxis::Horizontal, frames, c, d)
    &&& forall|a: int, b: int| !(#[trigger] cuts_across(frames, a, b))
}

/// Whether no band is wide enough to part the frames, along either axis.
pub open spec fn is_whole_page(frames: Seq<Frame>) -> bool {
    &&& forall|a: int, b: int| !(#[trigger] is_sufficient(CutAxis::Vertical, frames, a, b))
    &&& forall|a: int, b: int| !(#[trigger] is_sufficient(CutAxis::Horizontal, frames, a, b))
}

proof fn lemma_one_widest(axis: CutAxis, frames: Seq<Frame>, a: int, b: int, c: int, d: int)
    requires
        is_widest(axis, frames, a, b),
        is_widest(axis, frames, c, d),
    ensures
        a == c,
        b == d,
{
    assert(is_sufficient(axis, frames, a, b));
    assert(is_sufficient(axis, frames, c, d));
}

proof fn lemma_quarter_more(v: F32, h: F32, m: int, n: int)
    requires
        v.is_whole(m),
        h.is_whole(n),
        0 <= m < 2048,
        0 <= n < 2048,
    ensures
        h.times(F32::ratio(5, 4)).less(v) <==> 5 * n < 4 * m,
{
    let q = F32::ratio(5, 4);
    lemma2_to64();
    assert(crate::float::rounding::half_even(5 * pow2(23), 4) == 0xA0_0000);
    crate::float::exact::ratio_has_units(5, 4, 126, 0xA0_0000);
    lemma_pow2_adds(126, 15);
    let p = pow2(126);
    assert(0xA0_0000 * p == 320 * (p * 0x8000)) by (nonlinear_arith);
    assert(q.measures(320));
    crate::float::exact::measured_product(h, q, 256 * n, 320, 320 * n);
    crate::float::exact::measures_are_ordered(h.times(q), v, 320 * n, 256 * m);
}

proof fn lemma_band_width(axis: CutAxis, boxes: Seq<Rect>, frames: Seq<Frame>, a: int, b: int)
    requires
        are_frames(boxes, frames),
        is_band(axis, frames, a, b),
    ensures
        0 < a < b < 2048,
{
    let i = choose|i: int| 0 <= i < frames.len() && high(axis, #[trigger] frames[i]) <= a;
    let j = choose|j: int| 0 <= j < frames.len() && low(axis, #[trigger] frames[j]) >= b;
    assert(boxes[i].is_framed(frames[i]));
    assert(boxes[j].is_framed(frames[j]));
    lemma_edges(axis, boxes[i], frames[i]);
    lemma_edges(axis, boxes[j], frames[j]);
}

/// Whether a cut is the one at a band across the page or down the page.
pub open spec fn is_cut_at(cut: Cut, boxes: Seq<Rect>, frames: Seq<Frame>, a: int, b: int) -> bool {
    ||| cuts_across(frames, a, b) && lies_in_band(cut, CutAxis::Vertical, frames, a, b)
        && parts_as_band(cut, CutAxis::Vertical, boxes, frames, a, b)
    ||| cuts_down(frames, a, b) && lies_in_band(cut, CutAxis::Horizontal, frames, a, b)
        && parts_as_band(cut, CutAxis::Horizontal, boxes, frames, a, b)
}

/// A cut is chosen whenever a band along either axis is wide enough and parts the frames: at the
/// band from the top to the bottom where that one comes first, else at the one from left to right.
pub proof fn cuts_are_chosen_at_bands(boxes: Seq<Rect>, frames: Seq<Frame>)
    requires
        are_frames(boxes, frames),
    ensures
        chosen_cut(boxes) is None <==> is_whole_page(frames),
        chosen_cut(boxes) matches Some(cut) ==> exists|a: int, b: int|
            #![trigger is_cut_at(cut, boxes, frames, a, b)]
            is_cut_at(cut, boxes, frames, a, b),
{
    let (va, ha) = (CutAxis::Vertical, CutAxis::Horizontal);
    let (v, h) = (axis_cut(va, boxes), axis_cut(ha, boxes));
    cuts_lie_in_the_widest_band(va, boxes, frames);
    cuts_lie_in_the_widest_band(ha, boxes, frames);
    let (a, b) = choose|a: int, b: int|
        #![trigger is_widest(va, frames, a, b)]
        is_widest(va, frames, a, b) && lies_in_band(v->0, va, frames, a, b) && parts_as_band(
            v->0,
            va,
            boxes,
            frames,
            a,
            b,
        );
    let (c, d) = choose|c: int, d: int|
        #![trigger is_widest(ha, frames, c, d)]
        is_widest(ha, frames, c, d) && lies_in_band(h->0, ha, frames, c, d) && parts_as_band(
            h->0,
            ha,
            boxes,
            frames,
            c,
            d,
        );
    match (v, h) {
        (Some(x), Some(y)) => {
            assert(is_sufficient(va, frames, a, b));
            lemma_band_width(va, boxes, frames, a, b);
            lemma_band_width(ha, boxes, frames, c, d);
            lemma_quarter_more(x.gap, y.gap, b - a, d - c);
            if crate::layout_order::divides_columns(x) || y.gap.times(F32::ratio(5, 4)).less(
                x.gap,
            ) {
                assert forall|e: int, f: int| #[trigger]
                    is_widest(ha, frames, e, f) && y.gap.times(F32::ratio(5, 4)).less(
                        x.gap,
                    ) implies 4 * (b - a) > 5 * (f - e) by {
                    lemma_one_widest(ha, frames, c, d, e, f);
                }
                assert(cuts_across(frames, a, b));
                assert(is_cut_at(x, boxes, frames, a, b));
            } else {
                assert forall|e: int, f: int| !(#[trigger] cuts_across(frames, e, f)) by {
                    if cuts_across(frames, e, f) {
                        lemma_one_widest(va, frames, a, b, e, f);
                        assert(is_widest(ha, frames, c, d));
                    }
                }
                assert(cuts_down(frames, c, d));
                assert(is_cut_at(y, boxes, frames, c, d));
            }
        },
        (Some(x), None) => {
            assert(is_sufficient(va, frames, a, b));
            assert forall|e: int, f: int| #[trigger] is_widest(ha, frames, e, f) implies 4 * (b - a)
                > 5 * (f - e) by {
                assert(is_sufficient(ha, frames, e, f));
            }
            assert(cuts_across(frames, a, b));
            assert(is_cut_at(x, boxes, frames, a, b));
        },
        (None, Some(y)) => {
            assert(is_sufficient(ha, frames, c, d));
            assert forall|e: int, f: int| !(#[trigger] cuts_across(frames, e, f)) by {
                if cuts_across(frames, e, f) {
                    assert(is_sufficient(va, frames, e, f));
                }
            }
            assert(cuts_down(frames, c, d));
            assert(is_cut_at(y, boxes, frames, c, d));
        },
        (None, None) => {},
    }
}

proof fn lemma_same_filter<T>(s: Seq<T>, p: spec_fn(T) -> bool, q: spec_fn(T) -> bool)
    requires
        forall|i: int| 0 <= i < s.len() ==> p(#[trigger] s[i]) == q(s[i]),
    ensures
        s.filter(p) == s.filter(q),
    decreases s.len(),
{
    reveal(Seq::filter);
    if s.len() > 0 {
        let d = s.drop_last();
        assert forall|i: int| 0 <= i < d.len() implies p(#[trigger] d[i]) == q(d[i]) by {
            assert(p(s[i]) == q(s[i]));
        }
        lemma_same_filter(d, p, q);
        assert(p(s[s.len() - 1]) == q(s[s.len() - 1]));
    }
}

/// Whether the blocks lie on whole points, with the given frames, none of which is empty.
pub open spec fn are_framed_by<T: Placed>(blocks: Seq<T>, f: spec_fn(T) -> Frame) -> bool {
    are_frames(places(blocks), blocks.map_values(f))
}

/// The blocks that end before a coordinate along an axis.
pub open spec fn ending_by<T: Placed>(
    blocks: Seq<T>,
    f: spec_fn(T) -> Frame,
    axis: CutAxis,
    a: int,
) -> Seq<T> {
    blocks.filter(|t: T| high(axis, f(t)) <= a)
}

/// The blocks that start behind a coordinate along an axis.
pub open spec fn starting_from<T: Placed>(
    blocks: Seq<T>,
    f: spec_fn(T) -> Frame,
    axis: CutAxis,
    b: int,
) -> Seq<T> {
    blocks.filter(|t: T| low(axis, f(t)) >= b)
}

proof fn lemma_cut_order<T: Placed>(
    blocks: Seq<T>,
    f: spec_fn(T) -> Frame,
    axis: CutAxis,
    cut: Cut,
    a: int,
    b: int,
)
    requires
        are_framed_by(blocks, f),
        is_band(axis, blocks.map_values(f), a, b),
        chosen_cut(places(blocks)) == Some(cut),
        cut.axis == axis,
        parts_as_band(cut, axis, places(blocks), blocks.map_values(f), a, b),
    ensures
        reading_order(blocks) == reading_order(ending_by(blocks, f, axis, a)) + reading_order(
            starting_from(blocks, f, axis, b),
        ),
{
    let boxes = places(blocks);
    let frames = blocks.map_values(f);
    let p = |t: T| crate::layout_order::is_before(t, cut);
    let q = |t: T| !crate::layout_order::is_before(t, cut);
    let x = |t: T| high(axis, f(t)) <= a;
    let y = |t: T| low(axis, f(t)) >= b;
    assert forall|i: int| 0 <= i < blocks.len() implies p(#[trigger] blocks[i]) == x(blocks[i])
        && q(blocks[i]) == y(blocks[i]) by {
        assert(boxes[i] == blocks[i].place());
        assert(frames[i] == f(blocks[i]));
    }
    lemma_same_filter(blocks, p, x);
    lemma_same_filter(blocks, q, y);
    let (before, after) = (part_before(blocks, cut), part_after(blocks, cut));
    let i = choose|i: int| 0 <= i < frames.len() && high(axis, #[trigger] frames[i]) <= a;
    let j = choose|j: int| 0 <= j < frames.len() && low(axis, #[trigger] frames[j]) >= b;
    assert(x(blocks[i]));
    assert(y(blocks[j]));
    lemma_filter_len(blocks, x);
    lemma_filter_len(blocks, y);
    if blocks.len() == 1 {
        assert(boxes[0].is_framed(frames[0]));
        lemma_edges(axis, boxes[0], frames[0]);
    }
    assert(before.len() > 0 && after.len() > 0);
}

/// The reading order of what lies on whole points. Where the page is parted by a band from its top
/// to its bottom, all that lies left of it is read before all that lies right of it; where it is
/// parted by one from left to right, all above it before all below it; each part in its own
/// reading order. Only where no band is wide enough, along either axis, is all ordered by its keys.
pub proof fn reading_order_follows_the_cuts<T: Placed>(s: Seq<T>, f: spec_fn(T) -> Frame)
    requires
        are_framed_by(s, f),
    ensures
        forall|a: int, b: int| #[trigger]
            cuts_across(s.map_values(f), a, b) ==> reading_order(s) == reading_order(
                ending_by(s, f, CutAxis::Vertical, a),
            ) + reading_order(starting_from(s, f, CutAxis::Vertical, b)),
        forall|a: int, b: int| #[trigger]
            cuts_down(s.map_values(f), a, b) ==> reading_order(s) == reading_order(
                ending_by(s, f, CutAxis::Horizontal, a),
            ) + reading_order(starting_from(s, f, CutAxis::Horizontal, b)),
        is_whole_page(s.map_values(f)) ==> crate::sorting::in_key_order(reading_order(s)),
{
    let boxes = places(s);
    let frames = s.map_values(f);
    cuts_are_chosen_at_bands(boxes, frames);
    if let Some(cut) = chosen_cut(boxes) {
        let (c, d) = choose|c: int, d: int|
            #![trigger is_cut_at(cut, boxes, frames, c, d)]
            is_cut_at(cut, boxes, frames, c, d);
        assert forall|a: int, b: int| #[trigger] cuts_across(frames, a, b) implies reading_order(s)
            == reading_order(ending_by(s, f, CutAxis::Vertical, a)) + reading_order(
            starting_from(s, f, CutAxis::Vertical, b),
        ) by {
            assert(cuts_across(frames, c, d));
            lemma_one_widest(CutAxis::Vertical, frames, a, b, c, d);
            lemma_cut_order(s, f, CutAxis::Vertical, cut, a, b);
        }
        assert forall|a: int, b: int| #[trigger] cuts_down(frames, a, b) implies reading_order(s)
            == reading_order(ending_by(s, f, CutAxis::Horizontal, a)) + reading_order(
            starting_from(s, f, CutAxis::Horizontal, b),
        ) by {
            assert(!cuts_across(frames, c, d));
            lemma_one_widest(CutAxis::Horizontal, frames, a, b, c, d);
            lemma_cut_order(s, f, CutAxis::Horizontal, cut, a, b);
        }
    } else {
        assert forall|a: int, b: int| !(#[trigger] cuts_across(frames, a, b)) && !cuts_down(
            frames,
            a,
            b,
        ) by {
            assert(!is_sufficient(CutAxis::Vertical, frames, a, b));
            assert(!is_sufficient(CutAxis::Horizontal, frames, a, b));
        }
        if s.len() > 1 {
            crate::sorting::sorting_permutes_into_order(s);
        }
    }
}

proof fn lemma_read_framed<T: Placed>(s: Seq<T>, f: spec_fn(T) -> Frame, i: int)
    requires
        are_framed_by(s, f),
        0 <= i < s.len(),
    ensures
        reading_order(s).len() == s.len(),
        reading_order(s)[i].place().is_framed(f(reading_order(s)[i])),
{
    let r = reading_order(s);
    crate::layout_order::reading_order_permutes(s);
    crate::permutations::lemma_same_elements(r, s);
    assert(r.contains(r[i]));
    let m = choose|m: int| 0 <= m < s.len() && s[m] == r[i];
    assert(places(s)[m].is_framed(s.map_values(f)[m]));
}

/// Where no band parts the blocks of a page, along either axis, they are read from the top, those
/// with the same top from the left, and those with the same place by their ids.
pub proof fn unparted_blocks_are_read_from_the_top(
    blocks: Seq<LayoutBlock>,
    f: spec_fn(LayoutBlock) -> Frame,
    i: int,
    j: int,
)
    requires
        are_framed_by(blocks, f),
        is_whole_page(blocks.map_values(f)),
        0 <= i < j < blocks.len(),
    ensures
        ({
            let (s, t) = (reading_order(blocks)[i], reading_order(blocks)[j]);
            &&& f(s).top <= f(t).top
            &&& s.y == t.y ==> f(s).left <= f(t).left
            &&& s.y == t.y && s.x == t.x ==> s.id <= t.id
        }),
{
    let r = reading_order(blocks);
    reading_order_follows_the_cuts(blocks, f);
    lemma_read_framed(blocks, f, i);
    lemma_read_framed(blocks, f, j);
    let (s, t) = (r[i], r[j]);
    assert(s.key().at_most(t.key()));
    crate::float::exact::measures_are_ordered(s.y, t.y, 256 * f(s).top, 256 * f(t).top);
    crate::float::exact::measures_are_ordered(s.x, t.x, 256 * f(s).left, 256 * f(t).left);
    assert(s.y.at_most(t.y));
    if s.y == t.y {
        assert(s.x.at_most(t.x));
    }
}

/// Where no band parts the detections of a page, along either axis, they are read from the top, and
/// those with the same top from the left.
pub proof fn unparted_detections_are_read_from_the_top<L>(
    detections: Seq<LayoutDetection<L>>,
    f: spec_fn(LayoutDetection<L>) -> Frame,
    i: int,
    j: int,
)
    requires
        are_framed_by(detections, f),
        is_whole_page(detections.map_values(f)),
        0 <= i < j < detections.len(),
    ensures
        ({
            let (s, t) = (reading_order(detections)[i], reading_order(detections)[j]);
            &&& f(s).top <= f(t).top
            &&& s.y == t.y ==> f(s).left <= f(t).left
        }),
{
    let r = reading_order(detections);
    reading_order_follows_the_cuts(detections, f);
    lemma_read_framed(detections, f, i);
    lemma_read_framed(detections, f, j);
    let (s, t) = (r[i], r[j]);
    assert(s.key().at_most(t.key()));
    crate::float::exact::measures_are_ordered(s.y, t.y, 256 * f(s).top, 256 * f(t).top);
    crate::float::exact::measures_are_ordered(s.x, t.x, 256 * f(s).left, 256 * f(t).left);
    assert(s.y.at_most(t.y));
    if s.y == t.y {
        assert(s.x.at_most(t.x));
    }
}

/// The place of a block and of a detection is the rectangle from its left and top edge, as wide and
/// as high as it is.
pub proof fn places_are_the_boxes<L>(block: LayoutBlock, detection: LayoutDetection<L>)
    ensures
        block.place() == (Rect {
            x: block.x,
            y: block.y,
            width: block.width,
            height: block.height,
        }),
        detection.place() == (Rect {
            x: detection.x,
            y: detection.y,
            width: detection.width,
            height: detection.height,
        }),
{
}

/// Where the page is parted by a band from its top to its bottom, every block left of the band is
/// read before every block right of it.
pub proof fn columns_are_read_one_after_the_other<T: Placed>(
    blocks: Seq<T>,
    f: spec_fn(T) -> Frame,
    a: int,
    b: int,
    i: int,
    j: int,
)
    requires
        are_framed_by(blocks, f),
        cuts_across(blocks.map_values(f), a, b),
        0 <= i < blocks.len(),
        0 <= j < blocks.len(),
        f(reading_order(blocks)[i]).right <= a,
        f(reading_order(blocks)[j]).left >= b,
    ensures
        i < j,
{
    let (before, after) = (
        ending_by(blocks, f, CutAxis::Vertical, a),
        starting_from(blocks, f, CutAxis::Vertical, b),
    );
    let r = reading_order(blocks);
    reading_order_follows_the_cuts(blocks, f);
    crate::layout_order::reading_order_permutes(blocks);
    lemma_read_part(blocks, before, f, |t: T| high(CutAxis::Vertical, f(t)) <= a);
    lemma_read_part(blocks, after, f, |t: T| low(CutAxis::Vertical, f(t)) >= b);
    let n = reading_order(before).len() as int;
    if i >= n {
        assert(r[i] == reading_order(after)[i - n]);
        lemma_band_width(
            CutAxis::Vertical,
            places(blocks),
            blocks.map_values(f),
            a,
            b,
        );
        assert(f(r[i]).left >= b);
        crate::permutations::lemma_same_elements(r, blocks);
        assert(r.contains(r[i]));
        let m = choose|m: int| 0 <= m < blocks.len() && blocks[m] == r[i];
        assert(places(blocks)[m].is_framed(blocks.map_values(f)[m]));
    }
    if j < n {
        assert(r[j] == reading_order(before)[j]);
        lemma_band_width(
            CutAxis::Vertical,
            places(blocks),
            blocks.map_values(f),
            a,
            b,
        );
        crate::permutations::lemma_same_elements(r, blocks);
        assert(r.contains(r[j]));
        let m = choose|m: int| 0 <= m < blocks.len() && blocks[m] == r[j];
        assert(places(blocks)[m].is_framed(blocks.map_values(f)[m]));
    }
}

proof fn lemma_read_part<T: Placed>(
    blocks: Seq<T>,
    part: Seq<T>,
    f: spec_fn(T) -> Frame,
    p: spec_fn(T) -> bool,
)
    requires
        part == blocks.filter(p),
    ensures
        forall|i: int|
            0 <= i < reading_order(part).len() ==> p(#[trigger] reading_order(part)[i]),
{
    let r = reading_order(part);
    crate::layout_order::reading_order_permutes(part);
    crate::permutations::lemma_same_elements(r, part);
    assert forall|i: int| 0 <= i < r.len() implies p(#[trigger] r[i]) by {
        assert(r.contains(r[i]));
        let k = choose|k: int| 0 <= k < part.len() && part[k] == r[i];
        blocks.lemma_filter_pred(p, k);
    }
}

} // verus!
