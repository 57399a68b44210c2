//! The horizontal and vertical rules that are drawn on a page.
use crate::float::F32;
use crate::sorting::{sort, Key, Keyed, KeyedValue};
use crate::types::GraphicPrimitive;
use vstd::prelude::*;

verus! {

/// Horizontal segment in viewport coords (top-left origin). `y` is the rule's
/// y-position; `x_min..x_max` is its horizontal span. Endpoints of multiple
/// short segments sharing a y get unioned into one wider segment during
/// clustering.
#[derive(Clone, Copy, Debug)]
pub struct HSeg {
    pub x_min: F32,
    pub x_max: F32,
    pub y: F32,
}

/// Vertical segment in viewport coords.
#[derive(Clone, Copy, Debug)]
pub struct VSeg {
    pub y_min: F32,
    pub y_max: F32,
    pub x: F32,
}

/// Horizontal segments are ordered from top to bottom.
impl Keyed for HSeg {
    open spec fn key(self) -> Key {
        Key { first: self.y.rank() as i64, second: 0, third: 0 }
    }
}

impl KeyedValue for HSeg {
    fn key_of(&self) -> (k: Key) {
        Key { first: self.y.total_rank(), second: 0, third: 0 }
    }
}

/// Vertical segments are ordered from left to right.
impl Keyed for VSeg {
    open spec fn key(self) -> Key {
        Key { first: self.x.rank() as i64, second: 0, third: 0 }
    }
}

impl KeyedValue for VSeg {
    fn key_of(&self) -> (k: Key) {
        Key { first: self.x.total_rank(), second: 0, third: 0 }
    }
}

/// Coordinates are in their total order.
impl Keyed for F32 {
    open spec fn key(self) -> Key {
        Key { first: self.rank() as i64, second: 0, third: 0 }
    }
}

impl KeyedValue for F32 {
    fn key_of(&self) -> (k: Key) {
        Key { first: self.total_rank(), second: 0, third: 0 }
    }
}

/// Whether a stroke is horizontal: longer than a point, and not more than a point high.
pub open spec fn is_horizontal(x1: F32, y1: F32, x2: F32, y2: F32) -> bool {
    let one = F32::from_nat(1);
    y1.minus(y2).absolute().at_most(one) && one.less(x1.minus(x2).absolute())
}

/// Whether a stroke is vertical: higher than a point, and not more than a point wide.
pub open spec fn is_vertical(x1: F32, y1: F32, x2: F32, y2: F32) -> bool {
    let one = F32::from_nat(1);
    x1.minus(x2).absolute().at_most(one) && one.less(y1.minus(y2).absolute())
}

/// The horizontal segments of a graphic.
pub open spec fn h_segments_of(g: GraphicPrimitive) -> Seq<HSeg> {
    match g {
        GraphicPrimitive::Stroke { x1, y1, x2, y2 } => if is_horizontal(x1, y1, x2, y2) {
            seq![
                HSeg {
                    x_min: x1.lesser(x2),
                    x_max: x1.greater(x2),
                    y: y1.plus(y2).times(F32::ratio(1, 2)),
                },
            ]
        } else {
            Seq::empty()
        },
        GraphicPrimitive::Rect { bbox, stroked } => if stroked && F32::from_nat(1).less(
            bbox.width,
        ) {
            seq![
                HSeg { x_min: bbox.x, x_max: bbox.right(), y: bbox.y },
                HSeg { x_min: bbox.x, x_max: bbox.right(), y: bbox.bottom() },
            ]
        } else {
            Seq::empty()
        },
    }
}

/// The vertical segments of a graphic.
pub open spec fn v_segments_of(g: GraphicPrimitive) -> Seq<VSeg> {
    match g {
        GraphicPrimitive::Stroke { x1, y1, x2, y2 } => if !is_horizontal(x1, y1, x2, y2)
            && is_vertical(x1, y1, x2, y2) {
            seq![
                VSeg {
                    y_min: y1.lesser(y2),
                    y_max: y1.greater(y2),
                    x: x1.plus(x2).times(F32::ratio(1, 2)),
                },
            ]
        } else {
            Seq::empty()
        },
        GraphicPrimitive::Rect { bbox, stroked } => if stroked && F32::from_nat(1).less(
            bbox.height,
        ) {
            seq![
                VSeg { y_min: bbox.y, y_max: bbox.bottom(), x: bbox.x },
                VSeg { y_min: bbox.y, y_max: bbox.bottom(), x: bbox.right() },
            ]
        } else {
            Seq::empty()
        },
    }
}

/// The horizontal segments of the graphics, in their order.
pub open spec fn h_segments(graphics: Seq<GraphicPrimitive>) -> Seq<HSeg>
    decreases graphics.len(),
{
    if graphics.len() == 0 {
        Seq::empty()
    } else {
        h_segments(graphics.drop_last()) + h_segments_of(graphics.last())
    }
}

/// The vertical segments of the graphics, in their order.
pub open spec fn v_segments(graphics: Seq<GraphicPrimitive>) -> Seq<VSeg>
    decreases graphics.len(),
{
    if graphics.len() == 0 {
        Seq::empty()
    } else {
        v_segments(graphics.drop_last()) + v_segments_of(graphics.last())
    }
}

/// Whether two coordinates belong to one grid line.
pub open spec fn same_grid_line(a: F32, b: F32) -> bool {
    a.minus(b).absolute().at_most(F32::from_nat(2))
}

/// The segments with each one that belongs to the grid line before it joined to that line.
pub open spec fn merged_h(segs: Seq<HSeg>) -> Seq<HSeg>
    decreases segs.len(),
{
    if segs.len() == 0 {
        Seq::empty()
    } else {
        let before = merged_h(segs.drop_last());
        let seg = segs.last();
        if before.len() > 0 && same_grid_line(before.last().y, seg.y) {
            before.drop_last().push(
                HSeg {
                    x_min: before.last().x_min.lesser(seg.x_min),
                    x_max: before.last().x_max.greater(seg.x_max),
                    y: before.last().y,
                },
            )
        } else {
            before.push(seg)
        }
    }
}

/// The segments with each one that belongs to the grid line before it joined to that line.
pub open spec fn merged_v(segs: Seq<VSeg>) -> Seq<VSeg>
    decreases segs.len(),
{
    if segs.len() == 0 {
        Seq::empty()
    } else {
        let before = merged_v(segs.drop_last());
        let seg = segs.last();
        if before.len() > 0 && same_grid_line(before.last().x, seg.x) {
            before.drop_last().push(
                VSeg {
                    y_min: before.last().y_min.lesser(seg.y_min),
                    y_max: before.last().y_max.greater(seg.y_max),
                    x: before.last().x,
                },
            )
        } else {
            before.push(seg)
        }
    }
}

/// The horizontal grid lines, from top to bottom.
pub open spec fn clustered_h(segs: Seq<HSeg>) -> Seq<HSeg> {
    merged_h(crate::sorting::sorted(segs))
}

/// The vertical grid lines, from left to right.
pub open spec fn clustered_v(segs: Seq<VSeg>) -> Seq<VSeg> {
    merged_v(crate::sorting::sorted(segs))
}

/// The coordinates without those that belong to the grid line of the last one kept.
pub open spec fn deduped(s: Seq<F32>) -> Seq<F32>
    decreases s.len(),
{
    if s.len() == 0 {
        s
    } else {
        let before = deduped(s.drop_last());
        if before.len() > 0 && same_grid_line(s.last(), before.last()) {
            before
        } else {
            before.push(s.last())
        }
    }
}

/// The distinct coordinates in order.
pub open spec fn boundaries(s: Seq<F32>) -> Seq<F32> {
    deduped(crate::sorting::sorted(s))
}

/// Whether a value lies on the `i`th boundary or between it and the next one; the last boundary
/// belongs to the last bucket.
pub open spec fn in_bucket(boundaries: Seq<F32>, val: F32, i: int) -> bool {
    boundaries[i].at_most(val) && (val.less(boundaries[i + 1]) || (i + 2 == boundaries.len()
        && val.at_most(boundaries[i + 1])))
}

/// Extract horizontal and vertical line segments from a page's graphics. Each
/// stroke becomes one `HSeg` or `VSeg` depending on orientation; each stroked
/// rectangle contributes its four edges (cell-border rects, table frames).
pub fn extract_h_v_segments(graphics: &Vec<GraphicPrimitive>) -> (r: (Vec<HSeg>, Vec<VSeg>))
    ensures
        r.0@ == h_segments(graphics@),
        r.1@ == v_segments(graphics@),
{
    let one: F32 = F32::from_u32(1);
    let half: F32 = F32::fraction(1, 2);
    let mut hs: Vec<HSeg> = Vec::new();
    let mut vs: Vec<VSeg> = Vec::new();
    let mut i: usize = 0;
    while i < graphics.len()
        invariant
            i <= graphics@.len(),
            one == F32::from_nat(1),
            half == F32::ratio(1, 2),
            hs@ == h_segments(graphics@.take(i as int)),
            vs@ == v_segments(graphics@.take(i as int)),
        decreases graphics@.len() - i,
    {
        let g: GraphicPrimitive = graphics[i];
        let ghost hs0 = hs@;
        let ghost vs0 = vs@;
        assert(graphics@.take(i + 1).drop_last() =~= graphics@.take(i as int));
        match g {
            GraphicPrimitive::Stroke { x1, y1, x2, y2 } => {
                let dy: F32 = y1.sub(y2).abs();
                let dx: F32 = x1.sub(x2).abs();
                if dy.le(one) && dx.gt(one) {
                    hs.push(
                        HSeg { x_min: x1.min(x2), x_max: x1.max(x2), y: y1.add(y2).mul(half) },
                    );
                } else if dx.le(one) && dy.gt(one) {
                    vs.push(
                        VSeg { y_min: y1.min(y2), y_max: y1.max(y2), x: x1.add(x2).mul(half) },
                    );
                }
            },
            GraphicPrimitive::Rect { bbox, stroked } => {
                if stroked {
                    let bottom: F32 = bbox.y.add(bbox.height);
                    let right: F32 = bbox.x.add(bbox.width);
                    if bbox.width.gt(one) {
                        hs.push(HSeg { x_min: bbox.x, x_max: right, y: bbox.y });
                        hs.push(HSeg { x_min: bbox.x, x_max: right, y: bottom });
                    }
                    if bbox.height.gt(one) {
                        vs.push(VSeg { y_min: bbox.y, y_max: bottom, x: bbox.x });
                        vs.push(VSeg { y_min: bbox.y, y_max: bottom, x: right });
                    }
                }
            },
        }
        assert(hs@ =~= hs0 + h_segments_of(g));
        assert(vs@ =~= vs0 + v_segments_of(g));
        i = i + 1;
    }
    assert(graphics@.take(i as int) =~= graphics@);
    (hs, vs)
}

/// Whether two coordinates belong to one grid line.
fn on_same_grid_line(a: F32, b: F32) -> (r: bool)
    ensures
        r == same_grid_line(a, b),
{
    a.sub(b).abs().le(F32::from_u32(2))
}

/// Cluster H segments sharing a y-coordinate (within two points)
/// into a single wider grid line whose x-extent is the union of the inputs.
pub fn cluster_h_segments(segs: Vec<HSeg>) -> (r: Vec<HSeg>)
    ensures
        r@ == clustered_h(segs@),
{
    let ordered: Vec<HSeg> = sort(segs);
    let mut out: Vec<HSeg> = Vec::new();
    let mut i: usize = 0;
    while i < ordered.len()
        invariant
            i <= ordered@.len(),
            out@ == merged_h(ordered@.take(i as int)),
        decreases ordered@.len() - i,
    {
        assert(ordered@.take(i + 1).drop_last() =~= ordered@.take(i as int));
        let seg: HSeg = ordered[i];
        let n: usize = out.len();
        if n > 0 && on_same_grid_line(out[n - 1].y, seg.y) {
            let last: HSeg = out[n - 1];
            let ghost before = out@;
            out.set(
                n - 1,
                HSeg {
                    x_min: last.x_min.min(seg.x_min),
                    x_max: last.x_max.max(seg.x_max),
                    y: last.y,
                },
            );
            assert(out@ =~= before.drop_last().push(out@[n - 1]));
        } else {
            out.push(seg);
        }
        i = i + 1;
    }
    assert(ordered@.take(i as int) =~= ordered@);
    out
}

/// Cluster V segments sharing an x-coordinate into a single grid line.
pub fn cluster_v_segments(segs: Vec<VSeg>) -> (r: Vec<VSeg>)
    ensures
        r@ == clustered_v(segs@),
{
    let ordered: Vec<VSeg> = sort(segs);
    let mut out: Vec<VSeg> = Vec::new();
    let mut i: usize = 0;
    while i < ordered.len()
        invariant
            i <= ordered@.len(),
            out@ == merged_v(ordered@.take(i as int)),
        decreases ordered@.len() - i,
    {
        assert(ordered@.take(i + 1).drop_last() =~= ordered@.take(i as int));
        let seg: VSeg = ordered[i];
        let n: usize = out.len();
        if n > 0 && on_same_grid_line(out[n - 1].x, seg.x) {
            let last: VSeg = out[n - 1];
            let ghost before = out@;
            out.set(
                n - 1,
                VSeg {
                    y_min: last.y_min.min(seg.y_min),
                    y_max: last.y_max.max(seg.y_max),
                    x: last.x,
                },
            );
            assert(out@ =~= before.drop_last().push(out@[n - 1]));
        } else {
            out.push(seg);
        }
        i = i + 1;
    }
    assert(ordered@.take(i as int) =~= ordered@);
    out
}

/// Dedup of a sorted Vec, collapsing entries within two points to the
/// first of each cluster.
pub fn dedup_close(v: &mut Vec<F32>)
    ensures
        final(v)@ == deduped(old(v)@),
{
    let ghost before = v@;
    let mut out: Vec<F32> = Vec::new();
    let mut i: usize = 0;
    while i < v.len()
        invariant
            i <= v@.len(),
            v@ == before,
            out@ == deduped(before.take(i as int)),
        decreases v@.len() - i,
    {
        assert(before.take(i + 1).drop_last() =~= before.take(i as int));
        let x: F32 = v[i];
        let n: usize = out.len();
        if n == 0 || !on_same_grid_line(x, out[n - 1]) {
            out.push(x);
        }
        i = i + 1;
    }
    assert(before.take(i as int) =~= before);
    *v = out;
}

/// The distinct coordinates in order.
pub fn collect_boundaries(v: Vec<F32>) -> (r: Vec<F32>)
    ensures
        r@ == boundaries(v@),
{
    let mut r: Vec<F32> = sort(v);
    dedup_close(&mut r);
    r
}

/// The first bucket that a value lies in, if it does not lie outside of the boundaries.
pub open spec fn is_bucket(boundaries: Seq<F32>, val: F32, r: Option<int>) -> bool {
    match r {
        Some(i) => {
            &&& 0 <= i < boundaries.len() - 1
            &&& !val.less(boundaries[0])
            &&& !boundaries.last().less(val)
            &&& in_bucket(boundaries, val, i)
            &&& forall|j: int| 0 <= j < i ==> !(#[trigger] in_bucket(boundaries, val, j))
        },
        None => boundaries.len() < 2 || val.less(boundaries[0]) || boundaries.last().less(val)
            || forall|j: int|
            0 <= j < boundaries.len() - 1 ==> !(#[trigger] in_bucket(boundaries, val, j)),
    }
}

/// The first bucket that a value lies in.
pub open spec fn bucket(boundaries: Seq<F32>, val: F32) -> Option<int> {
    choose|r: Option<int>| is_bucket(boundaries, val, r)
}

proof fn lemma_bucket(boundaries: Seq<F32>, val: F32, r: Option<int>)
    requires
        is_bucket(boundaries, val, r),
    ensures
        bucket(boundaries, val) == r,
{
    let b = bucket(boundaries, val);
    assert(is_bucket(boundaries, val, b));
    if let (Some(i), Some(j)) = (b, r) {
        assert(in_bucket(boundaries, val, i));
        assert(in_bucket(boundaries, val, j));
    } else if let Some(i) = b {
        assert(in_bucket(boundaries, val, i));
    } else if let Some(j) = r {
        assert(in_bucket(boundaries, val, j));
    }
}

/// Find the bucket index `i` such that `boundaries[i] <= val < boundaries[i+1]`; the last
/// boundary itself is in the last bucket. Returns `None` if `val` is outside the boundaries.
pub fn find_bucket(boundaries: &Vec<F32>, val: F32) -> (r: Option<usize>)
    ensures
        match r {
            Some(i) => bucket(boundaries@, val) == Some(i as int) && i + 1 < boundaries@.len(),
            None => bucket(boundaries@, val) is None,
        },
{
    let n: usize = boundaries.len();
    if n < 2 || val.lt(boundaries[0]) || val.gt(boundaries[n - 1]) {
        proof {
            lemma_bucket(boundaries@, val, None);
        }
        return None;
    }
    let mut i: usize = 0;
    while i < n - 1
        invariant
            n == boundaries@.len(),
            n >= 2,
            i <= n - 1,
            !val.less(boundaries@[0]),
            !boundaries@.last().less(val),
            forall|j: int| 0 <= j < i ==> !(#[trigger] in_bucket(boundaries@, val, j)),
        decreases n - i,
    {
        if val.ge(boundaries[i]) && (val.lt(boundaries[i + 1]) || (i + 2 == n && val.le(
            boundaries[i + 1],
        ))) {
            proof {
                lemma_bucket(boundaries@, val, Some(i as int));
            }
            return Some(i);
        }
        i = i + 1;
    }
    proof {
        lemma_bucket(boundaries@, val, None);
    }
    None
}

/// A value within the boundaries that is a number has a bucket, where no boundary is not a
/// number.
pub proof fn every_value_within_has_a_bucket(boundaries: Seq<F32>, val: F32)
    requires
        boundaries.len() >= 2,
        boundaries[0].at_most(val),
        val.at_most(boundaries.last()),
        forall|i: int| 0 <= i < boundaries.len() ==> !(#[trigger] boundaries[i]).nan(),
    ensures
        bucket(boundaries, val) matches Some(i) && 0 <= i < boundaries.len() - 1 && in_bucket(
            boundaries,
            val,
            i,
        ),
{
    let i = lemma_some_bucket(boundaries, val, boundaries.len() - 1);
    let k = lemma_first_bucket(boundaries, val, i);
    lemma_bucket(boundaries, val, Some(k));
}

proof fn lemma_some_bucket(boundaries: Seq<F32>, val: F32, n: int) -> (i: int)
    requires
        1 <= n < boundaries.len(),
        boundaries[0].at_most(val),
        val.less(boundaries[n]) || (n + 1 == boundaries.len() && val.at_most(boundaries[n])),
        forall|i: int| 0 <= i < boundaries.len() ==> !(#[trigger] boundaries[i]).nan(),
    ensures
        0 <= i < n,
        in_bucket(boundaries, val, i),
    decreases n,
{
    if boundaries[n - 1].at_most(val) {
        n - 1
    } else {
        assert(!boundaries[n - 1].nan());
        lemma_some_bucket(boundaries, val, n - 1)
    }
}

proof fn lemma_first_bucket(boundaries: Seq<F32>, val: F32, i: int) -> (k: int)
    requires
        0 <= i,
        in_bucket(boundaries, val, i),
    ensures
        0 <= k <= i,
        in_bucket(boundaries, val, k),
        forall|j: int| 0 <= j < k ==> !(#[trigger] in_bucket(boundaries, val, j)),
    decreases i,
{
    if exists|j: int| 0 <= j < i && #[trigger] in_bucket(boundaries, val, j) {
        let j = choose|j: int| 0 <= j < i && #[trigger] in_bucket(boundaries, val, j);
        lemma_first_bucket(boundaries, val, j)
    } else {
        i
    }
}

/// Whether the boundaries part a page into rows or columns: they are numbers and ascend.
pub open spec fn are_ascending(boundaries: Seq<F32>) -> bool {
    forall|i: int, j: int|
        0 <= i < j < boundaries.len() ==> (#[trigger] boundaries[i]).less(#[trigger] boundaries[j])
}

/// Whether a value lies from the `i`th boundary, which belongs to it, up to the next one, which
/// belongs to it only where there is no further one.
pub open spec fn lies_between(boundaries: Seq<F32>, val: F32, i: int) -> bool {
    &&& 0 <= i < boundaries.len() - 1
    &&& boundaries[i].at_most(val)
    &&& if i == boundaries.len() - 2 {
        val.at_most(boundaries[i + 1])
    } else {
        val.less(boundaries[i + 1])
    }
}

/// Between ascending boundaries, the bucket of a value is the one place where it lies, and there
/// is one for each value from the first boundary to the last.
pub proof fn values_lie_in_their_bucket(boundaries: Seq<F32>, val: F32, i: int)
    requires
        are_ascending(boundaries),
    ensures
        bucket(boundaries, val) == Some(i) <==> lies_between(boundaries, val, i),
        boundaries.len() >= 2 && boundaries[0].at_most(val) && val.at_most(boundaries.last())
            ==> bucket(boundaries, val) is Some,
{
    let n = boundaries.len();
    if n >= 2 && boundaries[0].at_most(val) && val.at_most(boundaries.last()) {
        assert forall|k: int| 0 <= k < n implies !(#[trigger] boundaries[k]).nan() by {
            if k == 0 {
                assert(boundaries[0].less(boundaries[1]));
            } else {
                assert(boundaries[0].less(boundaries[k]));
            }
        }
        every_value_within_has_a_bucket(boundaries, val);
        let k = bucket(boundaries, val)->0;
        assert(lies_between(boundaries, val, k));
        if lies_between(boundaries, val, i) {
            if i < k {
                assert(boundaries[i + 1].at_most(boundaries[k])) by {
                    if i + 1 < k {
                        assert(boundaries[i + 1].less(boundaries[k]));
                    }
                }
                assert(i != n - 2);
            } else if k < i {
                assert(boundaries[k + 1].at_most(boundaries[i])) by {
                    if k + 1 < i {
                        assert(boundaries[k + 1].less(boundaries[i]));
                    }
                }
                assert(k != n - 2);
            }
        }
    } else {
        if lies_between(boundaries, val, i) {
            if i > 0 {
                assert(boundaries[0].less(boundaries[i]));
            }
            if i + 1 < n - 1 {
                assert(boundaries[i + 1].less(boundaries[n - 1]));
            }
            assert(false);
        }
        if exists|j: int| 0 <= j < n - 1 && #[trigger] in_bucket(boundaries, val, j) {
            let j = choose|j: int| 0 <= j < n - 1 && #[trigger] in_bucket(boundaries, val, j);
            if j > 0 {
                assert(boundaries[0].less(boundaries[j]));
            }
            if j + 1 < n - 1 {
                assert(boundaries[j + 1].less(boundaries[n - 1]));
            }
            assert(false);
        }
        lemma_bucket(boundaries, val, None);
    }
}

proof fn lemma_distance(a: F32, b: F32, v: int, w: int)
    requires
        a.is_whole(v),
        b.is_whole(w),
        -4096 < v < 4096,
        -4096 < w < 4096,
    ensures
        a.minus(b).absolute().is_whole(crate::types::most(v - w, w - v)),
{
    crate::float::exact::whole_difference(a, b, v, w);
    crate::float::exact::measured_negation(a.minus(b), 256 * (v - w));
}

proof fn lemma_distance_limit(a: F32, b: F32, v: int, w: int, n: nat)
    requires
        a.is_whole(v),
        b.is_whole(w),
        -4096 < v < 4096,
        -4096 < w < 4096,
        n < 0x1_0000,
    ensures
        a.minus(b).absolute().at_most(F32::from_nat(n)) <==> -n <= v - w <= n,
        F32::from_nat(n).less(a.minus(b).absolute()) <==> !(-n <= v - w <= n),
{
    let d = a.minus(b).absolute();
    let m = crate::types::most(v - w, w - v);
    lemma_distance(a, b, v, w);
    crate::float::exact::naturals_are_whole(n);
    crate::float::exact::measures_are_ordered(d, F32::from_nat(n), 256 * m, 256 * n as int);
    crate::float::exact::measures_are_ordered(F32::from_nat(n), d, 256 * n as int, 256 * m);
}

/// On whole points, two coordinates belong to one grid line if they are at most two points apart.
pub proof fn grid_lines_are_two_points_wide(a: F32, b: F32, v: int, w: int)
    requires
        a.is_whole(v),
        b.is_whole(w),
        -4096 < v < 4096,
        -4096 < w < 4096,
    ensures
        same_grid_line(a, b) <==> -2 <= v - w <= 2,
{
    lemma_distance_limit(a, b, v, w, 2);
}

/// Whether a horizontal segment goes from `a` to `b` at a height of `y` halves of a point.
pub open spec fn is_h_at(seg: HSeg, a: int, b: int, y: int) -> bool {
    seg.x_min.is_whole(a) && seg.x_max.is_whole(b) && seg.y.measures(128 * y)
}

/// Whether a vertical segment goes from `a` to `b` at a distance of `x` halves of a point.
pub open spec fn is_v_at(seg: VSeg, a: int, b: int, x: int) -> bool {
    seg.y_min.is_whole(a) && seg.y_max.is_whole(b) && seg.x.measures(128 * x)
}

/// A stroke between whole points is a horizontal segment if its ends are more than a point apart
/// across the page and at most one down the page, and a vertical one the other way round: from the
/// smaller coordinate to the greater one, midway between the ends. Other strokes are none.
pub proof fn strokes_give_segments(
    x1: F32,
    y1: F32,
    x2: F32,
    y2: F32,
    a: int,
    b: int,
    c: int,
    d: int,
)
    requires
        x1.is_whole(a),
        y1.is_whole(b),
        x2.is_whole(c),
        y2.is_whole(d),
        -4096 < a < 4096,
        -4096 < b < 4096,
        -4096 < c < 4096,
        -4096 < d < 4096,
    ensures
        ({
            let g = GraphicPrimitive::Stroke { x1, y1, x2, y2 };
            let (h, v) = (h_segments_of(g), v_segments_of(g));
            let flat = -1 <= b - d <= 1;
            let narrow = -1 <= a - c <= 1;
            &&& h.len() == if flat && !narrow { 1int } else { 0 }
            &&& v.len() == if narrow && !flat { 1int } else { 0 }
            &&& flat && !narrow ==> is_h_at(
                h[0],
                crate::types::least(a, c),
                crate::types::most(a, c),
                b + d,
            )
            &&& narrow && !flat ==> is_v_at(
                v[0],
                crate::types::least(b, d),
                crate::types::most(b, d),
                a + c,
            )
        }),
{
    lemma_distance_limit(y1, y2, b, d, 1);
    lemma_distance_limit(x1, x2, a, c, 1);
    crate::float::exact::measured_extremes(x1, x2, 256 * a, 256 * c);
    crate::float::exact::measured_extremes(y1, y2, 256 * b, 256 * d);
    crate::float::exact::whole_sum(x1, x2, a, c);
    crate::float::exact::whole_sum(y1, y2, b, d);
    crate::float::exact::measured_half(x1.plus(x2), 128 * (a + c));
    crate::float::exact::measured_half(y1.plus(y2), 128 * (b + d));
}

/// A stroked rectangle on whole points gives its top and bottom edges as horizontal segments where
/// it is wider than a point, and its left and right edges as vertical ones where it is higher; one
/// that is not stroked gives none.
pub proof fn rectangles_give_their_edges(
    bbox: crate::types::Rect,
    stroked: bool,
    g: crate::types::Frame,
)
    requires
        bbox.is_framed(g),
    ensures
        ({
            let r = GraphicPrimitive::Rect { bbox, stroked };
            let (h, v) = (h_segments_of(r), v_segments_of(r));
            let wide = stroked && g.right - g.left > 1;
            let high = stroked && g.bottom - g.top > 1;
            &&& h.len() == if wide { 2int } else { 0 }
            &&& v.len() == if high { 2int } else { 0 }
            &&& wide ==> is_h_at(h[0], g.left, g.right, 2 * g.top) && is_h_at(
                h[1],
                g.left,
                g.right,
                2 * g.bottom,
            )
            &&& high ==> is_v_at(v[0], g.top, g.bottom, 2 * g.left) && is_v_at(
                v[1],
                g.top,
                g.bottom,
                2 * g.right,
            )
        }),
{
    crate::types::framed_edges(bbox, g);
    let one = F32::from_nat(1);
    crate::float::exact::naturals_are_whole(1);
    crate::float::exact::measures_are_ordered(one, bbox.width, 256, 256 * (g.right - g.left));
    crate::float::exact::measures_are_ordered(one, bbox.height, 256, 256 * (g.bottom - g.top));
}

/// The segments of a page are those of its graphics.
pub proof fn segments_are_those_of_the_graphics(graphics: Seq<GraphicPrimitive>)
    ensures
        forall|k: int, i: int|
            #![trigger h_segments_of(graphics[k])[i]]
            0 <= k < graphics.len() && 0 <= i < h_segments_of(graphics[k]).len()
                ==> h_segments(graphics).contains(h_segments_of(graphics[k])[i]),
        forall|k: int, i: int|
            #![trigger v_segments_of(graphics[k])[i]]
            0 <= k < graphics.len() && 0 <= i < v_segments_of(graphics[k]).len()
                ==> v_segments(graphics).contains(v_segments_of(graphics[k])[i]),
        forall|j: int|
            0 <= j < h_segments(graphics).len() ==> exists|k: int|
                0 <= k < graphics.len() && (#[trigger] h_segments_of(graphics[k])).contains(
                    #[trigger] h_segments(graphics)[j],
                ),
        forall|j: int|
            0 <= j < v_segments(graphics).len() ==> exists|k: int|
                0 <= k < graphics.len() && (#[trigger] v_segments_of(graphics[k])).contains(
                    #[trigger] v_segments(graphics)[j],
                ),
    decreases graphics.len(),
{
    if graphics.len() > 0 {
        let d = graphics.drop_last();
        let n = graphics.len() - 1;
        let (h, v) = (h_segments(graphics), v_segments(graphics));
        let (p, q) = (h_segments(d), v_segments(d));
        segments_are_those_of_the_graphics(d);
        assert forall|k: int, i: int|
            #![trigger h_segments_of(graphics[k])[i]]
            0 <= k < graphics.len() && 0 <= i < h_segments_of(graphics[k]).len() implies h.contains(
            h_segments_of(graphics[k])[i],
        ) by {
            let x = h_segments_of(graphics[k])[i];
            if k < n {
                assert(d[k] == graphics[k]);
                assert(p.contains(h_segments_of(d[k])[i]));
                let j = choose|j: int| 0 <= j < p.len() && p[j] == x;
                assert(h[j] == x);
            } else {
                assert(h[p.len() + i] == x);
            }
        }
        assert forall|k: int, i: int|
            #![trigger v_segments_of(graphics[k])[i]]
            0 <= k < graphics.len() && 0 <= i < v_segments_of(graphics[k]).len() implies v.contains(
            v_segments_of(graphics[k])[i],
        ) by {
            let x = v_segments_of(graphics[k])[i];
            if k < n {
                assert(d[k] == graphics[k]);
                assert(q.contains(v_segments_of(d[k])[i]));
                let j = choose|j: int| 0 <= j < q.len() && q[j] == x;
                assert(v[j] == x);
            } else {
                assert(v[q.len() + i] == x);
            }
        }
        assert forall|j: int| 0 <= j < h.len() implies exists|k: int|
            0 <= k < graphics.len() && (#[trigger] h_segments_of(graphics[k])).contains(
                #[trigger] h[j],
            ) by {
            if j < p.len() {
                assert(h[j] == p[j]);
                let k = choose|k: int|
                    0 <= k < d.len() && (#[trigger] h_segments_of(d[k])).contains(p[j]);
                assert(h_segments_of(graphics[k]).contains(h[j]));
            } else {
                assert(h[j] == h_segments_of(graphics[n])[j - p.len()]);
                assert(h_segments_of(graphics[n]).contains(h[j]));
            }
        }
        assert forall|j: int| 0 <= j < v.len() implies exists|k: int|
            0 <= k < graphics.len() && (#[trigger] v_segments_of(graphics[k])).contains(
                #[trigger] v[j],
            ) by {
            if j < q.len() {
                assert(v[j] == q[j]);
                let k = choose|k: int|
                    0 <= k < d.len() && (#[trigger] v_segments_of(d[k])).contains(q[j]);
                assert(v_segments_of(graphics[k]).contains(v[j]));
            } else {
                assert(v[j] == v_segments_of(graphics[n])[j - q.len()]);
                assert(v_segments_of(graphics[n]).contains(v[j]));
            }
        }
    }
}

/// Whether the coordinates are finite.
pub open spec fn are_finite(s: Seq<F32>) -> bool {
    forall|i: int| 0 <= i < s.len() ==> (#[trigger] s[i]).finite()
}

proof fn lemma_apart(a: F32, b: F32)
    requires
        a.finite(),
        b.finite(),
        a.at_most(b),
        !same_grid_line(b, a),
    ensures
        a.less(b),
{
    if !a.less(b) {
        let n = a.negated();
        let two = F32::from_nat(2);
        crate::float::bounds::small_naturals_are_exact(2);
        crate::float::bounds::naturals_are_not_negative(2);
        crate::float::order::comparison_compares_values(a, b);
        assert(n.finite() && n.units() == a.units() && n.value() == -a.value());
        assert(b.minus(a).zero()) by {
            let zero = F32 { bits: 0 };
            crate::float::bounds::lemma_zero_units(zero);
            crate::float::exact::sum_bounds(b, n, zero);
        }
        assert(b.minus(a).absolute().zero());
        assert(b.minus(a).absolute().at_most(two));
    }
}

proof fn lemma_deduped(s: Seq<F32>)
    requires
        are_finite(s),
        forall|i: int, j: int| 0 <= i <= j < s.len() ==> (#[trigger] s[i]).at_most(#[trigger] s[j]),
    ensures
        are_ascending(deduped(s)),
        s.len() > 0 ==> deduped(s).len() > 0 && deduped(s).last().at_most(s.last()),
        forall|k: int| 0 <= k < deduped(s).len() ==> s.contains(#[trigger] deduped(s)[k]),
        forall|k: int|
            0 < k < deduped(s).len() ==> !same_grid_line(
                #[trigger] deduped(s)[k],
                deduped(s)[k - 1],
            ),
        forall|i: int|
            0 <= i < s.len() ==> exists|k: int|
                0 <= k < deduped(s).len() && (#[trigger] deduped(s)[k] == s[i] || same_grid_line(
                    #[trigger] s[i],
                    deduped(s)[k],
                )),
    decreases s.len(),
{
    if s.len() > 0 {
        let d = s.drop_last();
        let n = s.len() - 1;
        let (before, all) = (deduped(d), deduped(s));
        assert forall|i: int| 0 <= i < d.len() implies (#[trigger] d[i]).finite() by {
            assert(s[i].finite());
        }
        assert forall|i: int, j: int| 0 <= i <= j < d.len() implies (#[trigger] d[i]).at_most(
            #[trigger] d[j],
        ) by {
            assert(s[i].at_most(s[j]));
        }
        lemma_deduped(d);
        assert(s[n].finite());
        let m = before.len() - 1;
        if before.len() > 0 {
            assert(d.contains(before[m]));
            let i = choose|i: int| 0 <= i < d.len() && d[i] == before[m];
            assert(s[i].finite() && s[i].at_most(s[n]));
        } else {
            assert(s[n].at_most(s[n]));
        }
        assert forall|k: int| 0 <= k < all.len() implies s.contains(#[trigger] all[k]) by {
            if k <= m {
                assert(all[k] == before[k]);
                assert(d.contains(before[k]));
                let i = choose|i: int| 0 <= i < d.len() && d[i] == before[k];
                assert(s[i] == all[k]);
            } else {
                assert(s[n] == all[k]);
            }
        }
        assert forall|k: int| 0 < k < all.len() implies !same_grid_line(
            #[trigger] all[k],
            all[k - 1],
        ) by {
            if k <= m {
                assert(!same_grid_line(before[k], before[k - 1]));
            }
        }
        if all.len() > before.len() && m >= 0 {
            lemma_apart(before[m], s[n]);
        }
        assert forall|i: int, j: int| 0 <= i < j < all.len() implies (#[trigger] all[i]).less(
            #[trigger] all[j],
        ) by {
            if j <= m {
                assert(before[i].less(before[j]));
            } else if i < m {
                assert(before[i].less(before[m]));
            }
        }
        assert forall|i: int| 0 <= i < s.len() implies exists|k: int|
            0 <= k < all.len() && (#[trigger] all[k] == s[i] || same_grid_line(
                #[trigger] s[i],
                all[k],
            )) by {
            if i < n {
                assert(d[i] == s[i]);
                let k = choose|k: int|
                    0 <= k < before.len() && (#[trigger] before[k] == d[i] || same_grid_line(
                        d[i],
                        before[k],
                    ));
                assert(all[k] == before[k]);
            } else if all.len() == before.len() {
                assert(same_grid_line(s[i], all[m]));
            } else {
                assert(all[m + 1] == s[i]);
            }
        }
    }
}

/// The boundaries of a grid ascend, and no two neighbours belong to one grid line. Each is one of
/// the coordinates, and each coordinate is a boundary or belongs to the grid line of one.
pub proof fn boundaries_stand_for_the_coordinates(s: Seq<F32>)
    requires
        are_finite(s),
    ensures
        are_ascending(boundaries(s)),
        forall|k: int| 0 <= k < boundaries(s).len() ==> s.contains(#[trigger] boundaries(s)[k]),
        forall|k: int|
            0 < k < boundaries(s).len() ==> !same_grid_line(
                #[trigger] boundaries(s)[k],
                boundaries(s)[k - 1],
            ),
        forall|i: int|
            0 <= i < s.len() ==> exists|k: int|
                0 <= k < boundaries(s).len() && (#[trigger] boundaries(s)[k] == s[i]
                    || same_grid_line(#[trigger] s[i], boundaries(s)[k])),
{
    let ordered = crate::sorting::sorted(s);
    let b = boundaries(s);
    crate::sorting::sorting_permutes_into_order(s);
    crate::permutations::lemma_same_elements(ordered, s);
    assert forall|i: int| 0 <= i < ordered.len() implies (#[trigger] ordered[i]).finite() by {
        assert(ordered.contains(ordered[i]));
        let k = choose|k: int| 0 <= k < s.len() && s[k] == ordered[i];
        assert(s[k].finite());
    }
    assert forall|i: int, j: int| 0 <= i <= j < ordered.len() implies (#[trigger] ordered[i]).at_most(
        #[trigger] ordered[j],
    ) by {
        let (x, y) = (ordered[i], ordered[j]);
        assert(Keyed::key(x).at_most(Keyed::key(y)));
        assert(x.finite() && y.finite());
        assert(x.rank() <= y.rank());
    }
    lemma_deduped(ordered);
    assert forall|k: int| 0 <= k < b.len() implies s.contains(#[trigger] b[k]) by {
        assert(ordered.contains(b[k]));
    }
    assert forall|i: int| 0 <= i < s.len() implies exists|k: int|
        0 <= k < b.len() && (#[trigger] b[k] == s[i] || same_grid_line(#[trigger] s[i], b[k])) by {
        assert(s.contains(s[i]));
        assert(ordered.contains(s[i]));
        let m = choose|m: int| 0 <= m < ordered.len() && ordered[m] == s[i];
        let k = choose|k: int|
            0 <= k < b.len() && (#[trigger] b[k] == ordered[m] || same_grid_line(ordered[m], b[k]));
        assert(b[k] == s[i] || same_grid_line(s[i], b[k]));
    }
}

/// Whether a horizontal grid line takes up a segment: it reaches as far on both sides, at a
/// height that belongs to it.
#[verifier::opaque]
pub open spec fn takes_up_h(line: HSeg, seg: HSeg) -> bool {
    &&& line.x_min.at_most(seg.x_min)
    &&& seg.x_max.at_most(line.x_max)
    &&& line.y == seg.y || same_grid_line(line.y, seg.y)
}

/// Whether a horizontal grid line starts where one of the segments does, ends where one does, and is
/// at the height of one.
#[verifier::opaque]
pub open spec fn is_made_of_h(line: HSeg, segs: Seq<HSeg>) -> bool {
    &&& exists|i: int| 0 <= i < segs.len() && (#[trigger] segs[i]).x_min == line.x_min
    &&& exists|i: int| 0 <= i < segs.len() && (#[trigger] segs[i]).x_max == line.x_max
    &&& exists|i: int| 0 <= i < segs.len() && (#[trigger] segs[i]).y == line.y
}

/// Whether one of the horizontal grid lines takes up a segment.
pub open spec fn is_taken_up_h(lines: Seq<HSeg>, seg: HSeg) -> bool {
    exists|k: int| 0 <= k < lines.len() && takes_up_h(#[trigger] lines[k], seg)
}

spec fn widened_h(line: HSeg, seg: HSeg) -> HSeg {
    HSeg {
        x_min: line.x_min.lesser(seg.x_min),
        x_max: line.x_max.greater(seg.x_max),
        y: line.y,
    }
}

proof fn lemma_widened_h(line: HSeg, seg: HSeg, other: HSeg)
    requires
        !seg.x_min.nan(),
        !seg.x_max.nan(),
    ensures
        takes_up_h(line, other) ==> takes_up_h(widened_h(line, seg), other),
        same_grid_line(line.y, seg.y) ==> takes_up_h(widened_h(line, seg), seg),
        takes_up_h(seg, seg),
{
    reveal(takes_up_h);
}

proof fn lemma_widened_made_of_h(line: HSeg, segs: Seq<HSeg>, seg: HSeg)
    ensures
        is_made_of_h(seg, segs.push(seg)),
        is_made_of_h(line, segs) ==> is_made_of_h(line, segs.push(seg)) && is_made_of_h(
            widened_h(line, seg),
            segs.push(seg),
        ),
{
    reveal(is_made_of_h);
    let all = segs.push(seg);
    assert(all[segs.len() as int] == seg);
    if is_made_of_h(line, segs) {
        let a = choose|a: int| 0 <= a < segs.len() && (#[trigger] segs[a]).x_min == line.x_min;
        let b = choose|b: int| 0 <= b < segs.len() && (#[trigger] segs[b]).x_max == line.x_max;
        let c = choose|c: int| 0 <= c < segs.len() && (#[trigger] segs[c]).y == line.y;
        assert(all[a] == segs[a] && all[b] == segs[b] && all[c] == segs[c]);
    }
}

proof fn lemma_merged_takes_up_h(segs: Seq<HSeg>)
    requires
        forall|i: int| 0 <= i < segs.len() ==> !(#[trigger] segs[i]).x_min.nan() && !segs[i].x_max.nan(),
    ensures
        forall|i: int| 0 <= i < segs.len() ==> is_taken_up_h(merged_h(segs), #[trigger] segs[i]),
    decreases segs.len(),
{
    if segs.len() > 0 {
        let d = segs.drop_last();
        let n = segs.len() - 1;
        let (before, all) = (merged_h(d), merged_h(segs));
        let m = before.len() - 1;
        let seg = segs[n];
        assert forall|i: int| 0 <= i < d.len() implies !(#[trigger] d[i]).x_min.nan()
            && !d[i].x_max.nan() by {
            assert(!segs[i].x_min.nan());
        }
        lemma_merged_takes_up_h(d);
        assert forall|i: int| 0 <= i < segs.len() implies is_taken_up_h(all, #[trigger] segs[i]) by {
            if i < n {
                assert(is_taken_up_h(before, d[i]));
                let k = choose|k: int| 0 <= k < before.len() && takes_up_h(#[trigger] before[k], d[i]);
                lemma_widened_h(before[k], seg, segs[i]);
                assert(all[k] == before[k] || all[k] == widened_h(before[k], seg));
                assert(takes_up_h(all[k], segs[i]));
            } else {
                lemma_widened_h(before.last(), seg, seg);
                assert(takes_up_h(all[all.len() - 1], segs[i]));
            }
        }
    }
}

proof fn lemma_merged_made_of_h(segs: Seq<HSeg>)
    ensures
        forall|k: int| 0 <= k < merged_h(segs).len() ==> is_made_of_h(#[trigger] merged_h(segs)[k], segs),
        forall|k: int|
            0 < k < merged_h(segs).len() ==> !same_grid_line(
                merged_h(segs)[k - 1].y,
                (#[trigger] merged_h(segs)[k]).y,
            ),
    decreases segs.len(),
{
    if segs.len() > 0 {
        let d = segs.drop_last();
        let n = segs.len() - 1;
        let (before, all) = (merged_h(d), merged_h(segs));
        let m = before.len() - 1;
        lemma_merged_made_of_h(d);
        assert(d.push(segs[n]) =~= segs);
        assert forall|k: int| 0 <= k < all.len() implies is_made_of_h(#[trigger] all[k], segs) by {
            if k <= m {
                lemma_widened_made_of_h(before[k], d, segs[n]);
                assert(is_made_of_h(before[k], d));
                assert(all[k] == before[k] || all[k] == widened_h(before[k], segs[n]));
            } else {
                lemma_widened_made_of_h(segs[n], d, segs[n]);
            }
        }
        assert forall|k: int| 0 < k < all.len() implies !same_grid_line(
            all[k - 1].y,
            (#[trigger] all[k]).y,
        ) by {
            if k <= m {
                assert(!same_grid_line(before[k - 1].y, before[k].y));
            }
        }
    }
}

/// Each horizontal segment is taken up by a grid line.
pub proof fn horizontal_lines_take_up_the_segments(segs: Seq<HSeg>, i: int)
    requires
        forall|i: int| 0 <= i < segs.len() ==> !(#[trigger] segs[i]).x_min.nan() && !segs[i].x_max.nan(),
        0 <= i < segs.len(),
    ensures
        is_taken_up_h(clustered_h(segs), segs[i]),
{
    let ordered = crate::sorting::sorted(segs);
    crate::sorting::sorting_permutes_into_order(segs);
    crate::permutations::lemma_same_elements(ordered, segs);
    assert forall|i: int| 0 <= i < ordered.len() implies !(#[trigger] ordered[i]).x_min.nan()
        && !ordered[i].x_max.nan() by {
        assert(ordered.contains(ordered[i]));
        let k = choose|k: int| 0 <= k < segs.len() && segs[k] == ordered[i];
        assert(!segs[k].x_min.nan());
    }
    lemma_merged_takes_up_h(ordered);
    assert(segs.contains(segs[i]));
    let m = choose|m: int| 0 <= m < ordered.len() && ordered[m] == segs[i];
    assert(is_taken_up_h(clustered_h(segs), ordered[m]));
}

/// Each horizontal grid line starts and ends where segments do, and no two neighbouring lines belong
/// together.
pub proof fn horizontal_lines_are_made_of_the_segments(segs: Seq<HSeg>, k: int)
    requires
        0 <= k < clustered_h(segs).len(),
    ensures
        is_made_of_h(clustered_h(segs)[k], segs),
        k > 0 ==> !same_grid_line(clustered_h(segs)[k - 1].y, clustered_h(segs)[k].y),
{
    let ordered = crate::sorting::sorted(segs);
    let line = clustered_h(segs)[k];
    crate::sorting::sorting_permutes_into_order(segs);
    crate::permutations::lemma_same_elements(ordered, segs);
    lemma_merged_made_of_h(ordered);
    assert(is_made_of_h(line, ordered));
    reveal(is_made_of_h);
    let a = choose|a: int| 0 <= a < ordered.len() && (#[trigger] ordered[a]).x_min == line.x_min;
    let b = choose|b: int| 0 <= b < ordered.len() && (#[trigger] ordered[b]).x_max == line.x_max;
    let c = choose|c: int| 0 <= c < ordered.len() && (#[trigger] ordered[c]).y == line.y;
    assert(ordered.contains(ordered[a]) && ordered.contains(ordered[b]) && ordered.contains(
        ordered[c],
    ));
    assert(segs.contains(ordered[a]) && segs.contains(ordered[b]) && segs.contains(ordered[c]));
}

/// Whether a vertical grid line takes up a segment: it reaches as far on both sides, at a
/// distance that belongs to it.
#[verifier::opaque]
pub open spec fn takes_up_v(line: VSeg, seg: VSeg) -> bool {
    &&& line.y_min.at_most(seg.y_min)
    &&& seg.y_max.at_most(line.y_max)
    &&& line.x == seg.x || same_grid_line(line.x, seg.x)
}

/// Whether a vertical grid line starts where one of the segments does, ends where one does, and is
/// at the distance of one.
#[verifier::opaque]
pub open spec fn is_made_of_v(line: VSeg, segs: Seq<VSeg>) -> bool {
    &&& exists|i: int| 0 <= i < segs.len() && (#[trigger] segs[i]).y_min == line.y_min
    &&& exists|i: int| 0 <= i < segs.len() && (#[trigger] segs[i]).y_max == line.y_max
    &&& exists|i: int| 0 <= i < segs.len() && (#[trigger] segs[i]).x == line.x
}

/// Whether one of the vertical grid lines takes up a segment.
pub open spec fn is_taken_up_v(lines: Seq<VSeg>, seg: VSeg) -> bool {
    exists|k: int| 0 <= k < lines.len() && takes_up_v(#[trigger] lines[k], seg)
}

spec fn widened_v(line: VSeg, seg: VSeg) -> VSeg {
    VSeg {
        y_min: line.y_min.lesser(seg.y_min),
        y_max: line.y_max.greater(seg.y_max),
        x: line.x,
    }
}

proof fn lemma_widened_v(line: VSeg, seg: VSeg, other: VSeg)
    requires
        !seg.y_min.nan(),
        !seg.y_max.nan(),
    ensures
        takes_up_v(line, other) ==> takes_up_v(widened_v(line, seg), other),
        same_grid_line(line.x, seg.x) ==> takes_up_v(widened_v(line, seg), seg),
        takes_up_v(seg, seg),
{
    reveal(takes_up_v);
}

proof fn lemma_widened_made_of_v(line: VSeg, segs: Seq<VSeg>, seg: VSeg)
    ensures
        is_made_of_v(seg, segs.push(seg)),
        is_made_of_v(line, segs) ==> is_made_of_v(line, segs.push(seg)) && is_made_of_v(
            widened_v(line, seg),
            segs.push(seg),
        ),
{
    reveal(is_made_of_v);
    let all = segs.push(seg);
    assert(all[segs.len() as int] == seg);
    if is_made_of_v(line, segs) {
        let a = choose|a: int| 0 <= a < segs.len() && (#[trigger] segs[a]).y_min == line.y_min;
        let b = choose|b: int| 0 <= b < segs.len() && (#[trigger] segs[b]).y_max == line.y_max;
        let c = choose|c: int| 0 <= c < segs.len() && (#[trigger] segs[c]).x == line.x;
        assert(all[a] == segs[a] && all[b] == segs[b] && all[c] == segs[c]);
    }
}

proof fn lemma_merged_takes_up_v(segs: Seq<VSeg>)
    requires
        forall|i: int| 0 <= i < segs.len() ==> !(#[trigger] segs[i]).y_min.nan() && !segs[i].y_max.nan(),
    ensures
        forall|i: int| 0 <= i < segs.len() ==> is_taken_up_v(merged_v(segs), #[trigger] segs[i]),
    decreases segs.len(),
{
    if segs.len() > 0 {
        let d = segs.drop_last();
        let n = segs.len() - 1;
        let (before, all) = (merged_v(d), merged_v(segs));
        let m = before.len() - 1;
        let seg = segs[n];
        assert forall|i: int| 0 <= i < d.len() implies !(#[trigger] d[i]).y_min.nan()
            && !d[i].y_max.nan() by {
            assert(!segs[i].y_min.nan());
        }
        lemma_merged_takes_up_v(d);
        assert forall|i: int| 0 <= i < segs.len() implies is_taken_up_v(all, #[trigger] segs[i]) by {
            if i < n {
                assert(is_taken_up_v(before, d[i]));
                let k = choose|k: int| 0 <= k < before.len() && takes_up_v(#[trigger] before[k], d[i]);
                lemma_widened_v(before[k], seg, segs[i]);
                assert(all[k] == before[k] || all[k] == widened_v(before[k], seg));
                assert(takes_up_v(all[k], segs[i]));
            } else {
                lemma_widened_v(before.last(), seg, seg);
                assert(takes_up_v(all[all.len() - 1], segs[i]));
            }
        }
    }
}

proof fn lemma_merged_made_of_v(segs: Seq<VSeg>)
    ensures
        forall|k: int| 0 <= k < merged_v(segs).len() ==> is_made_of_v(#[trigger] merged_v(segs)[k], segs),
        forall|k: int|
            0 < k < merged_v(segs).len() ==> !same_grid_line(
                merged_v(segs)[k - 1].x,
                (#[trigger] merged_v(segs)[k]).x,
            ),
    decreases segs.len(),
{
    if segs.len() > 0 {
        let d = segs.drop_last();
        let n = segs.len() - 1;
        let (before, all) = (merged_v(d), merged_v(segs));
        let m = before.len() - 1;
        lemma_merged_made_of_v(d);
        assert(d.push(segs[n]) =~= segs);
        assert forall|k: int| 0 <= k < all.len() implies is_made_of_v(#[trigger] all[k], segs) by {
            if k <= m {
                lemma_widened_made_of_v(before[k], d, segs[n]);
                assert(is_made_of_v(before[k], d));
                assert(all[k] == before[k] || all[k] == widened_v(before[k], segs[n]));
            } else {
                lemma_widened_made_of_v(segs[n], d, segs[n]);
            }
        }
        assert forall|k: int| 0 < k < all.len() implies !same_grid_line(
            all[k - 1].x,
            (#[trigger] all[k]).x,
        ) by {
            if k <= m {
                assert(!same_grid_line(before[k - 1].x, before[k].x));
            }
        }
    }
}

/// Each vertical segment is taken up by a grid line.
pub proof fn vertical_lines_take_up_the_segments(segs: Seq<VSeg>, i: int)
    requires
        forall|i: int| 0 <= i < segs.len() ==> !(#[trigger] segs[i]).y_min.nan() && !segs[i].y_max.nan(),
        0 <= i < segs.len(),
    ensures
        is_taken_up_v(clustered_v(segs), segs[i]),
{
    let ordered = crate::sorting::sorted(segs);
    crate::sorting::sorting_permutes_into_order(segs);
    crate::permutations::lemma_same_elements(ordered, segs);
    assert forall|i: int| 0 <= i < ordered.len() implies !(#[trigger] ordered[i]).y_min.nan()
        && !ordered[i].y_max.nan() by {
        assert(ordered.contains(ordered[i]));
        let k = choose|k: int| 0 <= k < segs.len() && segs[k] == ordered[i];
        assert(!segs[k].y_min.nan());
    }
    lemma_merged_takes_up_v(ordered);
    assert(segs.contains(segs[i]));
    let m = choose|m: int| 0 <= m < ordered.len() && ordered[m] == segs[i];
    assert(is_taken_up_v(clustered_v(segs), ordered[m]));
}

/// Each vertical grid line starts and ends where segments do, and no two neighbouring lines belong
/// together.
pub proof fn vertical_lines_are_made_of_the_segments(segs: Seq<VSeg>, k: int)
    requires
        0 <= k < clustered_v(segs).len(),
    ensures
        is_made_of_v(clustered_v(segs)[k], segs),
        k > 0 ==> !same_grid_line(clustered_v(segs)[k - 1].x, clustered_v(segs)[k].x),
{
    let ordered = crate::sorting::sorted(segs);
    let line = clustered_v(segs)[k];
    crate::sorting::sorting_permutes_into_order(segs);
    crate::permutations::lemma_same_elements(ordered, segs);
    lemma_merged_made_of_v(ordered);
    assert(is_made_of_v(line, ordered));
    reveal(is_made_of_v);
    let a = choose|a: int| 0 <= a < ordered.len() && (#[trigger] ordered[a]).y_min == line.y_min;
    let b = choose|b: int| 0 <= b < ordered.len() && (#[trigger] ordered[b]).y_max == line.y_max;
    let c = choose|c: int| 0 <= c < ordered.len() && (#[trigger] ordered[c]).x == line.x;
    assert(ordered.contains(ordered[a]) && ordered.contains(ordered[b]) && ordered.contains(
        ordered[c],
    ));
    assert(segs.contains(ordered[a]) && segs.contains(ordered[b]) && segs.contains(ordered[c]));
}

/// There are no more boundaries than coordinates.
pub proof fn boundaries_are_no_more_than_coordinates(s: Seq<F32>)
    ensures
        boundaries(s).len() <= s.len(),
{
    crate::sorting::sorting_permutes_into_order(s);
    lemma_deduped_len(crate::sorting::sorted(s));
}

proof fn lemma_deduped_len(s: Seq<F32>)
    ensures
        deduped(s).len() <= s.len(),
    decreases s.len(),
{
    if s.len() > 0 {
        lemma_deduped_len(s.drop_last());
    }
}

} // verus!
