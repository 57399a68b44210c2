//! Reading order by recursive cuts along whitespace.
use crate::float::F32;
use crate::sorting::{sort, Key, Keyed, KeyedValue};
use crate::types::{LayoutBlock, Rect};
use vstd::prelude::*;

verus! {

/// What has a place on the page.
pub trait Placed: Keyed {
    /// The place.
    spec fn place(self) -> Rect;
}

/// What can tell its place on the page.
pub trait PlacedValue: Placed + KeyedValue {
    /// The place.
    fn place_of(&self) -> (r: Rect)
        ensures
            r == self.place(),
    ;
}

/// Where no cut is found, blocks are ordered from the top, then from the left, then by id.
impl Keyed for LayoutBlock {
    open spec fn key(self) -> Key {
        Key { first: self.y.rank() as i64, second: self.x.rank() as i64, third: self.id as u64 }
    }
}

impl KeyedValue for LayoutBlock {
    fn key_of(&self) -> (k: Key) {
        Key { first: self.y.total_rank(), second: self.x.total_rank(), third: self.id as u64 }
    }
}

impl Placed for LayoutBlock {
    open spec fn place(self) -> Rect {
        self.area_rect()
    }
}

impl PlacedValue for LayoutBlock {
    fn place_of(&self) -> (r: Rect) {
        self.rect()
    }
}

/// Axis used for an XY-cut split over layout boxes.
#[derive(Clone, Copy, Debug, PartialEq, Eq, Structural)]
pub enum CutAxis {
    /// Split left-side boxes from right-side boxes.
    Vertical,
    /// Split upper boxes from lower boxes.
    Horizontal,
}

impl CutAxis {
    /// Where a box starts along the axis.
    pub open spec fn start(self, r: Rect) -> F32 {
        match self {
            CutAxis::Vertical => r.x,
            CutAxis::Horizontal => r.y,
        }
    }

    /// Where a box ends along the axis.
    pub open spec fn end(self, r: Rect) -> F32 {
        match self {
            CutAxis::Vertical => r.right(),
            CutAxis::Horizontal => r.bottom(),
        }
    }

    /// The middle of a box along the axis.
    pub open spec fn middle(self, r: Rect) -> F32 {
        match self {
            CutAxis::Vertical => r.x.plus(r.width.times(F32::ratio(1, 2))),
            CutAxis::Horizontal => r.y.plus(r.height.times(F32::ratio(1, 2))),
        }
    }

    /// The share of the occupied span that a gap must reach.
    pub open spec fn gap_share(self) -> F32 {
        match self {
            CutAxis::Vertical => F32::ratio(3, 100),
            CutAxis::Horizontal => F32::ratio(2, 100),
        }
    }

    /// The extent of a box along the axis.
    fn extent(self, r: Rect) -> (e: Interval)
        ensures
            e == (Interval { start: self.start(r), end: self.end(r) }),
    {
        match self {
            CutAxis::Vertical => Interval { start: r.x, end: r.x.add(r.width) },
            CutAxis::Horizontal => Interval { start: r.y, end: r.y.add(r.height) },
        }
    }

    /// The middle of a box along the axis.
    fn midpoint(self, r: Rect) -> (m: F32)
        ensures
            m == self.middle(r),
    {
        let half: F32 = F32::fraction(1, 2);
        match self {
            CutAxis::Vertical => r.x.add(r.width.mul(half)),
            CutAxis::Horizontal => r.y.add(r.height.mul(half)),
        }
    }

    /// The share of the occupied span that a gap must reach.
    fn share(self) -> (s: F32)
        ensures
            s == self.gap_share(),
    {
        match self {
            CutAxis::Vertical => F32::fraction(3, 100),
            CutAxis::Horizontal => F32::fraction(2, 100),
        }
    }
}

/// Candidate whitespace split between two non-overlapping box regions.
#[derive(Clone, Copy, Debug)]
pub struct Cut {
    /// Direction of the whitespace band.
    pub axis: CutAxis,
    /// Page-space coordinate where boxes are partitioned.
    pub position: F32,
    /// Width or height of the whitespace band.
    pub gap: F32,
    /// Number of boxes before the split.
    pub before_count: usize,
    /// Number of boxes after the split.
    pub after_count: usize,
}

/// The extent of a box along an axis.
#[derive(Clone, Copy, Debug)]
pub struct Interval {
    pub start: F32,
    pub end: F32,
}

/// Intervals are ordered by their start, then by their end.
impl Keyed for Interval {
    open spec fn key(self) -> Key {
        Key { first: self.start.rank() as i64, second: self.end.rank() as i64, third: 0 }
    }
}

impl KeyedValue for Interval {
    fn key_of(&self) -> (k: Key) {
        Key { first: self.start.total_rank(), second: self.end.total_rank(), third: 0 }
    }
}

/// The extents of the boxes that are not empty along an axis.
pub open spec fn intervals(axis: CutAxis, boxes: Seq<Rect>) -> Seq<Interval>
    decreases boxes.len(),
{
    if boxes.len() == 0 {
        Seq::empty()
    } else {
        let before = intervals(axis, boxes.drop_last());
        let b = boxes.last();
        if axis.start(b).less(axis.end(b)) {
            before.push(Interval { start: axis.start(b), end: axis.end(b) })
        } else {
            before
        }
    }
}

/// The intervals with each one that starts within the one before it joined to that one.
pub open spec fn merged(s: Seq<Interval>) -> Seq<Interval>
    decreases s.len(),
{
    if s.len() == 0 {
        Seq::empty()
    } else {
        let before = merged(s.drop_last());
        let i = s.last();
        if before.len() > 0 && i.start.at_most(before.last().end) {
            before.drop_last().push(
                Interval { start: before.last().start, end: before.last().end.greater(i.end) },
            )
        } else {
            before.push(i)
        }
    }
}

/// The stretches along an axis that boxes occupy, in order.
pub open spec fn occupied(axis: CutAxis, boxes: Seq<Rect>) -> Seq<Interval> {
    merged(crate::sorting::sorted(intervals(axis, boxes)))
}

/// The least start of the boxes along an axis.
pub open spec fn least_start(axis: CutAxis, boxes: Seq<Rect>) -> F32
    decreases boxes.len(),
{
    if boxes.len() == 0 {
        F32 { bits: 0x7f80_0000 }
    } else {
        least_start(axis, boxes.drop_last()).lesser(axis.start(boxes.last()))
    }
}

/// The greatest end of the boxes along an axis.
pub open spec fn greatest_end(axis: CutAxis, boxes: Seq<Rect>) -> F32
    decreases boxes.len(),
{
    if boxes.len() == 0 {
        F32 { bits: 0xff80_0000 }
    } else {
        greatest_end(axis, boxes.drop_last()).greater(axis.end(boxes.last()))
    }
}

/// The least gap to cut at: a share of what the boxes span, and at least eight points.
pub open spec fn least_gap(axis: CutAxis, boxes: Seq<Rect>) -> F32 {
    let span = greatest_end(axis, boxes).minus(least_start(axis, boxes)).greater(F32 { bits: 0 });
    span.times(axis.gap_share()).greater(F32::from_nat(8))
}

/// How many boxes have their middle before a position.
pub open spec fn count_before(axis: CutAxis, boxes: Seq<Rect>, position: F32) -> nat
    decreases boxes.len(),
{
    if boxes.len() == 0 {
        0
    } else {
        count_before(axis, boxes.drop_last(), position) + if axis.middle(boxes.last()).less(
            position,
        ) {
            1nat
        } else {
            0nat
        }
    }
}

/// The cut in the middle of the gap before the `k`th stretch.
pub open spec fn cut_at(axis: CutAxis, boxes: Seq<Rect>, stretches: Seq<Interval>, k: int) -> Cut {
    let from = stretches[k - 1].end;
    let to = stretches[k].start;
    let position = from.plus(to).times(F32::ratio(1, 2));
    let before = count_before(axis, boxes, position);
    Cut {
        axis,
        position,
        gap: to.minus(from),
        before_count: before as usize,
        after_count: (boxes.len() - before) as usize,
    }
}

/// The cut at the widest gap between the first `n` stretches, the first of several, of those
/// that are wide enough and part the boxes.
pub open spec fn best_cut(
    axis: CutAxis,
    boxes: Seq<Rect>,
    stretches: Seq<Interval>,
    n: nat,
) -> Option<Cut>
    decreases n,
{
    if n < 2 {
        None
    } else {
        let before = best_cut(axis, boxes, stretches, (n - 1) as nat);
        let cut = cut_at(axis, boxes, stretches, n - 1);
        if cut.gap.less(least_gap(axis, boxes)) || cut.before_count == 0 || cut.after_count == 0 {
            before
        } else {
            match before {
                Some(b) if !b.gap.less(cut.gap) => before,
                _ => Some(cut),
            }
        }
    }
}

/// The best cut along an axis.
pub open spec fn axis_cut(axis: CutAxis, boxes: Seq<Rect>) -> Option<Cut> {
    let stretches = occupied(axis, boxes);
    best_cut(axis, boxes, stretches, stretches.len())
}

/// Whether a cut looks like a true multi-column divider.
pub open spec fn divides_columns(cut: Cut) -> bool {
    cut.axis == CutAxis::Vertical && cut.before_count >= 2 && cut.after_count >= 2
}

/// The split that best models page reading order: a vertical one if it divides columns, or if
/// its gap is materially wider than that of the horizontal one, or if there is no other.
pub open spec fn chosen_cut(boxes: Seq<Rect>) -> Option<Cut> {
    match (axis_cut(CutAxis::Vertical, boxes), axis_cut(CutAxis::Horizontal, boxes)) {
        (Some(v), Some(h)) => if divides_columns(v) || h.gap.times(F32::ratio(5, 4)).less(v.gap) {
            Some(v)
        } else {
            Some(h)
        },
        (Some(v), None) => Some(v),
        (None, h) => h,
    }
}

/// The places of what is placed.
pub open spec fn places<T: Placed>(s: Seq<T>) -> Seq<Rect> {
    Seq::new(s.len(), |i: int| s[i].place())
}

/// Whether the middle of what is placed lies before a cut.
pub open spec fn is_before<T: Placed>(t: T, cut: Cut) -> bool {
    cut.axis.middle(t.place()).less(cut.position)
}

/// What lies before a cut.
pub open spec fn part_before<T: Placed>(s: Seq<T>, cut: Cut) -> Seq<T> {
    s.filter(|t: T| is_before(t, cut))
}

/// What does not lie before a cut.
pub open spec fn part_after<T: Placed>(s: Seq<T>, cut: Cut) -> Seq<T> {
    s.filter(|t: T| !is_before(t, cut))
}

/// A cut parts a sequence in two.
pub proof fn cutting_parts<T: Placed>(s: Seq<T>, cut: Cut)
    ensures
        part_before(s, cut).len() + part_after(s, cut).len() == s.len(),
        part_before(s, cut).to_multiset().add(part_after(s, cut).to_multiset()) == s.to_multiset(),
    decreases s.len(),
{
    broadcast use vstd::seq_lib::group_to_multiset_ensures;

    reveal(Seq::filter);
    if s.len() > 0 {
        cutting_parts(s.drop_last(), cut);
        assert(s =~= s.drop_last().push(s.last()));
        assert(part_before(s, cut).to_multiset().add(part_after(s, cut).to_multiset())
            =~= part_before(s.drop_last(), cut).to_multiset().add(
            part_after(s.drop_last(), cut).to_multiset(),
        ).insert(s.last()));
    } else {
        assert(part_before(s, cut) =~= s);
        assert(part_after(s, cut) =~= s);
        assert(s.to_multiset().add(s.to_multiset()) =~= s.to_multiset());
    }
}

/// The reading order: what lies before the chosen cut, then what lies after it, each in reading
/// order; from the top left where there is no cut.
pub open spec fn reading_order<T: Placed>(s: Seq<T>) -> Seq<T>
    decreases s.len(),
{
    if s.len() <= 1 {
        s
    } else {
        match chosen_cut(places(s)) {
            Some(cut) => {
                let before = part_before(s, cut);
                let after = part_after(s, cut);
                proof {
                    cutting_parts(s, cut);
                }
                if before.len() == 0 || after.len() == 0 {
                    crate::sorting::sorted(before + after)
                } else {
                    reading_order(before) + reading_order(after)
                }
            },
            None => crate::sorting::sorted(s),
        }
    }
}

/// The reading order has the same elements, with their multiplicities.
pub proof fn reading_order_permutes<T: Placed>(s: Seq<T>)
    ensures
        reading_order(s).len() == s.len(),
        reading_order(s).to_multiset() == s.to_multiset(),
    decreases s.len(),
{
    broadcast use vstd::seq_lib::group_to_multiset_ensures;

    if s.len() > 1 {
        match chosen_cut(places(s)) {
            Some(cut) => {
                let before = part_before(s, cut);
                let after = part_after(s, cut);
                cutting_parts(s, cut);
                if before.len() == 0 || after.len() == 0 {
                    crate::sorting::sorting_permutes_into_order(before + after);
                    vstd::seq_lib::lemma_multiset_commutative(before, after);
                } else {
                    reading_order_permutes(before);
                    reading_order_permutes(after);
                    vstd::seq_lib::lemma_multiset_commutative(
                        reading_order(before),
                        reading_order(after),
                    );
                }
            },
            None => {
                crate::sorting::sorting_permutes_into_order(s);
            },
        }
    }
}

/// Where a cut is chosen that parts the elements, all that lies before it is read before all
/// that does not.
pub proof fn reading_order_respects_the_cut<T: Placed>(s: Seq<T>, cut: Cut, i: int)
    requires
        s.len() > 1,
        chosen_cut(places(s)) == Some(cut),
        part_before(s, cut).len() > 0,
        part_after(s, cut).len() > 0,
        0 <= i < s.len(),
    ensures
        is_before(reading_order(s)[i], cut) <==> i < part_before(s, cut).len(),
{
    broadcast use {vstd::seq_lib::group_to_multiset_ensures, vstd::seq_lib::group_filter_ensures};

    let before = part_before(s, cut);
    let after = part_after(s, cut);
    cutting_parts(s, cut);
    reading_order_permutes(before);
    reading_order_permutes(after);
    let first = reading_order(before);
    let second = reading_order(after);
    let t = reading_order(s)[i];
    if i < first.len() {
        assert(first.contains(first[i]));
        assert(before.to_multiset().count(t) > 0);
        assert(before.contains(t));
        let k = choose|k: int| 0 <= k < before.len() && before[k] == t;
        let p = |t: T| is_before(t, cut);
        assert(p(s.filter(p)[k]));
    } else {
        assert(second.contains(second[i - first.len()]));
        assert(after.to_multiset().count(t) > 0);
        assert(after.contains(t));
        let k = choose|k: int| 0 <= k < after.len() && after[k] == t;
        let p = |t: T| !is_before(t, cut);
        assert(p(s.filter(p)[k]));
    }
}

proof fn lemma_count_before<T: Placed>(s: Seq<T>, cut: Cut)
    ensures
        count_before(cut.axis, places(s), cut.position) == part_before(s, cut).len(),
    decreases s.len(),
{
    reveal(Seq::filter);
    if s.len() > 0 {
        lemma_count_before(s.drop_last(), cut);
        assert(places(s).drop_last() =~= places(s.drop_last()));
    }
}

proof fn lemma_best_cut(axis: CutAxis, boxes: Seq<Rect>, stretches: Seq<Interval>, n: nat)
    requires
        boxes.len() <= usize::MAX,
    ensures
        best_cut(axis, boxes, stretches, n) matches Some(cut) ==> 0 < count_before(
            cut.axis,
            boxes,
            cut.position,
        ) < boxes.len(),
    decreases n,
{
    if n >= 2 {
        lemma_best_cut(axis, boxes, stretches, (n - 1) as nat);
        let cut = cut_at(axis, boxes, stretches, n - 1);
        lemma_count_bound(axis, boxes, cut.position);
    }
}

proof fn lemma_count_bound(axis: CutAxis, boxes: Seq<Rect>, position: F32)
    ensures
        count_before(axis, boxes, position) <= boxes.len(),
    decreases boxes.len(),
{
    if boxes.len() > 0 {
        lemma_count_bound(axis, boxes.drop_last(), position);
    }
}

/// A chosen cut leaves something on each side.
pub proof fn chosen_cuts_part<T: Placed>(s: Seq<T>)
    requires
        s.len() <= usize::MAX,
    ensures
        chosen_cut(places(s)) matches Some(cut) ==> part_before(s, cut).len() > 0 && part_after(
            s,
            cut,
        ).len() > 0,
{
    let boxes = places(s);
    let v = occupied(CutAxis::Vertical, boxes);
    let h = occupied(CutAxis::Horizontal, boxes);
    lemma_best_cut(CutAxis::Vertical, boxes, v, v.len());
    lemma_best_cut(CutAxis::Horizontal, boxes, h, h.len());
    if let Some(cut) = chosen_cut(boxes) {
        lemma_count_before(s, cut);
        cutting_parts(s, cut);
    }
}

proof fn lemma_intervals(axis: CutAxis, boxes: Seq<Rect>)
    ensures
        intervals(axis, boxes) == boxes.filter(
            |b: Rect| axis.start(b).less(axis.end(b)),
        ).map_values(|b: Rect| Interval { start: axis.start(b), end: axis.end(b) }),
    decreases boxes.len(),
{
    reveal(Seq::filter);
    let p = |b: Rect| axis.start(b).less(axis.end(b));
    let f = |b: Rect| Interval { start: axis.start(b), end: axis.end(b) };
    if boxes.len() > 0 {
        lemma_intervals(axis, boxes.drop_last());
        let before = boxes.drop_last().filter(p);
        assert(before.push(boxes.last()).map_values(f) =~= before.map_values(f).push(
            f(boxes.last()),
        ));
    } else {
        assert(boxes.filter(p).map_values(f) =~= Seq::<Interval>::empty());
    }
}

proof fn lemma_occupied_permutes(axis: CutAxis, s: Seq<Rect>, t: Seq<Rect>)
    requires
        s.to_multiset() == t.to_multiset(),
    ensures
        occupied(axis, s) == occupied(axis, t),
{
    let p = |b: Rect| axis.start(b).less(axis.end(b));
    let f = |b: Rect| Interval { start: axis.start(b), end: axis.end(b) };
    lemma_intervals(axis, s);
    lemma_intervals(axis, t);
    crate::permutations::lemma_filter_permutes(s, p);
    crate::permutations::lemma_filter_permutes(t, p);
    crate::permutations::lemma_map_permutes(s.filter(p), t.filter(p), f);
    assert forall|a: Interval, b: Interval| #[trigger] a.key() == #[trigger] b.key() implies a
        == b by {
        assert(a.start.rank() == b.start.rank() && a.end.rank() == b.end.rank());
    }
    crate::sorting::sorting_ignores_the_order(intervals(axis, s), intervals(axis, t));
}

/// The least start is a number that no start lies before, and is one of them unless it is
/// infinite.
proof fn lemma_least_start(axis: CutAxis, boxes: Seq<Rect>)
    ensures
        !least_start(axis, boxes).nan(),
        forall|b: Rect| #[trigger]
            boxes.contains(b) ==> !axis.start(b).less(least_start(axis, boxes)),
        least_start(axis, boxes) == (F32 { bits: 0x7f80_0000 }) || exists|b: Rect| #[trigger]
            boxes.contains(b) && axis.start(b) == least_start(axis, boxes),
    decreases boxes.len(),
{
    if boxes.len() > 0 {
        let (d, x) = (boxes.drop_last(), boxes.last());
        lemma_least_start(axis, d);
        assert(boxes.contains(x));
        assert forall|b: Rect| #[trigger] boxes.contains(b) implies !axis.start(b).less(
            least_start(axis, boxes),
        ) by {
            let k = choose|k: int| 0 <= k < boxes.len() && boxes[k] == b;
            if k < d.len() {
                assert(d[k] == b);
                assert(d.contains(b));
            }
        }
        if least_start(axis, boxes) == least_start(axis, d) && least_start(axis, d) != (F32 {
            bits: 0x7f80_0000,
        }) {
            let b = choose|b: Rect| #[trigger]
                d.contains(b) && axis.start(b) == least_start(axis, d);
            assert(boxes.contains(b));
        }
    }
}

/// The greatest end is a number that no end lies after, and is one of them unless it is
/// infinite.
proof fn lemma_greatest_end(axis: CutAxis, boxes: Seq<Rect>)
    ensures
        !greatest_end(axis, boxes).nan(),
        forall|b: Rect| #[trigger]
            boxes.contains(b) ==> !greatest_end(axis, boxes).less(axis.end(b)),
        greatest_end(axis, boxes) == (F32 { bits: 0xff80_0000 }) || exists|b: Rect| #[trigger]
            boxes.contains(b) && axis.end(b) == greatest_end(axis, boxes),
    decreases boxes.len(),
{
    if boxes.len() > 0 {
        let (d, x) = (boxes.drop_last(), boxes.last());
        lemma_greatest_end(axis, d);
        assert(boxes.contains(x));
        assert forall|b: Rect| #[trigger] boxes.contains(b) implies !greatest_end(axis, boxes).less(
            axis.end(b),
        ) by {
            let k = choose|k: int| 0 <= k < boxes.len() && boxes[k] == b;
            if k < d.len() {
                assert(d[k] == b);
                assert(d.contains(b));
            }
        }
        if greatest_end(axis, boxes) == greatest_end(axis, d) && greatest_end(axis, d) != (F32 {
            bits: 0xff80_0000,
        }) {
            let b = choose|b: Rect| #[trigger]
                d.contains(b) && axis.end(b) == greatest_end(axis, d);
            assert(boxes.contains(b));
        }
    }
}

proof fn lemma_least_gap_permutes(axis: CutAxis, s: Seq<Rect>, t: Seq<Rect>)
    requires
        s.to_multiset() == t.to_multiset(),
    ensures
        least_gap(axis, s) == least_gap(axis, t),
{
    crate::permutations::lemma_same_elements(s, t);
    lemma_least_start(axis, s);
    lemma_least_start(axis, t);
    lemma_greatest_end(axis, s);
    lemma_greatest_end(axis, t);
    let eight = F32::from_nat(8);
    let zero = F32 { bits: 0 };
    assert(zero.less(eight)) by {
        crate::float::bounds::small_naturals_are_exact(8);
        crate::float::bounds::small_naturals_are_exact(0);
        let unit = vstd::arithmetic::power2::pow2(149);
        vstd::arithmetic::power2::lemma_pow2_pos(149);
        assert(8 * unit > 0 * unit) by (nonlinear_arith)
            requires unit > 0;
        crate::float::order::magnitude_orders_units(F32::from_nat(0), eight);
    }
    crate::float::bounds::spans_ignore_the_sign_of_zero(
        least_start(axis, s),
        greatest_end(axis, s),
        least_start(axis, t),
        greatest_end(axis, t),
        axis.gap_share(),
        eight,
    );
}

proof fn lemma_count_is_filter(axis: CutAxis, boxes: Seq<Rect>, position: F32)
    ensures
        count_before(axis, boxes, position) == boxes.filter(
            |b: Rect| axis.middle(b).less(position),
        ).len(),
    decreases boxes.len(),
{
    reveal(Seq::filter);
    if boxes.len() > 0 {
        lemma_count_is_filter(axis, boxes.drop_last(), position);
    }
}

proof fn lemma_count_permutes(axis: CutAxis, s: Seq<Rect>, t: Seq<Rect>, position: F32)
    requires
        s.to_multiset() == t.to_multiset(),
    ensures
        count_before(axis, s, position) == count_before(axis, t, position),
{
    let p = |b: Rect| axis.middle(b).less(position);
    lemma_count_is_filter(axis, s, position);
    lemma_count_is_filter(axis, t, position);
    crate::permutations::lemma_filter_permutes(s, p);
    crate::permutations::lemma_filter_permutes(t, p);
    crate::permutations::lemma_same_elements(s.filter(p), t.filter(p));
}

proof fn lemma_best_cut_permutes(
    axis: CutAxis,
    s: Seq<Rect>,
    t: Seq<Rect>,
    stretches: Seq<Interval>,
    n: nat,
)
    requires
        s.to_multiset() == t.to_multiset(),
    ensures
        best_cut(axis, s, stretches, n) == best_cut(axis, t, stretches, n),
    decreases n,
{
    if n >= 2 {
        lemma_best_cut_permutes(axis, s, t, stretches, (n - 1) as nat);
        lemma_least_gap_permutes(axis, s, t);
        crate::permutations::lemma_same_elements(s, t);
        lemma_count_permutes(axis, s, t, cut_at(axis, s, stretches, n - 1).position);
    }
}

/// The chosen cut does not depend on the order of the boxes.
pub proof fn chosen_cuts_ignore_the_order(s: Seq<Rect>, t: Seq<Rect>)
    requires
        s.to_multiset() == t.to_multiset(),
    ensures
        chosen_cut(s) == chosen_cut(t),
{
    let v = occupied(CutAxis::Vertical, s);
    let h = occupied(CutAxis::Horizontal, s);
    lemma_occupied_permutes(CutAxis::Vertical, s, t);
    lemma_occupied_permutes(CutAxis::Horizontal, s, t);
    lemma_best_cut_permutes(CutAxis::Vertical, s, t, v, v.len());
    lemma_best_cut_permutes(CutAxis::Horizontal, s, t, h, h.len());
}

proof fn lemma_cut_permutes<T: Placed>(s: Seq<T>, t: Seq<T>)
    requires
        s.to_multiset() == t.to_multiset(),
    ensures
        chosen_cut(places(s)) == chosen_cut(places(t)),
{
    let f = |x: T| x.place();
    crate::permutations::lemma_map_permutes(s, t, f);
    assert(s.map_values(f) =~= places(s));
    assert(t.map_values(f) =~= places(t));
    chosen_cuts_ignore_the_order(places(s), places(t));
}

proof fn lemma_parts_permute<T: Placed>(s: Seq<T>, t: Seq<T>, cut: Cut)
    requires
        s.to_multiset() == t.to_multiset(),
    ensures
        part_before(s, cut).to_multiset() == part_before(t, cut).to_multiset(),
        part_after(s, cut).to_multiset() == part_after(t, cut).to_multiset(),
        part_before(s, cut).len() == part_before(t, cut).len(),
        part_after(s, cut).len() == part_after(t, cut).len(),
{
    let p = |x: T| is_before(x, cut);
    let q = |x: T| !is_before(x, cut);
    crate::permutations::lemma_filter_permutes(s, p);
    crate::permutations::lemma_filter_permutes(t, p);
    crate::permutations::lemma_filter_permutes(s, q);
    crate::permutations::lemma_filter_permutes(t, q);
    crate::permutations::lemma_same_elements(s.filter(p), t.filter(p));
    crate::permutations::lemma_same_elements(s.filter(q), t.filter(q));
}

proof fn lemma_fewer_keys<T: Placed>(s: Seq<T>, part: Seq<T>)
    requires
        crate::sorting::keys_tell_apart(s),
        forall|x: T| #[trigger] part.contains(x) ==> s.contains(x),
    ensures
        crate::sorting::keys_tell_apart(part),
{
    assert forall|a: T, b: T|
        part.contains(a) && part.contains(b) && #[trigger] a.key() == #[trigger] b.key() implies a
        == b by {
        assert(s.contains(a) && s.contains(b));
    }
}

/// Where the keys tell the elements apart, the reading order does not depend on the order that
/// they came in.
pub proof fn reading_order_ignores_the_order<T: Placed>(s: Seq<T>, t: Seq<T>)
    requires
        s.to_multiset() == t.to_multiset(),
        crate::sorting::keys_tell_apart(s),
    ensures
        reading_order(s) == reading_order(t),
    decreases s.len(),
{
    broadcast use vstd::seq_lib::group_filter_ensures;

    crate::permutations::lemma_same_elements(s, t);
    if s.len() == 0 {
        assert(s =~= t);
    } else if s.len() == 1 {
        assert(s.contains(s[0]));
        assert(t.contains(s[0]));
        assert(s =~= t);
    } else {
        lemma_cut_permutes(s, t);
        match chosen_cut(places(s)) {
            Some(cut) => {
                let (b, a) = (part_before(s, cut), part_after(s, cut));
                let (c, d) = (part_before(t, cut), part_after(t, cut));
                cutting_parts(s, cut);
                cutting_parts(t, cut);
                lemma_parts_permute(s, t, cut);
                assert forall|x: T| #[trigger] b.contains(x) implies s.contains(x) by {
                    s.lemma_filter_contains_rev(|x: T| is_before(x, cut), x);
                }
                assert forall|x: T| #[trigger] a.contains(x) implies s.contains(x) by {
                    s.lemma_filter_contains_rev(|x: T| !is_before(x, cut), x);
                }
                if b.len() == 0 || a.len() == 0 {
                    vstd::seq_lib::lemma_multiset_commutative(b, a);
                    vstd::seq_lib::lemma_multiset_commutative(c, d);
                    crate::permutations::lemma_same_elements(b + a, s);
                    lemma_fewer_keys(s, b + a);
                    crate::sorting::sorting_ignores_the_order(b + a, c + d);
                } else {
                    lemma_fewer_keys(s, b);
                    lemma_fewer_keys(s, a);
                    reading_order_ignores_the_order(b, c);
                    reading_order_ignores_the_order(a, d);
                }
            },
            None => {
                crate::sorting::sorting_ignores_the_order(s, t);
            },
        }
    }
}

/// Whether a sequence has the places of another, and keeps its keys in order where that does.
#[verifier::opaque]
pub open spec fn is_placed_like<T: Placed>(u: Seq<T>, s: Seq<T>) -> bool {
    &&& u.len() == s.len()
    &&& forall|i: int| 0 <= i < s.len() ==> (#[trigger] u[i]).place() == s[i].place()
    &&& forall|i: int, j: int|
        0 <= i <= j < s.len() && s[i].key().at_most(s[j].key()) ==> (#[trigger] u[i]).key().at_most(
            (#[trigger] u[j]).key(),
        )
}

proof fn lemma_order_parts<T: Placed>(s: Seq<T>, cut: Cut, i: int)
    requires
        s.len() > 1,
        chosen_cut(places(s)) == Some(cut),
        0 <= i < s.len(),
    ensures
        is_before(reading_order(s)[i], cut) <==> i < part_before(s, cut).len(),
{
    let (b, a) = (part_before(s, cut), part_after(s, cut));
    cutting_parts(s, cut);
    if b.len() > 0 && a.len() > 0 {
        reading_order_respects_the_cut(s, cut, i);
    } else {
        let r = reading_order(s);
        let x = r[i];
        reading_order_permutes(s);
        assert(r.contains(x));
        crate::permutations::lemma_same_elements(r, s);
        let k = choose|k: int| 0 <= k < s.len() && s[k] == x;
        if is_before(x, cut) {
            s.lemma_filter_contains(|t: T| is_before(t, cut), k);
        } else {
            s.lemma_filter_contains(|t: T| !is_before(t, cut), k);
        }
    }
}

/// Whether two sequences, one after the other, are a third.
#[verifier::opaque]
spec fn is_joined<T>(v: Seq<T>, w: Seq<T>, u: Seq<T>) -> bool {
    v + w == u
}

proof fn lemma_joined<T>(u: Seq<T>, n: int)
    requires
        0 <= n <= u.len(),
    ensures
        is_joined(u.take(n), u.skip(n), u),
{
    reveal(is_joined);
    assert(u.take(n) + u.skip(n) =~= u);
}

proof fn lemma_placed_parts<T: Placed>(u: Seq<T>, v: Seq<T>, w: Seq<T>, x: Seq<T>, y: Seq<T>)
    requires
        is_placed_like(u, x + y),
        is_joined(v, w, u),
        v.len() == x.len(),
    ensures
        is_placed_like(v, x),
        is_placed_like(w, y),
{
    reveal(is_placed_like);
    reveal(is_joined);
    let n = v.len() as int;
    let r = x + y;
    assert forall|i: int| 0 <= i < x.len() implies (#[trigger] v[i]).place() == x[i].place() by {
        assert(u[i].place() == r[i].place());
    }
    assert forall|i: int, j: int|
        0 <= i <= j < x.len() && x[i].key().at_most(x[j].key()) implies (
    #[trigger] v[i]).key().at_most((#[trigger] v[j]).key()) by {
        assert(r[i].key().at_most(r[j].key()));
        assert(u[i].key().at_most(u[j].key()));
    }
    assert forall|i: int| 0 <= i < y.len() implies (#[trigger] w[i]).place() == y[i].place() by {
        assert(u[n + i].place() == r[n + i].place());
    }
    assert forall|i: int, j: int|
        0 <= i <= j < y.len() && y[i].key().at_most(y[j].key()) implies (
    #[trigger] w[i]).key().at_most((#[trigger] w[j]).key()) by {
        assert(r[n + i].key().at_most(r[n + j].key()));
        assert(u[n + i].key().at_most(u[n + j].key()));
    }
}

proof fn lemma_placed_in_key_order<T: Placed>(u: Seq<T>, s: Seq<T>)
    requires
        is_placed_like(u, crate::sorting::sorted(s)),
    ensures
        crate::sorting::sorted(u) == u,
{
    reveal(is_placed_like);
    let r = crate::sorting::sorted(s);
    crate::sorting::sorting_permutes_into_order(s);
    assert forall|i: int, j: int| 0 <= i <= j < u.len() implies (#[trigger] u[i]).key().at_most(
        (#[trigger] u[j]).key(),
    ) by {
        assert(r[i].key().at_most(r[j].key()));
    }
    crate::sorting::sorting_keeps_what_is_in_order(u);
}

proof fn lemma_placed_choice<T: Placed>(u: Seq<T>, s: Seq<T>)
    requires
        is_placed_like(u, reading_order(s)),
    ensures
        u.len() == s.len(),
        chosen_cut(places(u)) == chosen_cut(places(s)),
{
    reveal(is_placed_like);
    reading_order_permutes(s);
    lemma_cut_permutes(reading_order(s), s);
    assert(places(u) =~= places(reading_order(s)));
}

proof fn lemma_placed_cut<T: Placed>(u: Seq<T>, s: Seq<T>, cut: Cut)
    requires
        s.len() > 1,
        is_placed_like(u, reading_order(s)),
        chosen_cut(places(s)) == Some(cut),
    ensures
        part_before(u, cut).len() == part_before(s, cut).len(),
        part_after(u, cut).len() == part_after(s, cut).len(),
        is_joined(part_before(u, cut), part_after(u, cut), u),
{
    reveal(is_placed_like);
    let n = part_before(s, cut).len() as int;
    cutting_parts(s, cut);
    cutting_parts(u, cut);
    reading_order_permutes(s);
    let p = |t: T| is_before(t, cut);
    let q = |t: T| !is_before(t, cut);
    assert forall|i: int| 0 <= i < u.len() implies p(#[trigger] u[i]) == (i < n) && q(u[i]) == (i
        >= n) by {
        lemma_order_parts(s, cut, i);
    }
    crate::permutations::lemma_filter_parts(u, p, q, n);
    lemma_joined(u, n);
}

proof fn lemma_order_of_parts<T: Placed>(s: Seq<T>, cut: Cut, before: Seq<T>, after: Seq<T>)
    requires
        s.len() > 1,
        chosen_cut(places(s)) == Some(cut),
        part_before(s, cut) == before,
        part_after(s, cut) == after,
    ensures
        reading_order(s) == if before.len() == 0 || after.len() == 0 {
            crate::sorting::sorted(before + after)
        } else {
            reading_order(before) + reading_order(after)
        },
{
}

proof fn lemma_rejoined<T: Placed>(u: Seq<T>, cut: Cut, before: Seq<T>, after: Seq<T>)
    requires
        u.len() > 1,
        chosen_cut(places(u)) == Some(cut),
        part_before(u, cut) == before,
        part_after(u, cut) == after,
        is_joined(before, after, u),
        before.len() == 0 || after.len() == 0 ==> crate::sorting::sorted(u) == u,
        before.len() > 0 && after.len() > 0 ==> reading_order(before) == before && reading_order(
            after,
        ) == after,
    ensures
        reading_order(u) == u,
{
    reveal(is_joined);
    lemma_order_of_parts(u, cut, before, after);
}

/// What has the places of a sequence in reading order, and its keys in order where that does, is
/// in reading order already.
pub proof fn what_is_placed_in_order_stays<T: Placed>(u: Seq<T>, s: Seq<T>)
    requires
        is_placed_like(u, reading_order(s)),
    ensures
        reading_order(u) == u,
    decreases s.len(),
{
    lemma_placed_choice(u, s);
    if s.len() > 1 {
        match chosen_cut(places(s)) {
            Some(cut) => {
                let (b, a) = (part_before(s, cut), part_after(s, cut));
                let (v, w) = (part_before(u, cut), part_after(u, cut));
                cutting_parts(s, cut);
                lemma_placed_cut(u, s, cut);
                lemma_order_of_parts(s, cut, b, a);
                if b.len() == 0 || a.len() == 0 {
                    lemma_placed_in_key_order(u, b + a);
                } else {
                    reading_order_permutes(b);
                    lemma_placed_parts(u, v, w, reading_order(b), reading_order(a));
                    what_is_placed_in_order_stays(v, b);
                    what_is_placed_in_order_stays(w, a);
                }
                lemma_rejoined(u, cut, v, w);
            },
            None => {
                lemma_placed_in_key_order(u, s);
            },
        }
    }
}

/// What is in reading order stays as it is.
pub proof fn reading_order_is_settled<T: Placed>(s: Seq<T>)
    ensures
        reading_order(reading_order(s)) == reading_order(s),
{
    reveal(is_placed_like);
    what_is_placed_in_order_stays(reading_order(s), s);
}

/// The blocks in reading order, numbered in that order.
pub open spec fn ordered_blocks(blocks: Seq<LayoutBlock>) -> Seq<LayoutBlock> {
    crate::layout_merge::renumbered(reading_order(blocks))
}

/// The ordered blocks are a permutation of the blocks with the ids 0, 1, and so on.
pub proof fn ordering_permutes_and_numbers(blocks: Seq<LayoutBlock>)
    requires
        blocks.len() <= usize::MAX,
    ensures
        reading_order(blocks).to_multiset() == blocks.to_multiset(),
        ordered_blocks(blocks).len() == blocks.len(),
        forall|i: int|
            0 <= i < blocks.len() ==> {
                let block = #[trigger] ordered_blocks(blocks)[i];
                &&& block.id == i
                &&& block == LayoutBlock { id: block.id, ..reading_order(blocks)[i] }
            },
{
    reading_order_permutes(blocks);
}

/// Ordering blocks that are ordered already changes nothing.
pub proof fn ordering_again_changes_nothing(blocks: Seq<LayoutBlock>)
    requires
        blocks.len() <= usize::MAX,
    ensures
        ordered_blocks(ordered_blocks(blocks)) == ordered_blocks(blocks),
{
    reveal(is_placed_like);
    let r = ordered_blocks(blocks);
    reading_order_permutes(blocks);
    what_is_placed_in_order_stays(r, blocks);
    assert(crate::layout_merge::renumbered(r) =~= r);
}

/// The order that blocks with different ids come in does not matter.
pub proof fn ordering_ignores_the_order(s: Seq<LayoutBlock>, t: Seq<LayoutBlock>)
    requires
        s.to_multiset() == t.to_multiset(),
        crate::layout_merge::distinct_ids(s),
    ensures
        ordered_blocks(s) == ordered_blocks(t),
{
    assert(crate::sorting::keys_tell_apart(s)) by {
        assert forall|a: LayoutBlock, b: LayoutBlock|
            s.contains(a) && s.contains(b) && #[trigger] a.key() == #[trigger] b.key() implies a
            == b by {
            let i = choose|i: int| 0 <= i < s.len() && s[i] == a;
            let j = choose|j: int| 0 <= j < s.len() && s[j] == b;
            assert(s[i].id == s[j].id);
        }
    }
    reading_order_ignores_the_order(s, t);
}

/// The extents of the boxes that are not empty along an axis.
fn collect_intervals(axis: CutAxis, boxes: &Vec<Rect>) -> (r: Vec<Interval>)
    ensures
        r@ == intervals(axis, boxes@),
{
    let mut r: Vec<Interval> = Vec::new();
    let mut i: usize = 0;
    while i < boxes.len()
        invariant
            i <= boxes@.len(),
            r@ == intervals(axis, boxes@.take(i as int)),
        decreases boxes@.len() - i,
    {
        assert(boxes@.take(i + 1).drop_last() =~= boxes@.take(i as int));
        let e: Interval = axis.extent(boxes[i]);
        if e.end.gt(e.start) {
            r.push(e);
        }
        i = i + 1;
    }
    assert(boxes@.take(i as int) =~= boxes@);
    r
}

/// The intervals with each one that starts within the one before it joined to that one.
fn merge_intervals(s: &Vec<Interval>) -> (r: Vec<Interval>)
    ensures
        r@ == merged(s@),
{
    let mut r: Vec<Interval> = Vec::new();
    let mut i: usize = 0;
    while i < s.len()
        invariant
            i <= s@.len(),
            r@ == merged(s@.take(i as int)),
        decreases s@.len() - i,
    {
        assert(s@.take(i + 1).drop_last() =~= s@.take(i as int));
        let next: Interval = s[i];
        let n: usize = r.len();
        if n > 0 && next.start.le(r[n - 1].end) {
            let last: Interval = r[n - 1];
            let ghost before = r@;
            r.set(n - 1, Interval { start: last.start, end: last.end.max(next.end) });
            assert(r@ =~= before.drop_last().push(r@[n - 1]));
        } else {
            r.push(next);
        }
        i = i + 1;
    }
    assert(s@.take(i as int) =~= s@);
    r
}

/// Return the occupied span of all boxes along one axis.
fn region_span(axis: CutAxis, boxes: &Vec<Rect>) -> (r: F32)
    ensures
        r == greatest_end(axis, boxes@).minus(least_start(axis, boxes@)).greater(F32 { bits: 0 }),
{
    let mut min: F32 = F32::from_bits(0x7f80_0000);
    let mut max: F32 = F32::from_bits(0xff80_0000);
    let mut i: usize = 0;
    while i < boxes.len()
        invariant
            i <= boxes@.len(),
            min == least_start(axis, boxes@.take(i as int)),
            max == greatest_end(axis, boxes@.take(i as int)),
        decreases boxes@.len() - i,
    {
        assert(boxes@.take(i + 1).drop_last() =~= boxes@.take(i as int));
        let e: Interval = axis.extent(boxes[i]);
        min = min.min(e.start);
        max = max.max(e.end);
        i = i + 1;
    }
    assert(boxes@.take(i as int) =~= boxes@);
    max.sub(min).max(F32::from_bits(0))
}

/// Count boxes on each side of a candidate split.
fn split_counts(axis: CutAxis, boxes: &Vec<Rect>, position: F32) -> (r: (usize, usize))
    ensures
        r.0 == count_before(axis, boxes@, position),
        r.1 == boxes@.len() - r.0,
{
    let mut before: usize = 0;
    let mut after: usize = 0;
    let mut i: usize = 0;
    while i < boxes.len()
        invariant
            i <= boxes@.len(),
            before == count_before(axis, boxes@.take(i as int), position),
            before + after == i,
        decreases boxes@.len() - i,
    {
        assert(boxes@.take(i + 1).drop_last() =~= boxes@.take(i as int));
        if axis.midpoint(boxes[i]).lt(position) {
            before = before + 1;
        } else {
            after = after + 1;
        }
        i = i + 1;
    }
    assert(boxes@.take(i as int) =~= boxes@);
    (before, after)
}

/// Find the largest usable whitespace gap along one axis.
fn find_cut(axis: CutAxis, boxes: &Vec<Rect>) -> (r: Option<Cut>)
    ensures
        r == axis_cut(axis, boxes@),
{
    let ordered: Vec<Interval> = sort(collect_intervals(axis, boxes));
    let stretches: Vec<Interval> = merge_intervals(&ordered);
    let min_gap: F32 = region_span(axis, boxes).mul(axis.share()).max(F32::from_u32(8));
    let half: F32 = F32::fraction(1, 2);
    let mut best: Option<Cut> = None;
    let mut n: usize = 1;
    while n < stretches.len()
        invariant
            1 <= n,
            n <= stretches@.len() || n == 1,
            min_gap == least_gap(axis, boxes@),
            half == F32::ratio(1, 2),
            best == best_cut(axis, boxes@, stretches@, n as nat),
        decreases stretches@.len() - n,
    {
        let gap_start: F32 = stretches[n - 1].end;
        let gap_end: F32 = stretches[n].start;
        let gap: F32 = gap_end.sub(gap_start);
        let position: F32 = gap_start.add(gap_end).mul(half);
        let (before_count, after_count) = split_counts(axis, boxes, position);
        let cut: Cut = Cut { axis, position, gap, before_count, after_count };
        assert(cut == cut_at(axis, boxes@, stretches@, n as int));
        if !gap.lt(min_gap) && before_count > 0 && after_count > 0 {
            let wider: bool = match best {
                Some(current) => gap.gt(current.gap),
                None => true,
            };
            if wider {
                best = Some(cut);
            }
        }
        n = n + 1;
    }
    assert(stretches@.len() == 0 ==> best_cut(axis, boxes@, stretches@, 0) == best_cut(
        axis,
        boxes@,
        stretches@,
        1,
    ));
    best
}

/// Return whether a cut looks like a true multi-column divider.
fn is_column_cut(cut: Cut) -> (r: bool)
    ensures
        r == divides_columns(cut),
{
    cut.axis == CutAxis::Vertical && cut.before_count >= 2 && cut.after_count >= 2
}

/// Choose the split that best models page reading order for the current region.
fn choose_cut(boxes: &Vec<Rect>) -> (r: Option<Cut>)
    ensures
        r == chosen_cut(boxes@),
{
    let vertical: Option<Cut> = find_cut(CutAxis::Vertical, boxes);
    let horizontal: Option<Cut> = find_cut(CutAxis::Horizontal, boxes);
    match (vertical, horizontal) {
        (Some(v), Some(h)) => {
            // Multi-column pages should read one column top-to-bottom before the
            // next column. When a vertical whitespace band splits multiple blocks
            // on both sides, prefer it over horizontal row cuts.
            if is_column_cut(v) || v.gap.gt(h.gap.mul(F32::fraction(5, 4))) {
                Some(v)
            } else {
                Some(h)
            }
        },
        (Some(v), None) => Some(v),
        (None, h) => h,
    }
}

/// The places of what is placed.
fn collect_places<T: PlacedValue>(s: &Vec<T>) -> (r: Vec<Rect>)
    ensures
        r@ == places(s@),
{
    let mut r: Vec<Rect> = Vec::new();
    let mut i: usize = 0;
    while i < s.len()
        invariant
            i <= s@.len(),
            r@.len() == i,
            forall|k: int| 0 <= k < i ==> #[trigger] r@[k] == s@[k].place(),
        decreases s@.len() - i,
    {
        r.push(s[i].place_of());
        i = i + 1;
    }
    assert(r@ =~= places(s@));
    r
}

/// What lies before a cut, and what does not.
fn split<T: PlacedValue>(s: Vec<T>, cut: Cut) -> (r: (Vec<T>, Vec<T>))
    ensures
        r.0@ == part_before(s@, cut),
        r.1@ == part_after(s@, cut),
{
    let ghost all = s@;
    let mut rest: Vec<T> = s;
    let mut before: Vec<T> = Vec::new();
    let mut after: Vec<T> = Vec::new();
    let ghost mut done: int = 0;
    proof {
        reveal(Seq::filter);
        assert(all.skip(0) =~= all);
        assert(before@ =~= part_before(all.take(0), cut));
        assert(after@ =~= part_after(all.take(0), cut));
    }
    while rest.len() > 0
        invariant
            0 <= done <= all.len(),
            rest@ == all.skip(done),
            before@ == part_before(all.take(done), cut),
            after@ == part_after(all.take(done), cut),
        decreases rest@.len(),
    {
        let t: T = rest.remove(0);
        proof {
            reveal(Seq::filter);
            assert(t == all[done]);
            assert(rest@ =~= all.skip(done + 1));
            assert(all.take(done + 1).drop_last() =~= all.take(done));
        }
        if cut.axis.midpoint(t.place_of()).lt(cut.position) {
            before.push(t);
        } else {
            after.push(t);
        }
        proof {
            done = done + 1;
        }
    }
    assert(all.take(done) =~= all);
    (before, after)
}

/// Recursively partition by the best whitespace cut.
pub fn xy_cut<T: PlacedValue>(s: Vec<T>) -> (r: Vec<T>)
    ensures
        r@ == reading_order(s@),
    decreases s@.len(),
{
    let n: usize = s.len();
    if n <= 1 {
        return s;
    }
    let ghost all = s@;
    let boxes: Vec<Rect> = collect_places(&s);
    proof {
        chosen_cuts_part(all);
    }
    match choose_cut(&boxes) {
        None => sort(s),
        Some(cut) => {
            proof {
                cutting_parts(all, cut);
            }
            let (before, after) = split(s, cut);
            let mut ordered: Vec<T> = xy_cut(before);
            let mut second: Vec<T> = xy_cut(after);
            ordered.append(&mut second);
            ordered
        },
    }
}

/// Sort layout blocks using a recursive XY-cut over their page-space bounding boxes.
///
/// This is intentionally block-level only: text reconstruction inside each block
/// remains handled by the existing projection/grid code.
pub fn order_layout_blocks_xy_cut(blocks: Vec<LayoutBlock>) -> (r: Vec<LayoutBlock>)
    ensures
        r@ == ordered_blocks(blocks@),
{
    let mut ordered: Vec<LayoutBlock> = xy_cut(blocks);
    let ghost before = ordered@;
    let mut id: usize = 0;
    while id < ordered.len()
        invariant
            id <= ordered@.len(),
            ordered@.len() == before.len(),
            forall|j: int|
                0 <= j < id ==> #[trigger] ordered@[j] == (LayoutBlock { id: j as usize, ..before[j] }),
            forall|j: int| id <= j < before.len() ==> #[trigger] ordered@[j] == before[j],
        decreases ordered@.len() - id,
    {
        ordered[id].id = id;
        id = id + 1;
    }
    assert(ordered@ =~= crate::layout_merge::renumbered(before));
    ordered
}

} // verus!
