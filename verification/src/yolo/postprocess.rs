//! Restoring boxes to page coordinates and non-max suppression.
use super::labels::LayoutLabel;
use super::preprocess::Letterbox;
use super::types::LayoutDetection;
use crate::float::F32;
use crate::sorting::{sort, Key, Keyed, KeyedValue};
use crate::text::same_text;
use crate::types::Rect;
use vstd::arithmetic::power2::{lemma_pow2_pos, pow2};
use vstd::prelude::*;
use vstd::string::*;

verus! {

/// The YOLO document layout label names in model class-id order, as the model spells them.
pub const MODEL_LABELS: [&'static str; 11] = [
    "Caption",
    "Footnote",
    "Formula",
    "List-item",
    "Page-footer",
    "Page-header",
    "Picture",
    "Section-header",
    "Table",
    "Text",
    "Title",
];

/// What can stand for a class of the model.
pub trait ClassLabel: Sized {
    /// Whether the label stands for a class.
    spec fn stands_for(self, class: int) -> bool;

    /// Whether two labels are the same.
    spec fn same_as(self, other: Self) -> bool;

    /// The label of a class.
    fn of_class_id(id: usize) -> (r: Option<Self>)
        ensures
            match r {
                Some(label) => id < 11 && label.stands_for(id as int),
                None => id >= 11,
            },
    ;

    /// Whether two labels are the same.
    fn is_same(&self, other: &Self) -> (r: bool)
        ensures
            r == self.same_as(*other),
    ;
}

impl ClassLabel for LayoutLabel {
    open spec fn stands_for(self, class: int) -> bool {
        self.class_id() == class
    }

    open spec fn same_as(self, other: Self) -> bool {
        self == other
    }

    fn of_class_id(id: usize) -> (r: Option<Self>) {
        match LayoutLabel::try_from(id) {
            Ok(label) => Some(label),
            Err(_) => None,
        }
    }

    fn is_same(&self, other: &Self) -> (r: bool) {
        *self == *other
    }
}

impl ClassLabel for String {
    open spec fn stands_for(self, class: int) -> bool {
        self@ == MODEL_LABELS@[class]@
    }

    open spec fn same_as(self, other: Self) -> bool {
        self@ == other@
    }

    fn of_class_id(id: usize) -> (r: Option<Self>) {
        if id < 11 {
            Some(MODEL_LABELS[id].to_owned())
        } else {
            None
        }
    }

    fn is_same(&self, other: &Self) -> (r: bool) {
        same_text(self.as_str(), other.as_str())
    }
}

/// A box that the model proposes, in page coordinates.
#[derive(Debug)]
pub struct DetectionCandidate<L> {
    pub label: L,
    pub confidence: F32,
    pub x: F32,
    pub y: F32,
    pub width: F32,
    pub height: F32,
}

/// Candidates are ordered from the most confident on.
impl<L> Keyed for DetectionCandidate<L> {
    open spec fn key(self) -> Key {
        Key { first: (-self.confidence.key()) as i64, second: 0, third: 0 }
    }
}

impl<L> KeyedValue for DetectionCandidate<L> {
    fn key_of(&self) -> (k: Key) {
        Key { first: -self.confidence.key_i64(), second: 0, third: 0 }
    }
}

impl<L> DetectionCandidate<L> {
    /// The place of the candidate.
    pub open spec fn area_rect(self) -> Rect {
        Rect { x: self.x, y: self.y, width: self.width, height: self.height }
    }

    /// The detection that the candidate becomes.
    pub open spec fn detection(self) -> LayoutDetection<L> {
        LayoutDetection {
            label: self.label,
            confidence: self.confidence,
            x: self.x,
            y: self.y,
            width: self.width,
            height: self.height,
        }
    }

    /// The place of the candidate.
    pub fn rect(&self) -> (r: Rect)
        ensures
            r == self.area_rect(),
    {
        Rect { x: self.x, y: self.y, width: self.width, height: self.height }
    }
}

/// A model coordinate in pixels of the image, brought into the image.
pub open spec fn image_coordinate(v: F32, pad: F32, scale: F32, length: u32) -> F32 {
    v.minus(pad).over(scale).clamped(F32 { bits: 0 }, F32::from_nat(length as nat))
}

/// A box in page coordinates.
pub open spec fn restored_box(
    x: F32,
    y: F32,
    width: F32,
    height: F32,
    lb: Letterbox,
    page_width: F32,
    page_height: F32,
) -> (F32, F32, F32, F32) {
    let zero = F32 { bits: 0 };
    let left = image_coordinate(x, lb.pad_x, lb.scale, lb.input_width);
    let top = image_coordinate(y, lb.pad_y, lb.scale, lb.input_height);
    let right = image_coordinate(x.plus(width), lb.pad_x, lb.scale, lb.input_width);
    let bottom = image_coordinate(y.plus(height), lb.pad_y, lb.scale, lb.input_height);
    let scale_x = page_width.over(F32::from_nat(lb.input_width as nat));
    let scale_y = page_height.over(F32::from_nat(lb.input_height as nat));
    (
        left.times(scale_x),
        top.times(scale_y),
        right.minus(left).greater(zero).times(scale_x),
        bottom.minus(top).greater(zero).times(scale_y),
    )
}

/// A model coordinate in pixels of the image, brought into the image.
fn to_image(v: F32, pad: F32, scale: F32, length: u32) -> (r: F32)
    ensures
        r == image_coordinate(v, pad, scale, length),
{
    proof {
        crate::float::bounds::naturals_are_not_negative(length as nat);
    }
    v.sub(pad).div(scale).clamp(F32::from_bits(0), F32::from_u32(length))
}

/// A box of the model's input in page coordinates: its left and top edge, its width and height.
pub fn restore_box_to_page(
    x: F32,
    y: F32,
    width: F32,
    height: F32,
    letterbox: &Letterbox,
    page_width: F32,
    page_height: F32,
) -> (r: (F32, F32, F32, F32))
    ensures
        r == restored_box(x, y, width, height, *letterbox, page_width, page_height),
{
    let zero: F32 = F32::from_bits(0);
    let image_x: F32 = to_image(x, letterbox.pad_x, letterbox.scale, letterbox.input_width);
    let image_y: F32 = to_image(y, letterbox.pad_y, letterbox.scale, letterbox.input_height);
    let image_right: F32 = to_image(
        x.add(width),
        letterbox.pad_x,
        letterbox.scale,
        letterbox.input_width,
    );
    let image_bottom: F32 = to_image(
        y.add(height),
        letterbox.pad_y,
        letterbox.scale,
        letterbox.input_height,
    );
    let scale_x: F32 = page_width.div(F32::from_u32(letterbox.input_width));
    let scale_y: F32 = page_height.div(F32::from_u32(letterbox.input_height));
    (
        image_x.mul(scale_x),
        image_y.mul(scale_y),
        image_right.sub(image_x).max(zero).mul(scale_x),
        image_bottom.sub(image_y).max(zero).mul(scale_y),
    )
}

/// The area that two boxes share over the area that they cover together.
pub open spec fn overlap_share(a: Rect, b: Rect) -> F32 {
    let zero = F32 { bits: 0 };
    let shared = a.overlap_area(b);
    let covered = a.area().plus(b.area()).minus(shared);
    if zero.less(covered) {
        shared.over(covered)
    } else {
        zero
    }
}

/// The area that two candidates share over the area that they cover together.
pub fn iou<L>(a: &DetectionCandidate<L>, b: &DetectionCandidate<L>) -> (r: F32)
    ensures
        r == overlap_share(a.area_rect(), b.area_rect()),
{
    let zero: F32 = F32::from_bits(0);
    let intersection: F32 = a.rect().intersection_area(b.rect());
    let union: F32 = a.width.mul(a.height).add(b.width.mul(b.height)).sub(intersection);
    if union.gt(zero) {
        intersection.div(union)
    } else {
        zero
    }
}

/// Whether a candidate is suppressed by another one: they have the same label and overlap by
/// more than the threshold.
pub open spec fn is_suppressed_by<L: ClassLabel>(
    candidate: DetectionCandidate<L>,
    other: DetectionCandidate<L>,
    threshold: F32,
) -> bool {
    candidate.label.same_as(other.label) && threshold.less(
        overlap_share(candidate.area_rect(), other.area_rect()),
    )
}

/// Whether a candidate is suppressed by one of the others.
pub open spec fn is_suppressed<L: ClassLabel>(
    candidate: DetectionCandidate<L>,
    others: Seq<DetectionCandidate<L>>,
    threshold: F32,
) -> bool {
    exists|i: int|
        0 <= i < others.len() && is_suppressed_by(candidate, #[trigger] others[i], threshold)
}

/// The candidates that none of those kept before them suppresses.
pub open spec fn unsuppressed<L: ClassLabel>(
    s: Seq<DetectionCandidate<L>>,
    threshold: F32,
) -> Seq<DetectionCandidate<L>>
    decreases s.len(),
{
    if s.len() == 0 {
        s
    } else {
        let before = unsuppressed(s.drop_last(), threshold);
        if is_suppressed(s.last(), before, threshold) {
            before
        } else {
            before.push(s.last())
        }
    }
}

/// The detections that candidates become.
pub open spec fn detections_of<L>(s: Seq<DetectionCandidate<L>>) -> Seq<LayoutDetection<L>> {
    Seq::new(s.len(), |i: int| s[i].detection())
}

/// The candidates that are kept, from the most confident on.
pub open spec fn kept_candidates<L: ClassLabel>(
    s: Seq<DetectionCandidate<L>>,
    threshold: F32,
) -> Seq<DetectionCandidate<L>> {
    unsuppressed(crate::sorting::sorted(s), threshold)
}

/// Whether a candidate is suppressed by one of those kept.
fn suppressed<L: ClassLabel>(
    candidate: &DetectionCandidate<L>,
    kept: &Vec<DetectionCandidate<L>>,
    threshold: F32,
) -> (r: bool)
    ensures
        r == is_suppressed(*candidate, kept@, threshold),
{
    let mut i: usize = 0;
    while i < kept.len()
        invariant
            i <= kept@.len(),
            forall|k: int|
                0 <= k < i ==> !is_suppressed_by(*candidate, #[trigger] kept@[k], threshold),
        decreases kept@.len() - i,
    {
        if candidate.label.is_same(&kept[i].label) && iou(candidate, &kept[i]).gt(threshold) {
            return true;
        }
        i = i + 1;
    }
    false
}

/// Keep the most confident of the candidates that have the same label and overlap by more than
/// the threshold.
pub fn non_max_suppression<L: ClassLabel>(
    candidates: Vec<DetectionCandidate<L>>,
    iou_threshold: F32,
) -> (r: Vec<LayoutDetection<L>>)
    requires
        forall|i: int| 0 <= i < candidates@.len() ==> !(#[trigger] candidates@[i]).confidence.nan(),
    ensures
        r@ == detections_of(kept_candidates(candidates@, iou_threshold)),
{
    let mut rest: Vec<DetectionCandidate<L>> = sort(candidates);
    let ghost ordered = rest@;
    let ghost mut done: int = 0;
    let mut kept: Vec<DetectionCandidate<L>> = Vec::new();
    assert(ordered.skip(0) =~= ordered);
    assert(kept@ =~= unsuppressed(ordered.take(0), iou_threshold));
    while rest.len() > 0
        invariant
            0 <= done <= ordered.len(),
            rest@ == ordered.skip(done),
            kept@ == unsuppressed(ordered.take(done), iou_threshold),
        decreases rest@.len(),
    {
        let candidate: DetectionCandidate<L> = rest.remove(0);
        assert(candidate == ordered[done]);
        assert(rest@ =~= ordered.skip(done + 1));
        assert(ordered.take(done + 1).drop_last() =~= ordered.take(done));
        if !suppressed(&candidate, &kept, iou_threshold) {
            kept.push(candidate);
        }
        proof {
            done = done + 1;
        }
    }
    assert(ordered.take(done) =~= ordered);
    let ghost all = kept@;
    let mut out: Vec<LayoutDetection<L>> = Vec::new();
    let ghost mut moved: int = 0;
    assert(all.skip(0) =~= all);
    while kept.len() > 0
        invariant
            0 <= moved <= all.len(),
            kept@ == all.skip(moved),
            out@ == detections_of(all.take(moved)),
        decreases kept@.len(),
    {
        let candidate: DetectionCandidate<L> = kept.remove(0);
        assert(candidate == all[moved]);
        assert(kept@ =~= all.skip(moved + 1));
        out.push(
            LayoutDetection {
                label: candidate.label,
                confidence: candidate.confidence,
                x: candidate.x,
                y: candidate.y,
                width: candidate.width,
                height: candidate.height,
            },
        );
        assert(out@ =~= detections_of(all.take(moved + 1)));
        proof {
            moved = moved + 1;
        }
    }
    assert(all.take(moved) =~= all);
    out
}

proof fn lemma_unsuppressed<L: ClassLabel>(s: Seq<DetectionCandidate<L>>, threshold: F32)
    ensures
        forall|i: int, j: int|
            0 <= i < j < unsuppressed(s, threshold).len() ==> !is_suppressed_by(
                #[trigger] unsuppressed(s, threshold)[j],
                #[trigger] unsuppressed(s, threshold)[i],
                threshold,
            ),
        forall|i: int|
            0 <= i < s.len() ==> unsuppressed(s, threshold).contains(#[trigger] s[i]) || exists|k: int|
                0 <= k < unsuppressed(s, threshold).len() && is_suppressed_by(
                    s[i],
                    #[trigger] unsuppressed(s, threshold)[k],
                    threshold,
                ) && exists|j: int| 0 <= j < i && #[trigger] s[j] == unsuppressed(s, threshold)[k],
        forall|k: int|
            0 <= k < unsuppressed(s, threshold).len() ==> s.contains(
                #[trigger] unsuppressed(s, threshold)[k],
            ),
        s.len() > 0 ==> unsuppressed(s, threshold).len() > 0 && unsuppressed(s, threshold)[0] == s[0],
    decreases s.len(),
{
    if s.len() > 0 {
        let d = s.drop_last();
        lemma_unsuppressed(d, threshold);
        let before = unsuppressed(d, threshold);
        let all = unsuppressed(s, threshold);
        assert forall|i: int| 0 <= i < s.len() implies all.contains(#[trigger] s[i]) || exists|k: int|
            0 <= k < all.len() && is_suppressed_by(s[i], #[trigger] all[k], threshold)
                && exists|j: int| 0 <= j < i && #[trigger] s[j] == all[k] by {
            if i < d.len() {
                assert(d[i] == s[i]);
                if before.contains(d[i]) {
                    let m = choose|m: int| 0 <= m < before.len() && before[m] == d[i];
                    assert(all[m] == s[i]);
                } else {
                    let k = choose|k: int|
                        0 <= k < before.len() && is_suppressed_by(d[i], #[trigger] before[k], threshold)
                            && exists|j: int| 0 <= j < i && #[trigger] d[j] == before[k];
                    let j = choose|j: int| 0 <= j < i && #[trigger] d[j] == before[k];
                    assert(all[k] == before[k]);
                    assert(s[j] == all[k]);
                }
            } else if is_suppressed(s.last(), before, threshold) {
                let k = choose|k: int|
                    0 <= k < before.len() && is_suppressed_by(s.last(), #[trigger] before[k], threshold);
                assert(d.contains(before[k]));
                let j = choose|j: int| 0 <= j < d.len() && d[j] == before[k];
                assert(all[k] == before[k]);
                assert(s[j] == all[k]);
            } else {
                assert(all[before.len() as int] == s[i]);
            }
        }
        assert forall|k: int| 0 <= k < all.len() implies s.contains(#[trigger] all[k]) by {
            if k < before.len() {
                assert(d.contains(before[k]));
                let j = choose|j: int| 0 <= j < d.len() && d[j] == before[k];
                assert(s[j] == all[k]);
            } else {
                assert(s[s.len() - 1] == all[k]);
            }
        }
    }
}

/// Of those kept, none is suppressed by a more confident one; each candidate that is not kept is
/// suppressed by one that is kept and not less confident; nothing is kept that was no candidate.
pub proof fn suppression_keeps_the_most_confident<L: ClassLabel>(
    s: Seq<DetectionCandidate<L>>,
    threshold: F32,
)
    requires
        forall|i: int| 0 <= i < s.len() ==> !(#[trigger] s[i]).confidence.nan(),
    ensures
        forall|i: int, j: int|
            0 <= i < j < kept_candidates(s, threshold).len() ==> !is_suppressed_by(
                #[trigger] kept_candidates(s, threshold)[j],
                #[trigger] kept_candidates(s, threshold)[i],
                threshold,
            ),
        forall|k: int|
            0 <= k < kept_candidates(s, threshold).len() ==> s.contains(
                #[trigger] kept_candidates(s, threshold)[k],
            ),
        forall|i: int|
            0 <= i < s.len() ==> kept_candidates(s, threshold).contains(#[trigger] s[i])
                || exists|k: int|
                0 <= k < kept_candidates(s, threshold).len() && is_suppressed_by(
                    s[i],
                    #[trigger] kept_candidates(s, threshold)[k],
                    threshold,
                ) && s[i].confidence.at_most(kept_candidates(s, threshold)[k].confidence),
{
    broadcast use vstd::seq_lib::group_to_multiset_ensures;

    let ordered = crate::sorting::sorted(s);
    let kept = kept_candidates(s, threshold);
    crate::sorting::sorting_permutes_into_order(s);
    lemma_unsuppressed(ordered, threshold);
    assert forall|c: DetectionCandidate<L>| ordered.contains(c) == #[trigger] s.contains(c) by {
        assert(ordered.contains(c) <==> ordered.to_multiset().count(c) > 0);
        assert(s.contains(c) <==> s.to_multiset().count(c) > 0);
    }
    assert forall|k: int| 0 <= k < kept.len() implies s.contains(#[trigger] kept[k]) by {
        assert(ordered.contains(kept[k]));
    }
    assert forall|i: int| 0 <= i < s.len() implies kept.contains(#[trigger] s[i]) || exists|k: int|
        0 <= k < kept.len() && is_suppressed_by(s[i], #[trigger] kept[k], threshold)
            && s[i].confidence.at_most(kept[k].confidence) by {
        assert(s.contains(s[i]));
        let m = choose|m: int| 0 <= m < ordered.len() && ordered[m] == s[i];
        if !kept.contains(ordered[m]) {
            let k = choose|k: int|
                0 <= k < kept.len() && is_suppressed_by(ordered[m], #[trigger] kept[k], threshold)
                    && exists|j: int| 0 <= j < m && #[trigger] ordered[j] == kept[k];
            let j = choose|j: int| 0 <= j < m && #[trigger] ordered[j] == kept[k];
            assert(ordered[j].key().at_most(ordered[m].key()));
            assert(s.contains(kept[k]));
            let n = choose|n: int| 0 <= n < s.len() && s[n] == kept[k];
            assert(!s[n].confidence.nan());
            assert(!s[i].confidence.nan());
            assert(s[i].confidence.at_most(kept[k].confidence));
        }
    }
}

/// Whether a model coordinate, its padding and the scale are numbers that restoring can take
/// apart: the coordinates are in 256ths of a pixel.
pub open spec fn is_restorable(v: F32, pad: F32, scale: F32, length: u32, at: int, from: int) -> bool {
    &&& v.measures(at)
    &&& pad.measures(from)
    &&& -0x100_0000 < at - from < 0x100_0000
    &&& scale.finite() && !scale.negative() && scale.units() > 0
    &&& 0 < length < 0x1_0000
}

proof fn lemma_image_coordinate(
    v: F32,
    pad: F32,
    scale: F32,
    length: u32,
    at: int,
    from: int,
    u: nat,
)
    requires
        is_restorable(v, pad, scale, length, at, from),
        u <= length,
    ensures
        ({
            let c = image_coordinate(v, pad, scale, length);
            &&& c.finite()
            &&& (F32 { bits: 0 }).at_most(c)
            &&& c.at_most(F32::from_nat(length as nat))
            &&& (at - from) * pow2(141) >= u * scale.units() ==> F32::from_nat(u).at_most(c)
            &&& (at - from) * pow2(141) <= u * scale.units() ==> c.at_most(F32::from_nat(u))
        }),
{
    let zero = F32 { bits: 0 };
    let (f, high) = (F32::from_nat(u), F32::from_nat(length as nat));
    let d = v.minus(pad);
    let k = at - from;
    let (p, one, n) = (pow2(141), pow2(149), scale.units());
    crate::float::exact::measured_difference(v, pad, at, from);
    crate::float::exact::naturals_are_whole(u);
    crate::float::exact::naturals_are_whole(length as nat);
    crate::float::exact::zero_is_whole();
    crate::float::bounds::small_naturals_are_exact(u);
    crate::float::bounds::naturals_are_not_negative(u);
    crate::float::bounds::naturals_are_not_negative(length as nat);
    crate::float::exact::measures_are_ordered(zero, high, 0, 256 * length);
    crate::float::exact::measures_are_ordered(f, high, 256 * u as int, 256 * length);
    crate::float::exact::measures_are_ordered(d, zero, k, 0);
    lemma_pow2_pos(141);
    lemma_pow2_pos(149);
    assert(k < 0 ==> k * p < 0) by (nonlinear_arith)
        requires p > 0;
    assert(k >= 0 ==> k * p >= 0) by (nonlinear_arith)
        requires p > 0;
    assert(u * n >= 0) by (nonlinear_arith)
        requires n > 0, u >= 0;
    crate::float::bounds::lemma_zero_units(zero);
    crate::float::order::magnitude_orders_units(scale, zero);
    if d.negative() {
        assert(d.over(scale).negative() && !d.over(scale).nan()) by {
            reveal(F32::over);
        }
        if k >= 0 {
            assert(d.units() == 0);
            crate::float::order::magnitude_orders_units(d, zero);
            assert(d.over(scale).zero()) by {
                reveal(F32::over);
            }
            assert(k * p == 0);
            if k * p >= u * n {
                assert(u == 0) by (nonlinear_arith)
                    requires u * n <= 0, n > 0, u >= 0;
                crate::float::exact::measures_are_ordered(f, zero, 0, 0);
            }
        }
    } else {
        crate::float::exact::quotient_bounds(d, scale, f);
        crate::float::exact::quotient_bounds(d, scale, zero);
        assert(d.units() == k * p);
        assert(f.units() * n == (u * n) * one) by (nonlinear_arith)
            requires f.units() == u * one;
        assert(k * p >= u * n ==> (k * p) * one >= (u * n) * one) by (nonlinear_arith)
            requires one > 0;
        assert(k * p <= u * n ==> (k * p) * one <= (u * n) * one) by (nonlinear_arith)
            requires one > 0;
    }
}

/// The page coordinate of the `u`th pixel of an image that is as long as a page.
pub open spec fn page_place(u: nat, length: u32, page: F32) -> F32 {
    F32::from_nat(u).times(page.over(F32::from_nat(length as nat)))
}

proof fn lemma_page_scale(length: u32, page: F32)
    requires
        0 < length < 0x1_0000,
        page.finite(),
        !page.negative(),
    ensures
        page.over(F32::from_nat(length as nat)).finite(),
        !page.over(F32::from_nat(length as nat)).negative(),
{
    let n = F32::from_nat(length as nat);
    let one = pow2(149);
    lemma_pow2_pos(149);
    crate::float::bounds::small_naturals_are_exact(length as nat);
    let (l, p) = (length as int, page.units() as int);
    assert(l * one >= one) by (nonlinear_arith)
        requires l >= 1, one > 0;
    assert(p * one <= p * (l * one)) by (nonlinear_arith)
        requires l * one >= one, p >= 0;
    crate::float::exact::quotient_bounds(page, n, page);
}

/// Restoring undoes the letterbox along an axis. A pixel `u` of the image lies at `u * scale + pad`
/// in the model's input; an edge at that place or behind it is restored to the page coordinate of
/// `u` or behind it, and one at that place or before it to that coordinate or before it. A box
/// that covers the pixels from `u` to `w` is at least as long on the page as they are, and one
/// that lies within them at most.
spec fn undoes_the_letterbox(
    start: int,
    end: int,
    from: int,
    scale: F32,
    u: nat,
    w: nat,
    length: u32,
    page: F32,
    place: F32,
    extent: F32,
) -> bool {
    let unit = pow2(141);
    &&& (start - from) * unit >= u * scale.units() ==> page_place(u, length, page).at_most(place)
    &&& (start - from) * unit <= u * scale.units() ==> place.at_most(page_place(u, length, page))
    &&& (start - from) * unit <= u * scale.units() && (end - from) * unit >= w * scale.units()
        ==> page_place((w - u) as nat, length, page).at_most(extent)
    &&& (start - from) * unit >= u * scale.units() && (end - from) * unit <= w * scale.units()
        ==> extent.at_most(page_place((w - u) as nat, length, page))
}

proof fn lemma_extent(a: F32, b: F32, length: u32, u: nat, w: nat)
    requires
        a.finite(),
        b.finite(),
        (F32 { bits: 0 }).at_most(a),
        b.at_most(F32::from_nat(length as nat)),
        u <= w <= length < 0x1_0000,
    ensures
        b.minus(a).greater(F32 { bits: 0 }).finite(),
        (F32 { bits: 0 }).at_most(b.minus(a).greater(F32 { bits: 0 })),
        !b.minus(a).nan(),
        a.at_most(F32::from_nat(u)) && F32::from_nat(w).at_most(b) ==> F32::from_nat(
            (w - u) as nat,
        ).at_most(b.minus(a)),
        F32::from_nat(u).at_most(a) && b.at_most(F32::from_nat(w)) ==> b.minus(a).at_most(
            F32::from_nat((w - u) as nat),
        ),
{
    let zero = F32 { bits: 0 };
    let (f, g, h) = (F32::from_nat(u), F32::from_nat(w), F32::from_nat((w - u) as nat));
    crate::float::bounds::small_naturals_are_exact(u);
    crate::float::bounds::small_naturals_are_exact(w);
    crate::float::bounds::small_naturals_are_exact((w - u) as nat);
    let one = pow2(149);
    lemma_pow2_pos(149);
    assert(g.value() - f.value() == h.value()) by (nonlinear_arith)
        requires
            g.value() == w * one,
            f.value() == u * one,
            h.value() == (w - u) * one,
    ;
    let d = b.minus(a);
    let m = d.greater(zero);
    let n = a.negated();
    assert(n.finite() && n.units() == a.units() && n.value() == -a.value());
    crate::float::order::comparison_compares_values(a, f);
    crate::float::order::comparison_compares_values(f, a);
    crate::float::order::comparison_compares_values(b, g);
    crate::float::order::comparison_compares_values(g, b);
    crate::float::exact::sum_bounds(b, n, h);
    let top = F32::from_nat(length as nat);
    crate::float::bounds::small_naturals_are_exact(length as nat);
    crate::float::bounds::lemma_zero_units(zero);
    crate::float::order::comparison_compares_values(zero, a);
    crate::float::order::comparison_compares_values(b, top);
    crate::float::exact::sum_bounds(b, n, top);
    assert(d.at_most(top));
    assert(m.finite() && zero.at_most(m));
}

proof fn lemma_restored_axis(
    v: F32,
    size: F32,
    pad: F32,
    scale: F32,
    length: u32,
    page: F32,
    start: int,
    end: int,
    from: int,
    u: nat,
    w: nat,
)
    requires
        is_restorable(v, pad, scale, length, start, from),
        is_restorable(v.plus(size), pad, scale, length, end, from),
        page.finite(),
        !page.negative(),
        u <= w <= length,
    ensures
        ({
            let a = image_coordinate(v, pad, scale, length);
            let b = image_coordinate(v.plus(size), pad, scale, length);
            let q = page.over(F32::from_nat(length as nat));
            undoes_the_letterbox(
                start,
                end,
                from,
                scale,
                u,
                w,
                length,
                page,
                a.times(q),
                b.minus(a).greater(F32 { bits: 0 }).times(q),
            )
        }),
{
    let zero = F32 { bits: 0 };
    let a = image_coordinate(v, pad, scale, length);
    let b = image_coordinate(v.plus(size), pad, scale, length);
    let q = page.over(F32::from_nat(length as nat));
    let (f, g, h) = (F32::from_nat(u), F32::from_nat(w), F32::from_nat((w - u) as nat));
    lemma_image_coordinate(v, pad, scale, length, start, from, u);
    lemma_image_coordinate(v.plus(size), pad, scale, length, end, from, w);
    lemma_page_scale(length, page);
    crate::float::bounds::small_naturals_are_exact(u);
    crate::float::bounds::small_naturals_are_exact(w);
    crate::float::bounds::small_naturals_are_exact((w - u) as nat);
    crate::float::bounds::naturals_are_not_negative(u);
    crate::float::bounds::naturals_are_not_negative((w - u) as nat);
    if f.at_most(a) {
        crate::float::exact::products_keep_the_order(f, a, q);
    }
    if a.at_most(f) {
        crate::float::exact::products_keep_the_order(a, f, q);
    }
    let d = b.minus(a);
    let m = d.greater(zero);
    lemma_extent(a, b, length, u, w);
    if h.at_most(d) {
        crate::float::exact::products_keep_the_order(h, m, q);
    }
    if d.at_most(h) {
        crate::float::exact::products_keep_the_order(m, h, q);
    }
}

/// Restoring a box undoes the letterbox along both axes. The pixel `u` of the image, in either
/// direction, lies at `u * scale + pad` in the model's input. Where the left edge of the box lies
/// there or behind, it is restored to `u * page_width / input_width` or behind, and where it lies
/// there or before, to that or before; likewise the top edge. A box that covers the pixels from
/// `u` to `w` is restored to at least their width on the page, one that lies within them to at
/// most that; likewise the height.
pub proof fn restoring_undoes_the_letterbox(
    x: F32,
    y: F32,
    width: F32,
    height: F32,
    lb: Letterbox,
    page_width: F32,
    page_height: F32,
    left: int,
    top: int,
    right: int,
    bottom: int,
    from_x: int,
    from_y: int,
    u: nat,
    w: nat,
)
    requires
        is_restorable(x, lb.pad_x, lb.scale, lb.input_width, left, from_x),
        is_restorable(x.plus(width), lb.pad_x, lb.scale, lb.input_width, right, from_x),
        is_restorable(y, lb.pad_y, lb.scale, lb.input_height, top, from_y),
        is_restorable(y.plus(height), lb.pad_y, lb.scale, lb.input_height, bottom, from_y),
        page_width.finite(),
        !page_width.negative(),
        page_height.finite(),
        !page_height.negative(),
        u <= w,
    ensures
        ({
            let r = restored_box(x, y, width, height, lb, page_width, page_height);
            let unit = pow2(141);
            let scale = lb.scale.units();
            let place_x = page_place(u, lb.input_width, page_width);
            let place_y = page_place(u, lb.input_height, page_height);
            let size_x = page_place((w - u) as nat, lb.input_width, page_width);
            let size_y = page_place((w - u) as nat, lb.input_height, page_height);
            &&& w <= lb.input_width ==> {
                &&& (left - from_x) * unit >= u * scale ==> place_x.at_most(r.0)
                &&& (left - from_x) * unit <= u * scale ==> r.0.at_most(place_x)
                &&& (left - from_x) * unit <= u * scale && (right - from_x) * unit >= w * scale
                    ==> size_x.at_most(r.2)
                &&& (left - from_x) * unit >= u * scale && (right - from_x) * unit <= w * scale
                    ==> r.2.at_most(size_x)
            }
            &&& w <= lb.input_height ==> {
                &&& (top - from_y) * unit >= u * scale ==> place_y.at_most(r.1)
                &&& (top - from_y) * unit <= u * scale ==> r.1.at_most(place_y)
                &&& (top - from_y) * unit <= u * scale && (bottom - from_y) * unit >= w * scale
                    ==> size_y.at_most(r.3)
                &&& (top - from_y) * unit >= u * scale && (bottom - from_y) * unit <= w * scale
                    ==> r.3.at_most(size_y)
            }
        }),
{
    if w <= lb.input_width {
        lemma_restored_axis(
            x,
            width,
            lb.pad_x,
            lb.scale,
            lb.input_width,
            page_width,
            left,
            right,
            from_x,
            u,
            w,
        );
    }
    if w <= lb.input_height {
        lemma_restored_axis(
            y,
            height,
            lb.pad_y,
            lb.scale,
            lb.input_height,
            page_height,
            top,
            bottom,
            from_y,
            u,
            w,
        );
    }
}

/// A box of the model's input that covers the whole image, from the padding on, is restored to the
/// whole page: from its left and top edge, and as wide and high as the image is there.
pub proof fn the_whole_image_is_the_whole_page(
    x: F32,
    y: F32,
    width: F32,
    height: F32,
    lb: Letterbox,
    page_width: F32,
    page_height: F32,
    left: int,
    top: int,
    right: int,
    bottom: int,
    from_x: int,
    from_y: int,
)
    requires
        is_restorable(x, lb.pad_x, lb.scale, lb.input_width, left, from_x),
        is_restorable(x.plus(width), lb.pad_x, lb.scale, lb.input_width, right, from_x),
        is_restorable(y, lb.pad_y, lb.scale, lb.input_height, top, from_y),
        is_restorable(y.plus(height), lb.pad_y, lb.scale, lb.input_height, bottom, from_y),
        page_width.finite(),
        !page_width.negative(),
        page_height.finite(),
        !page_height.negative(),
        left <= from_x,
        top <= from_y,
        (right - from_x) * pow2(141) >= lb.input_width
            * lb.scale.units(),
        (bottom - from_y) * pow2(141) >= lb.input_height
            * lb.scale.units(),
    ensures
        ({
            let r = restored_box(x, y, width, height, lb, page_width, page_height);
            &&& r.0.zero() && r.1.zero()
            &&& r.2.equals(page_place(lb.input_width as nat, lb.input_width, page_width))
            &&& r.3.equals(page_place(lb.input_height as nat, lb.input_height, page_height))
        }),
{
    let r = restored_box(x, y, width, height, lb, page_width, page_height);
    lemma_whole_axis(
        x,
        width,
        lb.pad_x,
        lb.scale,
        lb.input_width,
        page_width,
        left,
        right,
        from_x,
    );
    lemma_whole_axis(
        y,
        height,
        lb.pad_y,
        lb.scale,
        lb.input_height,
        page_height,
        top,
        bottom,
        from_y,
    );
}

proof fn lemma_whole_axis(
    v: F32,
    size: F32,
    pad: F32,
    scale: F32,
    length: u32,
    page: F32,
    start: int,
    end: int,
    from: int,
)
    requires
        is_restorable(v, pad, scale, length, start, from),
        is_restorable(v.plus(size), pad, scale, length, end, from),
        page.finite(),
        !page.negative(),
        start <= from,
        (end - from) * pow2(141) >= length * scale.units(),
    ensures
        ({
            let a = image_coordinate(v, pad, scale, length);
            let b = image_coordinate(v.plus(size), pad, scale, length);
            let q = page.over(F32::from_nat(length as nat));
            &&& a.times(q).zero()
            &&& b.minus(a).greater(F32 { bits: 0 }).times(q).equals(
                page_place(length as nat, length, page),
            )
        }),
{
    let zero = F32 { bits: 0 };
    let a = image_coordinate(v, pad, scale, length);
    let b = image_coordinate(v.plus(size), pad, scale, length);
    let q = page.over(F32::from_nat(length as nat));
    let p = pow2(141);
    lemma_pow2_pos(141);
    assert((start - from) * p <= 0) by (nonlinear_arith)
        requires start <= from, p > 0;
    assert(0 * scale.units() == 0);
    lemma_image_coordinate(v, pad, scale, length, start, from, 0);
    lemma_image_coordinate(v.plus(size), pad, scale, length, end, from, length as nat);
    lemma_page_scale(length, page);
    crate::float::exact::naturals_are_whole(0);
    crate::float::exact::zero_is_whole();
    crate::float::exact::measures_are_ordered(F32::from_nat(0), zero, 0, 0);
    assert(a.zero());
    crate::float::exact::products_keep_the_order(a, a, q);
    let top = F32::from_nat(length as nat);
    crate::float::bounds::small_naturals_are_exact(length as nat);
    crate::float::bounds::naturals_are_not_negative(length as nat);
    crate::float::bounds::lemma_zero_units(a);
    let n = a.negated();
    assert(n.finite() && n.units() == a.units());
    crate::float::order::comparison_compares_values(b, top);
    crate::float::exact::sum_bounds(b, n, top);
    let m = b.minus(a).greater(zero);
    crate::float::exact::products_keep_the_order(m, top, q);
    crate::float::exact::products_keep_the_order(top, m, q);
}

proof fn lemma_unsuppressed_in_order<L: ClassLabel>(s: Seq<DetectionCandidate<L>>, threshold: F32)
    requires
        crate::sorting::in_key_order(s),
    ensures
        crate::sorting::in_key_order(unsuppressed(s, threshold)),
        forall|k: int|
            0 <= k < unsuppressed(s, threshold).len() ==> s.contains(
                #[trigger] unsuppressed(s, threshold)[k],
            ),
    decreases s.len(),
{
    if s.len() > 0 {
        let d = s.drop_last();
        let (before, all) = (unsuppressed(d, threshold), unsuppressed(s, threshold));
        let n = s.len() - 1;
        assert forall|i: int, j: int| 0 <= i <= j < d.len() implies (#[trigger] d[i]).key().at_most(
            (#[trigger] d[j]).key(),
        ) by {
            assert(s[i].key().at_most(s[j].key()));
        }
        lemma_unsuppressed_in_order(d, threshold);
        assert forall|k: int| 0 <= k < all.len() implies s.contains(#[trigger] all[k]) by {
            if k < before.len() {
                assert(d.contains(before[k]));
                let i = choose|i: int| 0 <= i < d.len() && d[i] == before[k];
                assert(s[i] == all[k]);
            } else {
                assert(s[n] == all[k]);
            }
        }
        assert forall|i: int, j: int| 0 <= i <= j < all.len() implies (
        #[trigger] all[i]).key().at_most((#[trigger] all[j]).key()) by {
            if j < before.len() {
                assert(before[i].key().at_most(before[j].key()));
            } else if i < before.len() {
                assert(d.contains(before[i]));
                let k = choose|k: int| 0 <= k < d.len() && d[k] == before[i];
                assert(s[k].key().at_most(s[n].key()));
            }
        }
    }
}

/// The candidates that are kept come from the most confident on.
pub proof fn kept_candidates_come_from_the_most_confident_on<L: ClassLabel>(
    s: Seq<DetectionCandidate<L>>,
    threshold: F32,
    i: int,
    j: int,
)
    requires
        forall|i: int| 0 <= i < s.len() ==> !(#[trigger] s[i]).confidence.nan(),
        0 <= i < j < kept_candidates(s, threshold).len(),
    ensures
        kept_candidates(s, threshold)[j].confidence.at_most(
            kept_candidates(s, threshold)[i].confidence,
        ),
{
    let ordered = crate::sorting::sorted(s);
    let kept = kept_candidates(s, threshold);
    crate::sorting::sorting_permutes_into_order(s);
    crate::permutations::lemma_same_elements(ordered, s);
    lemma_unsuppressed_in_order(ordered, threshold);
    assert(kept[i].key().at_most(kept[j].key()));
    assert(ordered.contains(kept[i]) && ordered.contains(kept[j]));
    let p = choose|p: int| 0 <= p < s.len() && s[p] == kept[i];
    let q = choose|q: int| 0 <= q < s.len() && s[q] == kept[j];
    assert(!s[p].confidence.nan() && !s[q].confidence.nan());
}

/// On whole points, the overlap of two boxes is the area that they share over the area that they
/// cover together, rounded: it passes no number that this quotient does not pass. Boxes that cover
/// nothing do not overlap.
pub proof fn framed_overlap_shares(
    a: Rect,
    b: Rect,
    g: crate::types::Frame,
    h: crate::types::Frame,
    f: F32,
)
    requires
        a.is_framed(g),
        b.is_framed(h),
        f.finite(),
        !f.negative(),
    ensures
        ({
            let covered = g.size() + h.size() - g.shared(h);
            let share = overlap_share(a, b);
            &&& g.shared(h) * pow2(149) <= f.units() * covered ==> share.at_most(f)
            &&& covered > 0 && g.shared(h) * pow2(149) >= f.units() * covered ==> f.at_most(share)
        }),
{
    let zero = F32 { bits: 0 };
    let shared = a.overlap_area(b);
    let (m, n) = (g.shared(h), g.size() + h.size() - g.shared(h));
    let covered = a.area().plus(b.area()).minus(shared);
    let one = pow2(149) as int;
    lemma_pow2_pos(149);
    crate::types::framed_edges(a, g);
    crate::types::framed_edges(b, h);
    crate::types::framed_overlaps(a, b, g, h);
    crate::float::exact::whole_sum(a.area(), b.area(), g.size(), h.size());
    crate::float::exact::whole_difference(a.area().plus(b.area()), shared, g.size() + h.size(), m);
    crate::float::exact::zero_is_whole();
    crate::float::exact::measures_are_ordered(zero, covered, 0, 256 * n);
    crate::float::order::comparison_compares_values(zero, f);
    crate::float::bounds::lemma_zero_units(zero);
    if n > 0 {
        vstd::arithmetic::power2::lemma2_to64();
        vstd::arithmetic::power2::lemma_pow2_adds(141, 8);
        let p = pow2(141) as int;
        assert((256 * n) * p == n * one && (256 * m) * p == m * one) by (nonlinear_arith)
            requires one == p * 256;
        assert(n * one > 0) by (nonlinear_arith)
            requires n > 0, one > 0;
        assert(m * one >= 0) by (nonlinear_arith)
            requires m >= 0, one > 0;
        assert(covered.units() == n * one && !covered.negative());
        assert(shared.units() == m * one);
        let u = f.units() as int;
        assert(u * (n * one) == (u * n) * one) by (nonlinear_arith);
        assert(m * one <= u * n ==> (m * one) * one <= (u * n) * one) by (nonlinear_arith)
            requires one > 0;
        assert(m * one >= u * n ==> (m * one) * one >= (u * n) * one) by (nonlinear_arith)
            requires one > 0;
        if shared.negative() {
            assert(shared.units() == 0);
            crate::float::order::magnitude_orders_units(shared, zero);
            assert(shared.zero());
            crate::float::order::magnitude_orders_units(covered, zero);
            assert(!covered.zero());
            assert(shared.over(covered).zero()) by {
                reveal(F32::over);
            }
            if m * one >= u * n {
                assert(u == 0) by (nonlinear_arith)
                    requires u * n <= 0, n > 0, u >= 0;
                crate::float::order::magnitude_orders_units(f, zero);
            }
        } else {
            crate::float::exact::quotient_bounds(shared, covered, f);
        }
    }
}

/// On whole points, of two candidates with the same label one suppresses the other if they share
/// more of what they cover together than the threshold, and never otherwise.
pub proof fn framed_candidates_are_suppressed_above_the_threshold<L: ClassLabel>(
    a: DetectionCandidate<L>,
    b: DetectionCandidate<L>,
    g: crate::types::Frame,
    h: crate::types::Frame,
    threshold: F32,
    above: F32,
)
    requires
        a.area_rect().is_framed(g),
        b.area_rect().is_framed(h),
        threshold.finite(),
        !threshold.negative(),
        above.finite(),
        threshold.less(above),
    ensures
        is_suppressed_by(a, b, threshold) ==> a.label.same_as(b.label) && g.shared(h) * pow2(149)
            > threshold.units() * (g.size() + h.size() - g.shared(h)),
        a.label.same_as(b.label) && g.size() + h.size() > g.shared(h) && g.shared(h) * pow2(149)
            >= above.units() * (g.size() + h.size() - g.shared(h)) ==> is_suppressed_by(
            a,
            b,
            threshold,
        ),
{
    framed_overlap_shares(a.area_rect(), b.area_rect(), g, h, threshold);
    framed_overlap_shares(a.area_rect(), b.area_rect(), g, h, above);
}

} // verus!
