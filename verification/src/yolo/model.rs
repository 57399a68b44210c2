//! What goes into the model, and what comes out of it.
use super::error::LayoutError;
use super::labels::LayoutLabel;
use super::postprocess::{
    non_max_suppression, restore_box_to_page, ClassLabel, DetectionCandidate,
};
use super::preprocess::{letterbox_rgb_to_chw_f32, Letterbox};
use super::types::{LayoutDetection, PageImage};
use crate::float::F32;
use crate::sorting::{sort, Key, Keyed, KeyedValue};
use crate::text::{to_decimal, to_decimal_list};
use vstd::arithmetic::power2::pow2;
use vstd::prelude::*;
use vstd::slice::*;
use vstd::string::*;

verus! {

/// The side of the square image that the model takes, in pixels.
pub const MODEL_IMAGE_SIZE: u32 = 1280;

/// The name of the backend that runs the model.
pub const BACKEND_NAME: &'static str = "ndarray";

/// What a row of the model's output stands for.
pub struct Found {
    pub class: int,
    pub confidence: F32,
    pub x: F32,
    pub y: F32,
    pub width: F32,
    pub height: F32,
}

/// Whether a candidate is what a row stands for.
pub open spec fn is_candidate_for<L: ClassLabel>(c: DetectionCandidate<L>, f: Found) -> bool {
    c.label.stands_for(f.class) && c.confidence == f.confidence && c.x == f.x && c.y == f.y
        && c.width == f.width && c.height == f.height
}

/// Whether the candidates are what rows stand for, one by one.
pub open spec fn are_candidates_for<L: ClassLabel>(
    c: Seq<DetectionCandidate<L>>,
    f: Seq<Found>,
) -> bool {
    c.len() == f.len() && forall|i: int| 0 <= i < c.len() ==> is_candidate_for(#[trigger] c[i], f[i])
}

/// What the rows of an output are decoded with.
pub struct Decoding {
    pub threshold: F32,
    pub letterbox: Letterbox,
    pub page_width: F32,
    pub page_height: F32,
}

/// The box of a row in page coordinates, if it is not empty.
pub open spec fn row_box(row: Seq<F32>, d: Decoding) -> Option<(F32, F32, F32, F32)> {
    let zero = F32 { bits: 0 };
    let width = row[2].minus(row[0]).greater(zero);
    let height = row[3].minus(row[1]).greater(zero);
    let page = super::postprocess::restored_box(
        row[0],
        row[1],
        width,
        height,
        d.letterbox,
        d.page_width,
        d.page_height,
    );
    if width.at_most(zero) || height.at_most(zero) || page.2.at_most(zero) || page.3.at_most(zero) {
        None
    } else {
        Some(page)
    }
}

/// What a row stands for, given its class and its confidence.
pub open spec fn row_found(row: Seq<F32>, class: int, confidence: F32, d: Decoding) -> Option<Found> {
    if confidence.less(d.threshold) || class >= 11 {
        None
    } else {
        match row_box(row, d) {
            Some((x, y, width, height)) => Some(
                Found { class, confidence, x, y, width, height },
            ),
            None => None,
        }
    }
}

/// The `i`th row of values, `width` to a row.
pub open spec fn value_row(values: Seq<F32>, width: int, i: int) -> Seq<F32> {
    values.subrange(i * width, i * width + width)
}

/// What a processed row `[x1, y1, x2, y2, confidence, class]` stands for.
pub open spec fn processed_found(row: Seq<F32>, d: Decoding) -> Option<Found> {
    row_found(row, row[5].as_usize(row[5].round_int()) as int, row[4], d)
}

/// What the first `n` processed rows stand for.
pub open spec fn processed_rows(values: Seq<F32>, d: Decoding, n: nat) -> Seq<Found>
    decreases n,
{
    if n == 0 {
        Seq::empty()
    } else {
        let before = processed_rows(values, d, (n - 1) as nat);
        match processed_found(value_row(values, 6, n - 1), d) {
            Some(f) => before.push(f),
            None => before,
        }
    }
}

/// The greatest of the first `n` class scores of a raw row.
pub open spec fn best_score(row: Seq<F32>, n: nat) -> F32
    decreases n,
{
    if n == 0 {
        F32 { bits: 0xff80_0000 }
    } else {
        best_score(row, (n - 1) as nat).greater(row[4 + n - 1])
    }
}

/// The class with the greatest of the first `n` scores in the total order, the last of several.
pub open spec fn best_class(row: Seq<F32>, n: nat) -> int
    decreases n,
{
    if n <= 1 {
        0
    } else {
        let before = best_class(row, (n - 1) as nat);
        if row[4 + before].rank() <= row[4 + n - 1].rank() {
            n - 1
        } else {
            before
        }
    }
}

/// A raw row with its best score.
#[derive(Clone, Copy, Debug)]
pub struct RankedRow {
    pub score: F32,
    pub row: usize,
}

/// Rows are ordered from the best score on.
impl Keyed for RankedRow {
    open spec fn key(self) -> Key {
        Key { first: (-self.score.key()) as i64, second: 0, third: 0 }
    }
}

impl KeyedValue for RankedRow {
    fn key_of(&self) -> (k: Key) {
        Key { first: -self.score.key_i64(), second: 0, third: 0 }
    }
}

/// Those of the first `n` raw rows whose best score reaches the threshold.
pub open spec fn scored_rows(values: Seq<F32>, threshold: F32, n: nat) -> Seq<RankedRow>
    decreases n,
{
    if n == 0 {
        Seq::empty()
    } else {
        let before = scored_rows(values, threshold, (n - 1) as nat);
        let score = best_score(value_row(values, 15, n - 1), 11);
        if threshold.at_most(score) {
            before.push(RankedRow { score, row: (n - 1) as usize })
        } else {
            before
        }
    }
}

/// The best raw rows, at most three hundred.
pub open spec fn top_rows(values: Seq<F32>, threshold: F32, n: nat) -> Seq<RankedRow> {
    let ordered = crate::sorting::sorted(scored_rows(values, threshold, n));
    if ordered.len() > 300 {
        ordered.take(300)
    } else {
        ordered
    }
}

/// What a raw row `[x1, y1, x2, y2, class scores...]` stands for.
pub open spec fn raw_found(row: Seq<F32>, d: Decoding) -> Option<Found> {
    let class = best_class(row, 11);
    row_found(row, class, row[4 + class], d)
}

/// What the ranked raw rows stand for.
pub open spec fn raw_rows(values: Seq<F32>, d: Decoding, ranked: Seq<RankedRow>) -> Seq<Found>
    decreases ranked.len(),
{
    if ranked.len() == 0 {
        Seq::empty()
    } else {
        let before = raw_rows(values, d, ranked.drop_last());
        match raw_found(value_row(values, 15, ranked.last().row as int), d) {
            Some(f) => before.push(f),
            None => before,
        }
    }
}

/// The decoding of the output for an image.
pub open spec fn decoding_for(threshold: F32, image: PageImage<'_>, letterbox: Letterbox) -> Decoding {
    Decoding {
        threshold,
        letterbox,
        page_width: image.page_width,
        page_height: image.page_height,
    }
}

/// The candidate that a row stands for, given its box, its class and its confidence.
fn decode_row<L: ClassLabel>(
    corners: (F32, F32, F32, F32),
    class_id: usize,
    confidence: F32,
    threshold: F32,
    image: &PageImage<'_>,
    letterbox: &Letterbox,
    Ghost(row): Ghost<Seq<F32>>,
) -> (r: Option<DetectionCandidate<L>>)
    requires
        corners == (row[0], row[1], row[2], row[3]),
    ensures
        match r {
            Some(c) => row_found(
                row,
                class_id as int,
                confidence,
                decoding_for(threshold, *image, *letterbox),
            ) matches Some(f) && is_candidate_for(c, f),
            None => row_found(
                row,
                class_id as int,
                confidence,
                decoding_for(threshold, *image, *letterbox),
            ) is None,
        },
{
    if confidence.lt(threshold) {
        return None;
    }
    match L::of_class_id(class_id) {
        None => None,
        Some(label) => {
            let zero: F32 = F32::from_bits(0);
            let (x, y, right, bottom) = corners;
            let width: F32 = right.sub(x).max(zero);
            let height: F32 = bottom.sub(y).max(zero);
            if width.le(zero) || height.le(zero) {
                return None;
            }
            let (page_x, page_y, page_width, page_height) = restore_box_to_page(
                x,
                y,
                width,
                height,
                letterbox,
                image.page_width,
                image.page_height,
            );
            if page_width.le(zero) || page_height.le(zero) {
                return None;
            }
            Some(
                DetectionCandidate {
                    label,
                    confidence,
                    x: page_x,
                    y: page_y,
                    width: page_width,
                    height: page_height,
                },
            )
        },
    }
}

/// A text that ends in the numbers of a list.
fn with_list(head: &str, list: &[usize]) -> (r: String)
    ensures
        r@ == head@ + crate::text::decimal_list(list@),
{
    let mut r: String = head.to_owned();
    let tail: String = to_decimal_list(list);
    r.append(tail.as_str());
    r
}

/// Decode the generated model's processed `[x1, y1, x2, y2, score, class]` rows.
pub fn decode_processed_candidates<L: ClassLabel>(
    shape: &[usize],
    values: &[F32],
    confidence_threshold: F32,
    image: &PageImage<'_>,
    letterbox: &Letterbox,
) -> (r: Result<Vec<DetectionCandidate<L>>, LayoutError>)
    ensures
        match r {
            Ok(candidates) => shape@ == seq![1usize, 300, 6] && are_candidates_for(
                candidates@,
                processed_rows(
                    values@,
                    decoding_for(confidence_threshold, *image, *letterbox),
                    values@.len() / 6,
                ),
            ),
            Err(error) => shape@ != seq![1usize, 300, 6] && (error matches LayoutError::InvalidModelOutput(
                text,
            ) && text@ == "expected [1, 300, 6], got "@ + crate::text::decimal_list(shape@)),
        },
{
    let known: bool = shape.len() == 3 && *slice_index_get(shape, 0) == 1 && *slice_index_get(
        shape,
        1,
    ) == 300 && *slice_index_get(shape, 2) == 6;
    assert(known == (shape@ =~= seq![1usize, 300, 6]));
    if !known {
        return Err(LayoutError::InvalidModelOutput(with_list("expected [1, 300, 6], got ", shape)));
    }
    let ghost d = decoding_for(confidence_threshold, *image, *letterbox);
    let len: usize = values.len();
    let n: usize = len / 6;
    let mut candidates: Vec<DetectionCandidate<L>> = Vec::new();
    let mut i: usize = 0;
    while i < n
        invariant
            i <= n,
            len == values@.len(),
            n == len / 6,
            d == decoding_for(confidence_threshold, *image, *letterbox),
            are_candidates_for(candidates@, processed_rows(values@, d, i as nat)),
        decreases n - i,
    {
        let at: usize = i * 6;
        let ghost row = value_row(values@, 6, i as int);
        let class: F32 = *slice_index_get(values, at + 5);
        let confidence: F32 = *slice_index_get(values, at + 4);
        let corners: (F32, F32, F32, F32) = (
            *slice_index_get(values, at),
            *slice_index_get(values, at + 1),
            *slice_index_get(values, at + 2),
            *slice_index_get(values, at + 3),
        );
        let decoded: Option<DetectionCandidate<L>> = decode_row(
            corners,
            class.round_usize(),
            confidence,
            confidence_threshold,
            image,
            letterbox,
            Ghost(row),
        );
        match decoded {
            Some(c) => {
                candidates.push(c);
            },
            None => {},
        }
        i = i + 1;
    }
    Ok(candidates)
}

/// The greatest class score of a raw row.
fn find_best_score(values: &[F32], at: usize, Ghost(row): Ghost<Seq<F32>>) -> (r: F32)
    requires
        at + 15 <= values@.len(),
        row == values@.subrange(at as int, at + 15),
    ensures
        r == best_score(row, 11),
{
    let len: usize = values.len();
    let mut best: F32 = F32::from_bits(0xff80_0000);
    let mut k: usize = 0;
    while k < 11
        invariant
            len == values@.len(),
            k <= 11,
            at + 15 <= values@.len(),
            row == values@.subrange(at as int, at + 15),
            best == best_score(row, k as nat),
        decreases 11 - k,
    {
        best = best.max(*slice_index_get(values, at + 4 + k));
        k = k + 1;
    }
    best
}

/// The class with the greatest score of a raw row.
fn find_best_class(values: &[F32], at: usize, Ghost(row): Ghost<Seq<F32>>) -> (r: usize)
    requires
        at + 15 <= values@.len(),
        row == values@.subrange(at as int, at + 15),
    ensures
        r == best_class(row, 11),
        r < 11,
{
    let len: usize = values.len();
    let mut best: usize = 0;
    let mut k: usize = 1;
    while k < 11
        invariant
            len == values@.len(),
            1 <= k <= 11,
            best < k,
            at + 15 <= values@.len(),
            row == values@.subrange(at as int, at + 15),
            best == best_class(row, k as nat),
        decreases 11 - k,
    {
        if slice_index_get(values, at + 4 + best).total_rank() <= slice_index_get(
            values,
            at + 4 + k,
        ).total_rank() {
            best = k;
        }
        k = k + 1;
    }
    best
}

/// Whether a shape is that of raw rows.
pub open spec fn is_raw_shape(shape: Seq<usize>) -> bool {
    shape.len() == 3 && shape[0] == 1 && shape[2] == 15
}

/// Decode raw `[x1, y1, x2, y2, class_scores...]` rows.
pub fn decode_raw_webgpu_candidates<L: ClassLabel>(
    shape: &[usize],
    values: &[F32],
    confidence_threshold: F32,
    image: &PageImage<'_>,
    letterbox: &Letterbox,
) -> (r: Result<Vec<DetectionCandidate<L>>, LayoutError>)
    requires
        is_raw_shape(shape@) ==> shape@[1] * 15 <= usize::MAX,
    ensures
        match r {
            Ok(candidates) => is_raw_shape(shape@) && values@.len() == shape@[1] * 15
                && are_candidates_for(
                candidates@,
                raw_rows(
                    values@,
                    decoding_for(confidence_threshold, *image, *letterbox),
                    top_rows(values@, confidence_threshold, shape@[1] as nat),
                ),
            ),
            Err(error) => error matches LayoutError::InvalidModelOutput(text) && if !is_raw_shape(
                shape@,
            ) {
                text@ == "expected [1, N, 15], got "@ + crate::text::decimal_list(shape@)
            } else {
                values@.len() != shape@[1] * 15 && text@ == "expected "@ + crate::text::decimal(
                    (shape@[1] * 15) as nat,
                ) + " raw values, got "@ + crate::text::decimal(values@.len())
            },
        },
{
    if shape.len() != 3 || *slice_index_get(shape, 0) != 1 || *slice_index_get(shape, 2)
        != LayoutLabel::class_count() + 4 {
        return Err(LayoutError::InvalidModelOutput(with_list("expected [1, N, 15], got ", shape)));
    }
    let row_count: usize = *slice_index_get(shape, 1);
    let len: usize = values.len();
    if len != row_count * 15 {
        let mut text: String = "expected ".to_owned();
        let wanted: String = to_decimal((row_count * 15) as u64);
        text.append(wanted.as_str());
        text.append(" raw values, got ");
        let got: String = to_decimal(len as u64);
        text.append(got.as_str());
        return Err(LayoutError::InvalidModelOutput(text));
    }
    let ghost d = decoding_for(confidence_threshold, *image, *letterbox);
    let mut scored: Vec<RankedRow> = Vec::new();
    let mut i: usize = 0;
    while i < row_count
        invariant
            i <= row_count,
            len == values@.len(),
            len == row_count * 15,
            scored@ == scored_rows(values@, confidence_threshold, i as nat),
            forall|k: int| 0 <= k < scored@.len() ==> (#[trigger] scored@[k]).row < i,
        decreases row_count - i,
    {
        let score: F32 = find_best_score(values, i * 15, Ghost(value_row(values@, 15, i as int)));
        if score.ge(confidence_threshold) {
            scored.push(RankedRow { score, row: i });
        }
        i = i + 1;
    }
    let ghost unordered = scored@;
    let ranked: Vec<RankedRow> = sort(scored);
    let ghost ordered = ranked@;
    proof {
        crate::sorting::sorting_permutes_into_order(unordered);
        assert forall|k: int| 0 <= k < ordered.len() implies (#[trigger] ordered[k]).row < row_count by {
            broadcast use vstd::seq_lib::group_to_multiset_ensures;

            assert(ordered.contains(ordered[k]));
            assert(unordered.to_multiset().count(ordered[k]) > 0);
            assert(unordered.contains(ordered[k]));
        }
    }
    let top: usize = if ranked.len() > 300 {
        300
    } else {
        ranked.len()
    };
    let mut candidates: Vec<DetectionCandidate<L>> = Vec::new();
    let mut j: usize = 0;
    assert(ordered.take(0) =~= Seq::empty());
    while j < top
        invariant
            j <= top <= ordered.len(),
            ordered == ranked@,
            len == values@.len(),
            len == row_count * 15,
            d == decoding_for(confidence_threshold, *image, *letterbox),
            forall|k: int| 0 <= k < ordered.len() ==> (#[trigger] ordered[k]).row < row_count,
            are_candidates_for(candidates@, raw_rows(values@, d, ordered.take(j as int))),
        decreases top - j,
    {
        assert(ordered.take(j + 1).drop_last() =~= ordered.take(j as int));
        let index: usize = ranked[j].row;
        assert(ordered[j as int].row < row_count);
        let at: usize = index * 15;
        let ghost row = value_row(values@, 15, index as int);
        let class_id: usize = find_best_class(values, at, Ghost(row));
        let confidence: F32 = *slice_index_get(values, at + 4 + class_id);
        let corners: (F32, F32, F32, F32) = (
            *slice_index_get(values, at),
            *slice_index_get(values, at + 1),
            *slice_index_get(values, at + 2),
            *slice_index_get(values, at + 3),
        );
        let decoded: Option<DetectionCandidate<L>> = decode_row(
            corners,
            class_id,
            confidence,
            confidence_threshold,
            image,
            letterbox,
            Ghost(row),
        );
        match decoded {
            Some(c) => {
                candidates.push(c);
            },
            None => {},
        }
        j = j + 1;
    }
    assert(ordered.take(top as int) =~= top_rows(values@, confidence_threshold, row_count as nat));
    Ok(candidates)
}

/// The model's input for an image.
pub fn prepare_input(image: &PageImage<'_>, image_size: u32) -> (r: Result<
    (Vec<F32>, Letterbox),
    LayoutError,
>)
    requires
        super::preprocess::rgb_length(image.width, image.height) <= usize::MAX,
        image_size == MODEL_IMAGE_SIZE && image.rgb@.len() == super::preprocess::rgb_length(
            image.width,
            image.height,
        ) ==> super::preprocess::is_sampled_inside(image.width, image.height, MODEL_IMAGE_SIZE),
    ensures
        match r {
            Ok((input, letterbox)) => {
                &&& image_size == MODEL_IMAGE_SIZE
                &&& image.rgb@.len() == super::preprocess::rgb_length(image.width, image.height)
                &&& letterbox == super::preprocess::letterbox_of(
                    image.width,
                    image.height,
                    MODEL_IMAGE_SIZE,
                )
                &&& input@ == super::preprocess::input_tensor(image.rgb@, letterbox, 3)
            },
            Err(error) => if image_size != MODEL_IMAGE_SIZE {
                error == (LayoutError::UnsupportedImageSize {
                    expected: MODEL_IMAGE_SIZE,
                    actual: image_size,
                })
            } else {
                image.rgb@.len() != super::preprocess::rgb_length(image.width, image.height)
                    && error == (LayoutError::InvalidImageBuffer {
                    expected: super::preprocess::rgb_length(image.width, image.height) as usize,
                    actual: image.rgb@.len() as usize,
                })
            },
        },
{
    if image_size != MODEL_IMAGE_SIZE {
        return Err(
            LayoutError::UnsupportedImageSize { expected: MODEL_IMAGE_SIZE, actual: image_size },
        );
    }
    proof {
        super::preprocess::small_targets_always_fit(image.width, image.height, MODEL_IMAGE_SIZE);
    }
    letterbox_rgb_to_chw_f32(image, MODEL_IMAGE_SIZE)
}

/// Whether all the confidences of processed rows are numbers.
pub open spec fn confidences_are_numbers(values: Seq<F32>) -> bool {
    forall|i: int| 0 <= i < values.len() / 6 ==> !(#[trigger] value_row(values, 6, i))[4].nan()
}

proof fn lemma_processed_confidences(values: Seq<F32>, d: Decoding, n: nat)
    requires
        confidences_are_numbers(values),
        n <= values.len() / 6,
    ensures
        forall|i: int|
            0 <= i < processed_rows(values, d, n).len() ==> !(#[trigger] processed_rows(
                values,
                d,
                n,
            )[i]).confidence.nan(),
    decreases n,
{
    if n > 0 {
        lemma_processed_confidences(values, d, (n - 1) as nat);
        assert(!value_row(values, 6, n - 1)[4].nan());
        let before = processed_rows(values, d, (n - 1) as nat);
        let all = processed_rows(values, d, n);
        assert forall|i: int| 0 <= i < all.len() implies !(#[trigger] all[i]).confidence.nan() by {
            if i < before.len() {
                assert(all[i] == before[i]);
            }
        }
    }
}

/// Whether a result is what the model's processed output stands for: an output of the expected
/// shape gives the candidates that are kept of those that its rows describe.
pub open spec fn is_output_result<L: ClassLabel>(
    shape: Seq<usize>,
    values: Seq<F32>,
    d: Decoding,
    iou_threshold: F32,
    r: Result<Vec<LayoutDetection<L>>, LayoutError>,
) -> bool {
    match r {
        Ok(detections) => shape == seq![1usize, 300, 6] && exists|c: Seq<DetectionCandidate<L>>|
            are_candidates_for(c, processed_rows(values, d, values.len() / 6)) && detections@
                == super::postprocess::detections_of(
                #[trigger] super::postprocess::kept_candidates(c, iou_threshold),
            ),
        Err(error) => shape != seq![1usize, 300, 6] && (error matches LayoutError::InvalidModelOutput(
            text,
        ) && text@ == "expected [1, 300, 6], got "@ + crate::text::decimal_list(shape)),
    }
}

/// The detections that the model's processed output stands for.
pub fn detections_from_output<L: ClassLabel>(
    shape: &[usize],
    values: &[F32],
    confidence_threshold: F32,
    iou_threshold: F32,
    image: &PageImage<'_>,
    letterbox: &Letterbox,
) -> (r: Result<Vec<LayoutDetection<L>>, LayoutError>)
    requires
        shape@ == seq![1usize, 300, 6] ==> confidences_are_numbers(values@),
    ensures
        is_output_result(
            shape@,
            values@,
            decoding_for(confidence_threshold, *image, *letterbox),
            iou_threshold,
            r,
        ),
{
    let decoded: Result<Vec<DetectionCandidate<L>>, LayoutError> = decode_processed_candidates(
        shape,
        values,
        confidence_threshold,
        image,
        letterbox,
    );
    match decoded {
        Ok(candidates) => {
            proof {
                let d = decoding_for(confidence_threshold, *image, *letterbox);
                lemma_processed_confidences(values@, d, values@.len() / 6);
                assert forall|i: int| 0 <= i < candidates@.len() implies !(
                #[trigger] candidates@[i]).confidence.nan() by {
                    let rows = processed_rows(values@, d, values@.len() / 6);
                    assert(is_candidate_for(candidates@[i], rows[i]));
                    assert(!rows[i].confidence.nan());
                }
            }
            Ok(non_max_suppression(candidates, iou_threshold))
        },
        Err(error) => Err(error),
    }
}

/// Whether all the class scores of raw rows are numbers.
pub open spec fn scores_are_numbers(values: Seq<F32>) -> bool {
    forall|i: int, k: int|
        0 <= i < values.len() / 15 && 4 <= k < 15 ==> !(#[trigger] value_row(
            values,
            15,
            i,
        )[k]).nan()
}

proof fn lemma_best_class(row: Seq<F32>, n: nat)
    ensures
        0 <= best_class(row, n),
        n > 0 ==> best_class(row, n) < n,
    decreases n,
{
    if n > 1 {
        lemma_best_class(row, (n - 1) as nat);
    }
}

proof fn lemma_scored_rows(values: Seq<F32>, threshold: F32, n: nat)
    requires
        n <= usize::MAX,
    ensures
        forall|i: int|
            0 <= i < scored_rows(values, threshold, n).len() ==> (#[trigger] scored_rows(
                values,
                threshold,
                n,
            )[i]).row < n,
    decreases n,
{
    if n > 0 {
        lemma_scored_rows(values, threshold, (n - 1) as nat);
        let before = scored_rows(values, threshold, (n - 1) as nat);
        let all = scored_rows(values, threshold, n);
        assert forall|i: int| 0 <= i < all.len() implies (#[trigger] all[i]).row < n by {
            if i < before.len() {
                assert(all[i] == before[i]);
            }
        }
    }
}

proof fn lemma_top_rows(values: Seq<F32>, threshold: F32, n: nat)
    requires
        n <= usize::MAX,
    ensures
        forall|i: int|
            0 <= i < top_rows(values, threshold, n).len() ==> (#[trigger] top_rows(
                values,
                threshold,
                n,
            )[i]).row < n,
{
    broadcast use vstd::seq_lib::group_to_multiset_ensures;

    let scored = scored_rows(values, threshold, n);
    let ordered = crate::sorting::sorted(scored);
    lemma_scored_rows(values, threshold, n);
    crate::sorting::sorting_permutes_into_order(scored);
    let top = top_rows(values, threshold, n);
    assert forall|i: int| 0 <= i < top.len() implies (#[trigger] top[i]).row < n by {
        assert(top[i] == ordered[i]);
        assert(ordered.contains(ordered[i]));
        assert(ordered.to_multiset().count(ordered[i]) > 0);
        assert(scored.contains(ordered[i]));
        let k = choose|k: int| 0 <= k < scored.len() && scored[k] == ordered[i];
        assert(scored[k].row < n);
    }
}

proof fn lemma_raw_confidences(values: Seq<F32>, d: Decoding, ranked: Seq<RankedRow>)
    requires
        scores_are_numbers(values),
        forall|k: int|
            0 <= k < ranked.len() ==> (#[trigger] ranked[k]).row * 15 + 15 <= values.len(),
    ensures
        forall|i: int|
            0 <= i < raw_rows(values, d, ranked).len() ==> !(#[trigger] raw_rows(
                values,
                d,
                ranked,
            )[i]).confidence.nan(),
    decreases ranked.len(),
{
    if ranked.len() > 0 {
        let rest = ranked.drop_last();
        assert forall|k: int| 0 <= k < rest.len() implies (#[trigger] rest[k]).row * 15 + 15
            <= values.len() by {
            assert(rest[k] == ranked[k]);
        }
        lemma_raw_confidences(values, d, rest);
        let r = ranked[ranked.len() - 1].row as int;
        let row = value_row(values, 15, r);
        lemma_best_class(row, 11);
        let class = best_class(row, 11);
        assert(!row[4 + class].nan());
        let before = raw_rows(values, d, rest);
        let all = raw_rows(values, d, ranked);
        assert forall|i: int| 0 <= i < all.len() implies !(#[trigger] all[i]).confidence.nan() by {
            if i < before.len() {
                assert(all[i] == before[i]);
            }
        }
    }
}

/// Whether a result is what the model's raw output stands for.
pub open spec fn is_raw_result<L: ClassLabel>(
    shape: Seq<usize>,
    values: Seq<F32>,
    d: Decoding,
    iou_threshold: F32,
    r: Result<Vec<LayoutDetection<L>>, LayoutError>,
) -> bool {
    match r {
        Ok(detections) => is_raw_shape(shape) && values.len() == shape[1] * 15 && exists|c: Seq<DetectionCandidate<L>>|
            are_candidates_for(
                c,
                raw_rows(values, d, top_rows(values, d.threshold, shape[1] as nat)),
            ) && detections@ == super::postprocess::detections_of(
                #[trigger] super::postprocess::kept_candidates(c, iou_threshold),
            ),
        Err(error) => error matches LayoutError::InvalidModelOutput(text) && if !is_raw_shape(shape) {
            text@ == "expected [1, N, 15], got "@ + crate::text::decimal_list(shape)
        } else {
            values.len() != shape[1] * 15 && text@ == "expected "@ + crate::text::decimal(
                (shape[1] * 15) as nat,
            ) + " raw values, got "@ + crate::text::decimal(values.len())
        },
    }
}

/// The detections that the model's raw output stands for.
pub fn detections_from_raw_output<L: ClassLabel>(
    shape: &[usize],
    values: &[F32],
    confidence_threshold: F32,
    iou_threshold: F32,
    image: &PageImage<'_>,
    letterbox: &Letterbox,
) -> (r: Result<Vec<LayoutDetection<L>>, LayoutError>)
    requires
        is_raw_shape(shape@) ==> shape@[1] * 15 <= usize::MAX,
        is_raw_shape(shape@) && values@.len() == shape@[1] * 15 ==> scores_are_numbers(values@),
    ensures
        is_raw_result(
            shape@,
            values@,
            decoding_for(confidence_threshold, *image, *letterbox),
            iou_threshold,
            r,
        ),
{
    let decoded: Result<Vec<DetectionCandidate<L>>, LayoutError> = decode_raw_webgpu_candidates(
        shape,
        values,
        confidence_threshold,
        image,
        letterbox,
    );
    match decoded {
        Ok(candidates) => {
            proof {
                let d = decoding_for(confidence_threshold, *image, *letterbox);
                let n = shape@[1] as nat;
                let ranked = top_rows(values@, confidence_threshold, n);
                lemma_top_rows(values@, confidence_threshold, n);
                assert forall|k: int| 0 <= k < ranked.len() implies (#[trigger] ranked[k]).row * 15
                    + 15 <= values@.len() by {
                    assert(ranked[k].row < n);
                }
                lemma_raw_confidences(values@, d, ranked);
                let rows = raw_rows(values@, d, ranked);
                assert forall|i: int| 0 <= i < candidates@.len() implies !(
                #[trigger] candidates@[i]).confidence.nan() by {
                    assert(is_candidate_for(candidates@[i], rows[i]));
                    assert(!rows[i].confidence.nan());
                }
            }
            Ok(non_max_suppression(candidates, iou_threshold))
        },
        Err(error) => Err(error),
    }
}

/// Whether a result is what a model's output for an image stands for. The model may also fail.
pub open spec fn is_inferred_result<L: ClassLabel>(
    output: Result<(Vec<usize>, Vec<F32>), String>,
    d: Decoding,
    iou_threshold: F32,
    r: Result<Vec<LayoutDetection<L>>, LayoutError>,
) -> bool {
    match output {
        Ok((shape, values)) => is_output_result(shape@, values@, d, iou_threshold, r),
        Err(problem) => r matches Err(LayoutError::InvalidModelOutput(text)) && text == problem,
    }
}

/// Whether a result is what `infer` gives for the input that an image makes.
pub open spec fn is_detect_result<L: ClassLabel, M>(
    image: PageImage<'_>,
    confidence_threshold: F32,
    iou_threshold: F32,
    infer: M,
    r: Result<Vec<LayoutDetection<L>>, LayoutError>,
) -> bool where M: Fn(Vec<F32>) -> Result<(Vec<usize>, Vec<F32>), String> {
    let letterbox = super::preprocess::letterbox_of(image.width, image.height, MODEL_IMAGE_SIZE);
    exists|input: Vec<F32>, output: Result<(Vec<usize>, Vec<F32>), String>|
        {
            &&& input@ == super::preprocess::input_tensor(image.rgb@, letterbox, 3)
            &&& #[trigger] call_ensures(infer, (input,), output)
            &&& is_inferred_result(
                output,
                decoding_for(confidence_threshold, image, letterbox),
                iou_threshold,
                r,
            )
        }
}

/// Detect layout candidates from one page image: the image becomes the model's input, `infer` runs
/// the model, and its output is decoded.
pub fn detect<L: ClassLabel, M>(
    image: &PageImage<'_>,
    confidence_threshold: F32,
    iou_threshold: F32,
    image_size: u32,
    infer: &M,
) -> (r: Result<Vec<LayoutDetection<L>>, LayoutError>) where
    M: Fn(Vec<F32>) -> Result<(Vec<usize>, Vec<F32>), String>,

    requires
        super::preprocess::rgb_length(image.width, image.height) <= usize::MAX,
        image_size == MODEL_IMAGE_SIZE && image.rgb@.len() == super::preprocess::rgb_length(
            image.width,
            image.height,
        ) ==> super::preprocess::is_sampled_inside(image.width, image.height, MODEL_IMAGE_SIZE),
        forall|input: Vec<F32>| call_requires(*infer, (input,)),
        forall|input: Vec<F32>, shape: Vec<usize>, values: Vec<F32>|
            #[trigger] call_ensures(*infer, (input,), Ok((shape, values))) && shape@
                == seq![1usize, 300, 6] ==> confidences_are_numbers(values@),
    ensures
        if image_size != MODEL_IMAGE_SIZE {
            r == Err::<Vec<LayoutDetection<L>>, LayoutError>(
                LayoutError::UnsupportedImageSize { expected: MODEL_IMAGE_SIZE, actual: image_size },
            )
        } else if image.rgb@.len() != super::preprocess::rgb_length(image.width, image.height) {
            r == Err::<Vec<LayoutDetection<L>>, LayoutError>(
                LayoutError::InvalidImageBuffer {
                    expected: super::preprocess::rgb_length(image.width, image.height) as usize,
                    actual: image.rgb@.len() as usize,
                },
            )
        } else {
            is_detect_result(*image, confidence_threshold, iou_threshold, *infer, r)
        },
{
    let (input, letterbox) = match prepare_input(image, image_size) {
        Ok(prepared) => prepared,
        Err(error) => {
            return Err(error);
        },
    };
    let ghost given = input;
    let output: Result<(Vec<usize>, Vec<F32>), String> = infer(input);
    let ghost inferred = output;
    assert(call_ensures(*infer, (given,), inferred));
    match output {
        Ok((shape, values)) => {
            assert(call_ensures(*infer, (given,), Ok((shape, values))));
            detections_from_output(
                shape.as_slice(),
                values.as_slice(),
                confidence_threshold,
                iou_threshold,
                image,
                &letterbox,
            )
        },
        Err(problem) => Err(LayoutError::InvalidModelOutput(problem)),
    }
}

/// Whether a row counts, given its class and its confidence: the confidence reaches the threshold,
/// there is such a class, and the box from the first corner to the second is empty neither in the
/// input nor on the page.
pub open spec fn row_counts(row: Seq<F32>, class: int, confidence: F32, d: Decoding) -> bool {
    let zero = F32 { bits: 0 };
    let (width, height) = (row[2].minus(row[0]), row[3].minus(row[1]));
    let page = super::postprocess::restored_box(
        row[0],
        row[1],
        width,
        height,
        d.letterbox,
        d.page_width,
        d.page_height,
    );
    &&& d.threshold.at_most(confidence)
    &&& 0 <= class < 11
    &&& zero.less(width)
    &&& zero.less(height)
    &&& zero.less(page.2)
    &&& zero.less(page.3)
}

/// Whether what was found is what a row describes: its class, its confidence, and the box from
/// the first corner to the second, brought to the page.
pub open spec fn describes(row: Seq<F32>, class: int, confidence: F32, d: Decoding, f: Found) -> bool {
    &&& f.class == class
    &&& f.confidence == confidence
    &&& (f.x, f.y, f.width, f.height) == super::postprocess::restored_box(
        row[0],
        row[1],
        row[2].minus(row[0]),
        row[3].minus(row[1]),
        d.letterbox,
        d.page_width,
        d.page_height,
    )
}

/// Whether a row and what it is decoded with are numbers, as far as decoding compares them.
pub open spec fn is_decodable(row: Seq<F32>, confidence: F32, d: Decoding) -> bool {
    let page = super::postprocess::restored_box(
        row[0],
        row[1],
        row[2].minus(row[0]),
        row[3].minus(row[1]),
        d.letterbox,
        d.page_width,
        d.page_height,
    );
    &&& !confidence.nan() && !d.threshold.nan()
    &&& !row[2].minus(row[0]).nan() && !row[3].minus(row[1]).nan()
    &&& !page.2.nan() && !page.3.nan()
}

/// A row gives what it describes if it counts, and nothing otherwise.
pub proof fn rows_give_what_they_describe(
    row: Seq<F32>,
    class: int,
    confidence: F32,
    d: Decoding,
)
    requires
        is_decodable(row, confidence, d),
        0 <= class,
    ensures
        match row_found(row, class, confidence, d) {
            Some(f) => row_counts(row, class, confidence, d) && describes(
                row,
                class,
                confidence,
                d,
                f,
            ),
            None => !row_counts(row, class, confidence, d),
        },
{
    let zero = F32 { bits: 0 };
    let (w, h) = (row[2].minus(row[0]), row[3].minus(row[1]));
    assert(zero.less(w) ==> w.greater(zero) == w);
    assert(zero.less(h) ==> h.greater(zero) == h);
    assert(!zero.less(w) ==> w.greater(zero).at_most(zero));
    assert(!zero.less(h) ==> h.greater(zero).at_most(zero));
}

/// Whether the `k`th processed row counts, with the class that it names.
#[verifier::opaque]
pub open spec fn counts_at(values: Seq<F32>, d: Decoding, k: int) -> bool {
    let row = value_row(values, 6, k);
    exists|class: int| #[trigger] is_class_of(row[5], class) && row_counts(row, class, row[4], d)
}

/// Whether what was found is what the `k`th processed row describes, with the class that it names.
#[verifier::opaque]
pub open spec fn describes_at(values: Seq<F32>, d: Decoding, k: int, f: Found) -> bool {
    let row = value_row(values, 6, k);
    exists|class: int| #[trigger] is_class_of(row[5], class) && describes(row, class, row[4], d, f)
}

/// Whether what was found comes from the rows at the given indices, which ascend: each is what its
/// row describes, and these are all the rows that count.
pub open spec fn come_from_rows(
    found: Seq<Found>,
    indices: Seq<int>,
    values: Seq<F32>,
    d: Decoding,
    n: nat,
) -> bool {
    &&& found.len() == indices.len()
    &&& forall|i: int| 0 <= i < indices.len() ==> 0 <= #[trigger] indices[i] < n
    &&& forall|i: int, j: int|
        0 <= i < j < indices.len() ==> (#[trigger] indices[i]) < (#[trigger] indices[j])
    &&& forall|i: int|
        0 <= i < indices.len() ==> describes_at(values, d, #[trigger] indices[i], found[i])
    &&& forall|k: int| 0 <= k < n ==> (indices.contains(k) <==> #[trigger] counts_at(values, d, k))
}

/// Whether a number is nearest to the number of a class, or halfway to the one before it.
pub open spec fn is_class_of(v: F32, class: int) -> bool {
    &&& v.finite() && !v.negative()
    &&& 0 <= class
    &&& (2 * class - 1) * pow2(149) <= 2 * v.units() < (2 * class + 1) * pow2(149)
}

proof fn lemma_class(v: F32, class: int)
    requires
        v.finite(),
        !v.negative(),
        v.round_int() <= usize::MAX,
    ensures
        is_class_of(v, class) <==> class == v.as_usize(v.round_int()),
{
    let n = v.round_int();
    crate::float::exact::integers_follow_the_bounds(v, n as nat);
    crate::float::exact::integers_follow_the_bounds(v, (n + 1) as nat);
    assert(is_class_of(v, n));
    if is_class_of(v, class) {
        crate::float::exact::integers_follow_the_bounds(v, class as nat);
        crate::float::exact::integers_follow_the_bounds(v, (class + 1) as nat);
    }
}

/// Whether processed rows hold numbers, as far as decoding reads them, and classes that can be
/// counted.
pub open spec fn are_decodable(values: Seq<F32>, d: Decoding, n: nat) -> bool {
    forall|i: int|
        0 <= i < n ==> {
            let row = #[trigger] value_row(values, 6, i);
            &&& is_decodable(row, row[4], d)
            &&& row[5].finite() && !row[5].negative() && row[5].round_int() <= usize::MAX
        }
}

proof fn lemma_processed_row(values: Seq<F32>, d: Decoding, k: int)
    requires
        are_decodable(values, d, (k + 1) as nat),
        k >= 0,
    ensures
        match processed_found(value_row(values, 6, k), d) {
            Some(f) => counts_at(values, d, k) && describes_at(values, d, k, f),
            None => !counts_at(values, d, k),
        },
{
    reveal(counts_at);
    reveal(describes_at);
    let row = value_row(values, 6, k);
    let class = row[5].as_usize(row[5].round_int()) as int;
    lemma_class(row[5], class);
    rows_give_what_they_describe(row, class, row[4], d);
    assert(is_class_of(row[5], class));
    if counts_at(values, d, k) {
        let c = choose|c: int| #[trigger] is_class_of(row[5], c) && row_counts(row, c, row[4], d);
        lemma_class(row[5], c);
    }
}

/// Decoding processed rows gives, in their order, what the rows that count describe: the corners
/// come first, then the confidence, then the class.
pub proof fn decoding_keeps_the_rows_that_count(values: Seq<F32>, d: Decoding, n: nat) -> (indices:
    Seq<int>)
    requires
        are_decodable(values, d, n),
    ensures
        come_from_rows(processed_rows(values, d, n), indices, values, d, n),
    decreases n,
{
    if n == 0 {
        Seq::empty()
    } else {
        let m = (n - 1) as nat;
        assert(are_decodable(values, d, m));
        let before = decoding_keeps_the_rows_that_count(values, d, m);
        lemma_processed_row(values, d, n - 1);
        let old = processed_rows(values, d, m);
        let new = processed_rows(values, d, n);
        let now = if processed_found(value_row(values, 6, n - 1), d) is Some {
            before.push(n - 1)
        } else {
            before
        };
        assert forall|i: int| 0 <= i < now.len() implies describes_at(
            values,
            d,
            #[trigger] now[i],
            new[i],
        ) by {
            if i < before.len() {
                assert(now[i] == before[i] && new[i] == old[i]);
            }
        }
        assert forall|k: int| 0 <= k < n implies (now.contains(k) <==> #[trigger] counts_at(
            values,
            d,
            k,
        )) by {
            if k < m {
                assert(before.contains(k) <==> counts_at(values, d, k));
                if before.contains(k) {
                    let i = choose|i: int| 0 <= i < before.len() && before[i] == k;
                    assert(now[i] == k);
                }
                if now.contains(k) {
                    let i = choose|i: int| 0 <= i < now.len() && now[i] == k;
                    assert(before[i] == k);
                }
            } else if counts_at(values, d, k) {
                assert(now[now.len() - 1] == k);
            } else if now.contains(k) {
                let i = choose|i: int| 0 <= i < now.len() && now[i] == k;
                assert(before[i] == k);
            }
        }
        now
    }
}

proof fn lemma_best_class_max(row: Seq<F32>, n: nat)
    requires
        n > 0,
        forall|k: int| 0 <= k < n ==> !(#[trigger] row[4 + k]).nan(),
    ensures
        0 <= best_class(row, n) < n,
        forall|k: int| 0 <= k < n ==> (#[trigger] row[4 + k]).at_most(row[4 + best_class(row, n)]),
        best_score(row, n).equals(row[4 + best_class(row, n)]),
    decreases n,
{
    reveal_with_fuel(best_score, 2);
    assert(!row[4 + (n - 1)].nan());
    if n > 1 {
        let m = (n - 1) as nat;
        assert forall|k: int| 0 <= k < m implies !(#[trigger] row[4 + k]).nan() by {}
        lemma_best_class_max(row, m);
        assert(!row[4 + best_class(row, m)].nan());
    } else {
        assert(row[4].at_most(row[4]));
    }
}

/// The class of a raw row is one with the greatest score, and that is the row's best score.
pub proof fn raw_rows_take_the_best_class(row: Seq<F32>)
    requires
        forall|k: int| 0 <= k < 11 ==> !(#[trigger] row[4 + k]).nan(),
    ensures
        0 <= best_class(row, 11) < 11,
        forall|k: int| 0 <= k < 11 ==> (#[trigger] row[4 + k]).at_most(row[4 + best_class(row, 11)]),
        best_score(row, 11).equals(row[4 + best_class(row, 11)]),
{
    lemma_best_class_max(row, 11);
}

proof fn lemma_scored(values: Seq<F32>, threshold: F32, n: nat)
    requires
        n <= usize::MAX,
    ensures
        forall|i: int|
            0 <= i < scored_rows(values, threshold, n).len() ==> {
                let r = #[trigger] scored_rows(values, threshold, n)[i];
                &&& r.row < n
                &&& r.score == best_score(value_row(values, 15, r.row as int), 11)
                &&& threshold.at_most(r.score)
            },
        forall|k: int|
            0 <= k < n && threshold.at_most(best_score(#[trigger] value_row(values, 15, k), 11))
                ==> scored_rows(values, threshold, n).contains(
                (RankedRow { score: best_score(value_row(values, 15, k), 11), row: k as usize }),
            ),
    decreases n,
{
    if n > 0 {
        let m = (n - 1) as nat;
        let (before, all) = (scored_rows(values, threshold, m), scored_rows(values, threshold, n));
        lemma_scored(values, threshold, m);
        assert forall|i: int| 0 <= i < all.len() implies {
            let r = #[trigger] all[i];
            &&& r.row < n
            &&& r.score == best_score(value_row(values, 15, r.row as int), 11)
            &&& threshold.at_most(r.score)
        } by {
            if i < before.len() {
                assert(all[i] == before[i]);
            }
        }
        assert forall|k: int|
            0 <= k < n && threshold.at_most(
                best_score(#[trigger] value_row(values, 15, k), 11),
            ) implies all.contains(
            (RankedRow { score: best_score(value_row(values, 15, k), 11), row: k as usize }),
        ) by {
            let r = RankedRow { score: best_score(value_row(values, 15, k), 11), row: k as usize };
            if k < m {
                let i = choose|i: int| 0 <= i < before.len() && before[i] == r;
                assert(all[i] == r);
            } else {
                assert(all[all.len() - 1] == r);
            }
        }
    }
}

/// The raw rows that are decoded are the best ones, at most three hundred: each reaches the
/// threshold, the better ones come first, and a row that reaches the threshold is left out only
/// where three hundred rows are there that are as good at least.
pub proof fn the_best_raw_rows_are_decoded(values: Seq<F32>, threshold: F32, n: nat)
    requires
        n <= usize::MAX,
    ensures
        ({
            let top = top_rows(values, threshold, n);
            &&& top.len() <= 300
            &&& forall|i: int|
                0 <= i < top.len() ==> {
                    let r = #[trigger] top[i];
                    &&& r.row < n
                    &&& r.score == best_score(value_row(values, 15, r.row as int), 11)
                    &&& threshold.at_most(r.score)
                }
            &&& forall|i: int, j: int|
                0 <= i < j < top.len() ==> (#[trigger] top[j]).score.at_most(
                    (#[trigger] top[i]).score,
                )
            &&& forall|k: int|
                0 <= k < n && threshold.at_most(
                    best_score(#[trigger] value_row(values, 15, k), 11),
                ) ==> {
                    let score = best_score(value_row(values, 15, k), 11);
                    ||| exists|i: int| 0 <= i < top.len() && (#[trigger] top[i]).row == k
                    ||| top.len() == 300 && forall|i: int|
                        0 <= i < top.len() ==> score.at_most((#[trigger] top[i]).score)
                }
        }),
{
    let scored = scored_rows(values, threshold, n);
    let ordered = crate::sorting::sorted(scored);
    let top = top_rows(values, threshold, n);
    lemma_scored(values, threshold, n);
    crate::sorting::sorting_permutes_into_order(scored);
    crate::permutations::lemma_same_elements(ordered, scored);
    assert forall|i: int| 0 <= i < ordered.len() implies {
        let r = #[trigger] ordered[i];
        &&& r.row < n
        &&& r.score == best_score(value_row(values, 15, r.row as int), 11)
        &&& threshold.at_most(r.score)
    } by {
        assert(ordered.contains(ordered[i]));
        let k = choose|k: int| 0 <= k < scored.len() && scored[k] == ordered[i];
        assert(threshold.at_most(scored[k].score));
    }
    assert forall|i: int, j: int| 0 <= i <= j < ordered.len() implies (
    #[trigger] ordered[j]).score.at_most((#[trigger] ordered[i]).score) by {
        assert(ordered[i].key().at_most(ordered[j].key()));
        assert(threshold.at_most(ordered[i].score) && threshold.at_most(ordered[j].score));
    }
    assert forall|i: int| 0 <= i < top.len() implies #[trigger] top[i] == ordered[i] by {}
    assert forall|k: int|
        0 <= k < n && threshold.at_most(
            best_score(#[trigger] value_row(values, 15, k), 11),
        ) implies {
        let score = best_score(value_row(values, 15, k), 11);
        ||| exists|i: int| 0 <= i < top.len() && (#[trigger] top[i]).row == k
        ||| top.len() == 300 && forall|i: int|
            0 <= i < top.len() ==> score.at_most((#[trigger] top[i]).score)
    } by {
        let r = RankedRow { score: best_score(value_row(values, 15, k), 11), row: k as usize };
        assert(scored.contains(r));
        assert(ordered.contains(r));
        let j = choose|j: int| 0 <= j < ordered.len() && ordered[j] == r;
        if j < top.len() {
            assert(top[j].row == k);
        } else {
            assert forall|i: int| 0 <= i < top.len() implies r.score.at_most(
                (#[trigger] top[i]).score,
            ) by {
                assert(ordered[j].score.at_most(ordered[i].score));
            }
        }
    }
}

/// Of the ranked raw rows, those that count give what they describe, with the class of the best
/// score; nothing else is found.
pub proof fn raw_rows_give_what_they_describe(values: Seq<F32>, d: Decoding, ranked: Seq<RankedRow>)
    requires
        forall|j: int| 0 <= j < ranked.len() ==> is_raw_decodable(values, d, #[trigger] ranked[j]),
    ensures
        forall|j: int|
            0 <= j < ranked.len() && raw_row_counts(values, d, #[trigger] ranked[j])
                ==> is_found(values, d, ranked[j], raw_rows(values, d, ranked)),
        forall|i: int|
            0 <= i < raw_rows(values, d, ranked).len() ==> comes_from_one(
                values,
                d,
                ranked,
                #[trigger] raw_rows(values, d, ranked)[i],
            ),
    decreases ranked.len(),
{
    if ranked.len() > 0 {
        let rest = ranked.drop_last();
        let (before, all) = (raw_rows(values, d, rest), raw_rows(values, d, ranked));
        let n = ranked.len() - 1;
        assert forall|j: int| 0 <= j < rest.len() implies is_raw_decodable(
            values,
            d,
            #[trigger] rest[j],
        ) by {
            assert(rest[j] == ranked[j]);
        }
        raw_rows_give_what_they_describe(values, d, rest);
        assert(is_raw_decodable(values, d, ranked[n]));
        lemma_raw_row(values, d, ranked[n]);
        assert forall|j: int|
            0 <= j < ranked.len() && raw_row_counts(
                values,
                d,
                #[trigger] ranked[j],
            ) implies is_found(values, d, ranked[j], all) by {
            if j < n {
                assert(rest[j] == ranked[j]);
                let i = choose|i: int|
                    0 <= i < before.len() && raw_row_describes(
                        values,
                        d,
                        rest[j],
                        #[trigger] before[i],
                    );
                assert(all[i] == before[i]);
            } else {
                assert(raw_row_describes(values, d, ranked[j], all[all.len() - 1]));
            }
        }
        assert forall|i: int| 0 <= i < all.len() implies comes_from_one(
            values,
            d,
            ranked,
            #[trigger] all[i],
        ) by {
            if i < before.len() {
                assert(all[i] == before[i]);
                let j = choose|j: int|
                    0 <= j < rest.len() && raw_row_counts(values, d, #[trigger] rest[j])
                        && raw_row_describes(values, d, rest[j], before[i]);
                assert(rest[j] == ranked[j]);
            } else {
                assert(raw_row_counts(values, d, ranked[n]));
            }
        }
    }
}

/// Whether what a ranked raw row describes is among what was found.
pub open spec fn is_found(values: Seq<F32>, d: Decoding, r: RankedRow, found: Seq<Found>) -> bool {
    exists|i: int| 0 <= i < found.len() && raw_row_describes(values, d, r, #[trigger] found[i])
}

/// Whether what was found is what one of the ranked raw rows describes, one that counts.
pub open spec fn comes_from_one(
    values: Seq<F32>,
    d: Decoding,
    ranked: Seq<RankedRow>,
    f: Found,
) -> bool {
    exists|j: int|
        0 <= j < ranked.len() && raw_row_counts(values, d, #[trigger] ranked[j])
            && raw_row_describes(values, d, ranked[j], f)
}

/// Whether a ranked raw row holds numbers, as far as decoding reads them.
#[verifier::opaque]
pub open spec fn is_raw_decodable(values: Seq<F32>, d: Decoding, r: RankedRow) -> bool {
    let row = value_row(values, 15, r.row as int);
    is_decodable(row, row[4 + best_class(row, 11)], d)
}

/// Whether a ranked raw row counts, with the class of its best score.
#[verifier::opaque]
pub open spec fn raw_row_counts(values: Seq<F32>, d: Decoding, r: RankedRow) -> bool {
    let row = value_row(values, 15, r.row as int);
    let class = best_class(row, 11);
    row_counts(row, class, row[4 + class], d)
}

/// Whether what was found is what a ranked raw row describes, with the class of its best score.
#[verifier::opaque]
pub open spec fn raw_row_describes(values: Seq<F32>, d: Decoding, r: RankedRow, f: Found) -> bool {
    let row = value_row(values, 15, r.row as int);
    let class = best_class(row, 11);
    describes(row, class, row[4 + class], d, f)
}

proof fn lemma_raw_row(values: Seq<F32>, d: Decoding, r: RankedRow)
    requires
        is_raw_decodable(values, d, r),
    ensures
        match raw_found(value_row(values, 15, r.row as int), d) {
            Some(f) => raw_row_counts(values, d, r) && raw_row_describes(values, d, r, f),
            None => !raw_row_counts(values, d, r),
        },
{
    reveal(raw_row_counts);
    reveal(raw_row_describes);
    reveal(is_raw_decodable);
    let row = value_row(values, 15, r.row as int);
    let class = best_class(row, 11);
    lemma_best_class(row, 11);
    rows_give_what_they_describe(row, class, row[4 + class], d);
}

} // verus!
