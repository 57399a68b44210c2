//! Page-image validation and YOLO input preprocessing.
use super::error::LayoutError;
use super::types::PageImage;
use crate::float::F32;
use vstd::arithmetic::power2::{lemma2_to64, lemma_pow2_adds, lemma_pow2_pos, pow2};
use vstd::prelude::*;
use vstd::slice::*;

verus! {

/// Letterbox metadata for resizing a page image into the square YOLO input.
///
/// The detector expects a fixed square image. The resize keeps the original
/// page aspect ratio, centers the resized image, and records the scale/padding
/// so postprocessing can map detections back into PDF page coordinates.
#[derive(Clone, Copy, Debug, PartialEq)]
pub struct Letterbox {
    /// Source image width in pixels.
    pub input_width: u32,
    /// Source image height in pixels.
    pub input_height: u32,
    /// Square model input size in pixels.
    pub target_size: u32,
    /// Width after aspect-ratio-preserving resize.
    pub resized_width: u32,
    /// Height after aspect-ratio-preserving resize.
    pub resized_height: u32,
    /// Resize factor from source image pixels into model pixels.
    pub scale: F32,
    /// Horizontal padding added on each side of the resized image.
    pub pad_x: F32,
    /// Vertical padding added on each side of the resized image.
    pub pad_y: F32,
}

/// The factor that brings the longer side of an image to the target size.
pub open spec fn fit_scale(width: u32, height: u32, target: u32) -> F32 {
    let t = F32::from_nat(target as nat);
    t.over(F32::from_nat(width as nat)).lesser(t.over(F32::from_nat(height as nat)))
}

/// A length after the resize.
pub open spec fn resized_length(length: u32, scale: F32) -> u32 {
    let r = F32::from_nat(length as nat).times(scale);
    r.as_u32(r.round_int())
}

/// Half of what a length leaves of the target size.
pub open spec fn padding(target: u32, resized: u32) -> F32 {
    F32::from_nat((target - resized) as nat).over(F32::from_nat(2))
}

/// The letterbox of an image.
pub open spec fn letterbox_of(width: u32, height: u32, target: u32) -> Letterbox {
    let scale = fit_scale(width, height, target);
    let resized_width = resized_length(width, scale);
    let resized_height = resized_length(height, scale);
    Letterbox {
        input_width: width,
        input_height: height,
        target_size: target,
        resized_width,
        resized_height,
        scale,
        pad_x: padding(target, resized_width),
        pad_y: padding(target, resized_height),
    }
}

/// Whether the resized image fits into the target.
pub open spec fn fits(width: u32, height: u32, target: u32) -> bool {
    let scale = fit_scale(width, height, target);
    resized_length(width, scale) <= target && resized_length(height, scale) <= target
}

/// Every image fits into a target of fewer than twenty-three bits.
pub proof fn small_targets_always_fit(width: u32, height: u32, target: u32)
    requires
        target <= 0x3F_FFFF,
    ensures
        fits(width, height, target),
{
    let t = F32::from_nat(target as nat);
    let w = F32::from_nat(width as nat);
    let h = F32::from_nat(height as nat);
    let s = fit_scale(width, height, target);
    crate::float::bounds::naturals_are_not_negative(target as nat);
    crate::float::bounds::naturals_are_not_negative(width as nat);
    crate::float::bounds::naturals_are_not_negative(height as nat);
    crate::float::bounds::lemma_over_sign(t, w);
    crate::float::bounds::lemma_over_sign(t, h);
    if width > 0 {
        crate::float::bounds::lemma_over_number(target as nat, width as nat);
    }
    if height > 0 {
        crate::float::bounds::lemma_over_number(target as nat, height as nat);
    }
    crate::float::bounds::scaled_lengths_fit(width as nat, s, target as nat);
    crate::float::bounds::scaled_lengths_fit(height as nat, s, target as nat);
}

impl Letterbox {
    /// Compute the resize scale and symmetric padding for one page image.
    pub fn new(input_width: u32, input_height: u32, target_size: u32) -> (r: Letterbox)
        requires
            fits(input_width, input_height, target_size),
        ensures
            r == letterbox_of(input_width, input_height, target_size),
    {
        let target: F32 = F32::from_u32(target_size);
        let two: F32 = F32::from_u32(2);
        let scale: F32 = target.div(F32::from_u32(input_width)).min(
            target.div(F32::from_u32(input_height)),
        );
        let resized_width: u32 = F32::from_u32(input_width).mul(scale).round_u32();
        let resized_height: u32 = F32::from_u32(input_height).mul(scale).round_u32();
        let pad_x: F32 = F32::from_u32(target_size - resized_width).div(two);
        let pad_y: F32 = F32::from_u32(target_size - resized_height).div(two);
        Letterbox {
            input_width,
            input_height,
            target_size,
            resized_width,
            resized_height,
            scale,
            pad_x,
            pad_y,
        }
    }
}

/// How many bytes the pixels of an image take.
pub open spec fn rgb_length(width: u32, height: u32) -> int {
    width * height * 3
}

/// Validate that a page image contains tightly packed RGB bytes.
///
/// # Errors
///
/// Returns [`LayoutError::InvalidImageBuffer`] when the byte length does not
/// match `width * height * 3`.
pub fn validate_page_image(image: &PageImage<'_>) -> (r: Result<(), LayoutError>)
    requires
        rgb_length(image.width, image.height) <= usize::MAX,
    ensures
        match r {
            Ok(()) => image.rgb@.len() == rgb_length(image.width, image.height),
            Err(error) => image.rgb@.len() != rgb_length(image.width, image.height) && error
                == (LayoutError::InvalidImageBuffer {
                expected: rgb_length(image.width, image.height) as usize,
                actual: image.rgb@.len() as usize,
            }),
        },
{
    let w: usize = image.width as usize;
    let h: usize = image.height as usize;
    assert(w * h <= w * h * 3) by (nonlinear_arith);
    let expected: usize = w * h * 3;
    let actual: usize = image.rgb.len();
    if actual != expected {
        return Err(LayoutError::InvalidImageBuffer { expected, actual });
    }
    Ok(())
}

/// The source pixel that is nearest to the centre of the `k`th resized one.
pub open spec fn source_index(k: nat, scale: F32, length: u32) -> usize {
    let last = F32::from_nat(if length > 0 { (length - 1) as nat } else { 0 });
    let v = F32::from_nat(k).plus(F32::ratio(1, 2)).over(scale).floored().clamped(
        F32 { bits: 0 },
        last,
    );
    v.as_usize(v.trunc_int())
}

/// Whether every resized pixel has its source within the image.
pub open spec fn samples_inside(scale: F32, resized: u32, length: u32) -> bool {
    forall|k: int| 0 <= k < resized ==> (#[trigger] source_index(k as nat, scale, length)) < length
}

/// Whether every resized pixel of an image has its source within the image.
pub open spec fn is_sampled_inside(width: u32, height: u32, target: u32) -> bool {
    let lb = letterbox_of(width, height, target);
    samples_inside(lb.scale, lb.resized_width, width) && samples_inside(
        lb.scale,
        lb.resized_height,
        height,
    )
}

proof fn lemma_sampled_inside(scale: F32, length: u32)
    requires
        length <= 0x100_0000,
    ensures
        samples_inside(scale, resized_length(length, scale), length),
{
    if length == 0 {
        crate::float::bounds::scaled_lengths_fit(0, scale, 0);
    } else {
        assert forall|k: int| 0 <= k < resized_length(length, scale) implies (
        #[trigger] source_index(k as nat, scale, length)) < length by {
            let x = F32::from_nat(k as nat).plus(F32::ratio(1, 2)).over(scale).floored();
            crate::float::bounds::clamping_bounds_the_integer(x, (length - 1) as nat);
        }
    }
}

/// In an image whose sides are up to two to the power of twenty-four pixels long, every resized
/// pixel has its source within the image.
pub proof fn ordinary_images_are_sampled_inside(width: u32, height: u32, target: u32)
    requires
        width <= 0x100_0000,
        height <= 0x100_0000,
    ensures
        is_sampled_inside(width, height, target),
{
    let scale = fit_scale(width, height, target);
    lemma_sampled_inside(scale, width);
    lemma_sampled_inside(scale, height);
}

/// The source of the `x`th pixel of a line of the input, if it is not padding.
pub open spec fn source_of(x: int, pad: F32, resized: u32, scale: F32, length: u32) -> Option<
    usize,
> {
    let start = pad.as_usize(pad.round_int());
    if start <= x < start + resized {
        Some(source_index((x - start) as nat, scale, length))
    } else {
        None
    }
}

/// The level of a channel at a place of the input; padding is white.
pub open spec fn input_level(
    rgb: Seq<u8>,
    lb: Letterbox,
    channel: int,
    y: int,
    x: int,
) -> F32 {
    let row = source_of(y, lb.pad_y, lb.resized_height, lb.scale, lb.input_height);
    let column = source_of(x, lb.pad_x, lb.resized_width, lb.scale, lb.input_width);
    match (row, column) {
        (Some(sy), Some(sx)) => F32::from_nat(
            rgb[(sy * lb.input_width + sx) * 3 + channel] as nat,
        ).over(F32::from_nat(255)),
        _ => F32::from_nat(1),
    }
}

/// The first `n` levels of a line of the input.
pub open spec fn input_line(rgb: Seq<u8>, lb: Letterbox, channel: int, y: int, n: nat) -> Seq<F32> {
    Seq::new(n, |x: int| input_level(rgb, lb, channel, y, x))
}

/// The first `n` lines of a channel of the input.
pub open spec fn input_plane(rgb: Seq<u8>, lb: Letterbox, channel: int, n: nat) -> Seq<F32>
    decreases n,
{
    if n == 0 {
        Seq::empty()
    } else {
        input_plane(rgb, lb, channel, (n - 1) as nat) + input_line(
            rgb,
            lb,
            channel,
            n - 1,
            lb.target_size as nat,
        )
    }
}

/// The first `n` channels of the input, one after the other.
pub open spec fn input_tensor(rgb: Seq<u8>, lb: Letterbox, n: nat) -> Seq<F32>
    decreases n,
{
    if n == 0 {
        Seq::empty()
    } else {
        input_tensor(rgb, lb, (n - 1) as nat) + input_plane(rgb, lb, n - 1, lb.target_size as nat)
    }
}

proof fn lemma_plane(rgb: Seq<u8>, lb: Letterbox, channel: int, n: nat, y: int, x: int)
    requires
        0 <= y < n,
        0 <= x < lb.target_size,
    ensures
        input_plane(rgb, lb, channel, n).len() == n * lb.target_size,
        0 <= y * lb.target_size + x < n * lb.target_size,
        input_plane(rgb, lb, channel, n)[y * lb.target_size + x] == input_level(
            rgb,
            lb,
            channel,
            y,
            x,
        ),
    decreases n,
{
    let t = lb.target_size as nat;
    let before = input_plane(rgb, lb, channel, (n - 1) as nat);
    lemma_plane_len(rgb, lb, channel, (n - 1) as nat);
    assert(n * t == (n - 1) * t + t) by (nonlinear_arith)
        requires n >= 1;
    if y < n - 1 {
        lemma_plane(rgb, lb, channel, (n - 1) as nat, y, x);
    } else {
        assert(y * t + x == before.len() + x);
        assert(0 <= (n - 1) * t) by (nonlinear_arith)
            requires n >= 1;
    }
}

proof fn lemma_plane_len(rgb: Seq<u8>, lb: Letterbox, channel: int, n: nat)
    ensures
        input_plane(rgb, lb, channel, n).len() == n * lb.target_size,
    decreases n,
{
    let t = lb.target_size as nat;
    if n > 0 {
        lemma_plane_len(rgb, lb, channel, (n - 1) as nat);
        assert(n * t == (n - 1) * t + t) by (nonlinear_arith)
            requires n >= 1;
    } else {
        assert(n * t == 0) by (nonlinear_arith)
            requires n == 0;
    }
}

/// The input holds three planes of levels, each line after line: the level of channel `c` at
/// column `x` of line `y` stands at `c * t * t + y * t + x`, where `t` is the target size.
pub proof fn input_is_planar(rgb: Seq<u8>, lb: Letterbox, channel: int, y: int, x: int)
    requires
        0 <= channel < 3,
        0 <= y < lb.target_size,
        0 <= x < lb.target_size,
    ensures
        input_tensor(rgb, lb, 3).len() == 3 * (lb.target_size * lb.target_size),
        input_tensor(rgb, lb, 3)[channel * (lb.target_size * lb.target_size) + y * lb.target_size + x]
            == input_level(rgb, lb, channel, y, x),
{
    reveal_with_fuel(input_tensor, 4);
    let t = lb.target_size as nat;
    lemma_plane_len(rgb, lb, 0, t);
    lemma_plane_len(rgb, lb, 1, t);
    lemma_plane_len(rgb, lb, 2, t);
    lemma_plane(rgb, lb, channel, t, y, x);
    let (p, q, r) = (
        input_plane(rgb, lb, 0, t),
        input_plane(rgb, lb, 1, t),
        input_plane(rgb, lb, 2, t),
    );
    let all = input_tensor(rgb, lb, 3);
    assert(all =~= p + q + r);
    let k = y * t + x;
    if channel == 0 {
        assert(0 * (t * t) == 0);
        assert(all[k] == p[k]);
    } else if channel == 1 {
        assert(1 * (t * t) == t * t);
        assert(all[t * t + k] == q[k]);
    } else {
        assert(2 * (t * t) == t * t + t * t);
        assert(all[t * t + t * t + k] == r[k]);
    }
}

/// The source pixel that is nearest to the centre of the `k`th resized one.
fn nearest_source(k: usize, scale: F32, length: u32) -> (r: usize)
    ensures
        r == source_index(k as nat, scale, length),
{
    let zero: F32 = F32::from_bits(0);
    let half: F32 = F32::fraction(1, 2);
    let last: F32 = F32::from_u32(if length > 0 { length - 1 } else { 0 });
    proof {
        crate::float::bounds::naturals_are_not_negative(
            if length > 0 { (length - 1) as nat } else { 0 },
        );
    }
    F32::from_usize(k).add(half).div(scale).floor().clamp(zero, last).trunc_usize()
}

/// Whether every resized pixel has its source within the image.
fn stays_inside(scale: F32, resized: u32, length: u32) -> (r: bool)
    ensures
        r == samples_inside(scale, resized, length),
{
    let mut k: u32 = 0;
    while k < resized
        invariant
            k <= resized,
            forall|j: int|
                0 <= j < k ==> (#[trigger] source_index(j as nat, scale, length)) < length,
        decreases resized - k,
    {
        if nearest_source(k as usize, scale, length) >= length as usize {
            let ghost place = k as int;
            assert(source_index(place as nat, scale, length) >= length);
            return false;
        }
        k = k + 1;
    }
    true
}

/// Whether every resized pixel of an image has its source within the image.
pub fn samples_stay_inside(width: u32, height: u32, target_size: u32) -> (r: bool)
    requires
        fits(width, height, target_size),
    ensures
        r == is_sampled_inside(width, height, target_size),
{
    let lb: Letterbox = Letterbox::new(width, height, target_size);
    stays_inside(lb.scale, lb.resized_width, width) && stays_inside(
        lb.scale,
        lb.resized_height,
        height,
    )
}

/// The sources of the pixels of a line of the input.
fn collect_sources(target: usize, pad: F32, resized: u32, scale: F32, length: u32) -> (r: Vec<
    Option<usize>,
>)
    ensures
        r@.len() == target,
        forall|x: int|
            0 <= x < target ==> #[trigger] r@[x] == source_of(x, pad, resized, scale, length),
{
    let start: usize = pad.round_usize();
    let mut r: Vec<Option<usize>> = Vec::new();
    let mut x: usize = 0;
    while x < target
        invariant
            x <= target,
            r@.len() == x,
            start == pad.as_usize(pad.round_int()),
            forall|k: int|
                0 <= k < x ==> #[trigger] r@[k] == source_of(k, pad, resized, scale, length),
        decreases target - x,
    {
        if x >= start && x - start < resized as usize {
            r.push(Some(nearest_source(x - start, scale, length)));
        } else {
            r.push(None);
        }
        x = x + 1;
    }
    r
}

/// The level of each byte value.
fn collect_levels() -> (r: Vec<F32>)
    ensures
        r@.len() == 256,
        forall|k: int|
            0 <= k < 256 ==> #[trigger] r@[k] == F32::from_nat(k as nat).over(F32::from_nat(255)),
{
    let most: F32 = F32::from_u32(255);
    let mut r: Vec<F32> = Vec::new();
    let mut k: u32 = 0;
    while k < 256
        invariant
            k <= 256,
            most == F32::from_nat(255),
            r@.len() == k,
            forall|j: int|
                0 <= j < k ==> #[trigger] r@[j] == F32::from_nat(j as nat).over(F32::from_nat(255)),
        decreases 256 - k,
    {
        r.push(F32::from_u32(k).div(most));
        k = k + 1;
    }
    r
}

/// Convert a page RGB image into normalized CHW float input for YOLO.
///
/// The output tensor is laid out as `[R plane, G plane, B plane]` with values between
/// zero and one. Padding pixels are white so the page margins do
/// not look like dark document content to the detector.
///
/// # Errors
///
/// Returns [`LayoutError::InvalidImageBuffer`] if the image bytes are not a
/// tightly packed RGB buffer.
pub fn letterbox_rgb_to_chw_f32(image: &PageImage<'_>, target_size: u32) -> (r: Result<
    (Vec<F32>, Letterbox),
    LayoutError,
>)
    requires
        rgb_length(image.width, image.height) <= usize::MAX,
        image.rgb@.len() == rgb_length(image.width, image.height) ==> fits(
            image.width,
            image.height,
            target_size,
        ) && is_sampled_inside(image.width, image.height, target_size),
    ensures
        match r {
            Ok((input, letterbox)) => {
                &&& image.rgb@.len() == rgb_length(image.width, image.height)
                &&& letterbox == letterbox_of(image.width, image.height, target_size)
                &&& input@ == input_tensor(image.rgb@, letterbox, 3)
            },
            Err(error) => image.rgb@.len() != rgb_length(image.width, image.height) && error
                == (LayoutError::InvalidImageBuffer {
                expected: rgb_length(image.width, image.height) as usize,
                actual: image.rgb@.len() as usize,
            }),
        },
{
    match validate_page_image(image) {
        Err(error) => {
            return Err(error);
        },
        Ok(()) => {},
    }
    let lb: Letterbox = Letterbox::new(image.width, image.height, target_size);
    let target: usize = target_size as usize;
    let rows: Vec<Option<usize>> = collect_sources(
        target,
        lb.pad_y,
        lb.resized_height,
        lb.scale,
        lb.input_height,
    );
    let columns: Vec<Option<usize>> = collect_sources(
        target,
        lb.pad_x,
        lb.resized_width,
        lb.scale,
        lb.input_width,
    );
    let levels: Vec<F32> = collect_levels();
    let white: F32 = F32::from_u32(1);
    let width: usize = image.width as usize;
    let ghost height = image.height as int;
    let ghost rgb = image.rgb@;
    let total: usize = image.rgb.len();
    let mut input: Vec<F32> = Vec::new();
    let mut channel: usize = 0;
    while channel < 3
        invariant
            channel <= 3,
            rgb == image.rgb@,
            total == rgb.len(),
            target == lb.target_size,
            width == image.width,
            height == image.height,
            lb.input_width == image.width,
            lb.input_height == image.height,
            rgb.len() == rgb_length(image.width, image.height),
            samples_inside(lb.scale, lb.resized_width, image.width),
            samples_inside(lb.scale, lb.resized_height, image.height),
            rows@.len() == target,
            columns@.len() == target,
            forall|y: int|
                0 <= y < target ==> #[trigger] rows@[y] == source_of(
                    y,
                    lb.pad_y,
                    lb.resized_height,
                    lb.scale,
                    lb.input_height,
                ),
            forall|x: int|
                0 <= x < target ==> #[trigger] columns@[x] == source_of(
                    x,
                    lb.pad_x,
                    lb.resized_width,
                    lb.scale,
                    lb.input_width,
                ),
            levels@.len() == 256,
            forall|k: int|
                0 <= k < 256 ==> #[trigger] levels@[k] == F32::from_nat(k as nat).over(
                    F32::from_nat(255),
                ),
            white == F32::from_nat(1),
            input@ == input_tensor(rgb, lb, channel as nat),
        decreases 3 - channel,
    {
        let ghost planes = input@;
        let mut y: usize = 0;
        assert(planes + input_plane(rgb, lb, channel as int, 0) =~= planes);
        while y < target
            invariant
                channel < 3,
                y <= target,
                rgb == image.rgb@,
                total == rgb.len(),
                target == lb.target_size,
                width == image.width,
                height == image.height,
                lb.input_width == image.width,
                lb.input_height == image.height,
                rgb.len() == rgb_length(image.width, image.height),
                samples_inside(lb.scale, lb.resized_width, image.width),
                samples_inside(lb.scale, lb.resized_height, image.height),
                rows@.len() == target,
                columns@.len() == target,
                forall|y: int|
                    0 <= y < target ==> #[trigger] rows@[y] == source_of(
                        y,
                        lb.pad_y,
                        lb.resized_height,
                        lb.scale,
                        lb.input_height,
                    ),
                forall|x: int|
                    0 <= x < target ==> #[trigger] columns@[x] == source_of(
                        x,
                        lb.pad_x,
                        lb.resized_width,
                        lb.scale,
                        lb.input_width,
                    ),
                levels@.len() == 256,
                forall|k: int|
                    0 <= k < 256 ==> #[trigger] levels@[k] == F32::from_nat(k as nat).over(
                        F32::from_nat(255),
                    ),
                white == F32::from_nat(1),
                input@ == planes + input_plane(rgb, lb, channel as int, y as nat),
            decreases target - y,
        {
            let ghost lines = input@;
            let mut x: usize = 0;
            assert(lines + input_line(rgb, lb, channel as int, y as int, 0) =~= lines);
            while x < target
                invariant
                    channel < 3,
                    y < target,
                    x <= target,
                    rgb == image.rgb@,
                    total == rgb.len(),
                    target == lb.target_size,
                    width == image.width,
                    height == image.height,
                    lb.input_width == image.width,
                    lb.input_height == image.height,
                    rgb.len() == rgb_length(image.width, image.height),
                    samples_inside(lb.scale, lb.resized_width, image.width),
                    samples_inside(lb.scale, lb.resized_height, image.height),
                    rows@.len() == target,
                    columns@.len() == target,
                    rows@[y as int] == source_of(
                        y as int,
                        lb.pad_y,
                        lb.resized_height,
                        lb.scale,
                        lb.input_height,
                    ),
                    forall|x: int|
                        0 <= x < target ==> #[trigger] columns@[x] == source_of(
                            x,
                            lb.pad_x,
                            lb.resized_width,
                            lb.scale,
                            lb.input_width,
                        ),
                    levels@.len() == 256,
                    forall|k: int|
                        0 <= k < 256 ==> #[trigger] levels@[k] == F32::from_nat(k as nat).over(
                            F32::from_nat(255),
                        ),
                    white == F32::from_nat(1),
                    input@ == lines + input_line(rgb, lb, channel as int, y as int, x as nat),
                decreases target - x,
            {
                let level: F32 = match (rows[y], columns[x]) {
                    (Some(sy), Some(sx)) => {
                        assert(sy < height && sx < width);
                        assert((sy * width + sx) * 3 + channel < width * height * 3) by (nonlinear_arith)
                            requires sy < height, sx < width, channel < 3;
                        assert(0 <= sy * width) by (nonlinear_arith);
                        assert(sy * width + sx <= (sy * width + sx) * 3);
                        let offset: usize = (sy * width + sx) * 3 + channel;
                        levels[*slice_index_get(image.rgb, offset) as usize]
                    },
                    _ => white,
                };
                assert(level == input_level(rgb, lb, channel as int, y as int, x as int));
                input.push(level);
                x = x + 1;
                assert(input@ =~= lines + input_line(rgb, lb, channel as int, y as int, x as nat));
            }
            y = y + 1;
            assert(planes + input_plane(rgb, lb, channel as int, y as nat) =~= lines + input_line(
                rgb,
                lb,
                channel as int,
                y - 1,
                target as nat,
            ));
        }
        channel = channel + 1;
    }
    Ok((input, lb))
}

/// The resized image lies in the middle: the padding on both sides and what lies between make up
/// the target.
pub proof fn padding_is_symmetric(target: u32, resized: u32)
    requires
        resized <= target < 0x1_0000,
    ensures
        padding(target, resized).measures(128 * (target - resized)),
{
    let d = (target - resized) as nat;
    crate::float::exact::naturals_are_whole(d);
    crate::float::exact::measured_half(F32::from_nat(d), 128 * d as int);
}

/// The scale is the greatest one at which both sides of the image fit the target: it is at least
/// `f` where both sides times `f` are within the target, and at most `f` where a side times `f`
/// reaches the target.
pub proof fn the_scale_fits_both_sides(width: u32, height: u32, target: u32, f: F32)
    requires
        0 < width < 0x100_0000,
        0 < height < 0x100_0000,
        target < 0x100_0000,
        f.finite(),
        !f.negative(),
    ensures
        ({
            let scale = fit_scale(width, height, target);
            let goal = target * pow2(149);
            &&& width * f.units() <= goal && height * f.units() <= goal ==> f.at_most(scale)
            &&& width * f.units() >= goal || height * f.units() >= goal ==> scale.at_most(f)
        }),
{
    lemma_side_scale(width, target, f);
    lemma_side_scale(height, target, f);
}

proof fn lemma_side_scale(length: u32, target: u32, f: F32)
    requires
        0 < length < 0x100_0000,
        target < 0x100_0000,
        f.finite(),
        !f.negative(),
    ensures
        ({
            let q = F32::from_nat(target as nat).over(F32::from_nat(length as nat));
            &&& !q.nan()
            &&& length * f.units() <= target * pow2(149) ==> f.at_most(q)
            &&& length * f.units() >= target * pow2(149) ==> q.at_most(f)
        }),
{
    let (t, l) = (F32::from_nat(target as nat), F32::from_nat(length as nat));
    let one = pow2(149) as int;
    lemma_pow2_pos(149);
    crate::float::bounds::small_naturals_are_exact(target as nat);
    crate::float::bounds::small_naturals_are_exact(length as nat);
    crate::float::bounds::naturals_are_not_negative(target as nat);
    crate::float::bounds::naturals_are_not_negative(length as nat);
    assert(length * one > 0) by (nonlinear_arith)
        requires length > 0, one > 0;
    crate::float::exact::quotient_bounds(t, l, f);
    let (n, g) = (length as int, f.units() as int);
    let m = target as int;
    assert(g * (n * one) == (n * g) * one) by (nonlinear_arith);
    assert(n * g <= m * one ==> (n * g) * one <= (m * one) * one) by (nonlinear_arith)
        requires one > 0;
    assert(n * g >= m * one ==> (n * g) * one >= (m * one) * one) by (nonlinear_arith)
        requires one > 0;
}

/// A length is resized to the integer nearest to its product with the scale: at least `u` where
/// the product reaches `u` less a half, and at most `u` where it stays below `u` and a half.
pub proof fn resizing_rounds_to_the_nearest(length: u32, scale: F32, u: nat)
    requires
        length < 0x100_0000,
        scale.finite(),
        !scale.negative(),
        0 < u < 0xFFFF,
    ensures
        2 * (length * scale.units()) >= (2 * u - 1) * pow2(149) ==> resized_length(length, scale)
            >= u,
        256 * (length * scale.units()) <= (256 * u + 127) * pow2(149) ==> resized_length(
            length,
            scale,
        ) <= u,
{
    let l = F32::from_nat(length as nat);
    let r = l.times(scale);
    let (one, p) = (pow2(149) as int, pow2(141) as int);
    let (n, g) = (length as int, scale.units() as int);
    lemma_pow2_pos(149);
    lemma_pow2_pos(141);
    lemma2_to64();
    lemma_pow2_adds(141, 8);
    crate::float::bounds::small_naturals_are_exact(length as nat);
    crate::float::bounds::naturals_are_not_negative(length as nat);
    let (v, w) = (256 * u - 128, 256 * u + 127);
    let (low, high) = (
        crate::float::exact::of_parts(v as nat),
        crate::float::exact::of_parts(w as nat),
    );
    crate::float::exact::parts_are_exact(v as nat);
    crate::float::exact::parts_are_exact(w as nat);
    crate::float::exact::product_bounds(l, scale, low);
    crate::float::exact::product_bounds(l, scale, high);
    assert((n * one) * g == (n * g) * one) by (nonlinear_arith);
    if 2 * (n * g) >= (2 * u - 1) * one {
        assert(n * g >= v * p) by (nonlinear_arith)
            requires
                2 * (n * g) >= (2 * u - 1) * one,
                one == p * 256,
                v == 256 * u - 128,
        ;
        assert((n * g) * one >= (v * p) * one) by (nonlinear_arith)
            requires n * g >= v * p, one > 0;
        assert(low.at_most(r));
        if r.finite() {
            crate::float::order::magnitude_orders_units(low, r);
            crate::float::exact::integers_follow_the_bounds(r, u);
            assert((2 * u - 1) * one == 2 * (v * p)) by (nonlinear_arith)
                requires one == p * 256, v == 256 * u - 128;
        }
    }
    if 256 * (n * g) <= (256 * u + 127) * one {
        assert(n * g <= w * p) by (nonlinear_arith)
            requires
                256 * (n * g) <= (256 * u + 127) * one,
                one == p * 256,
                w == 256 * u + 127,
        ;
        assert((n * g) * one <= (w * p) * one) by (nonlinear_arith)
            requires n * g <= w * p, one > 0;
        assert(r.at_most(high));
        assert(r.finite());
        crate::float::order::magnitude_orders_units(high, r);
        crate::float::exact::integers_follow_the_bounds(r, u + 1);
        assert((2 * (u + 1) - 1) * one > 2 * (w * p)) by (nonlinear_arith)
            requires one == p * 256, w == 256 * u + 127, p > 0;
    }
}

/// A pixel of the input is one of the resized image, and not padding, exactly from the padding
/// on, rounded up to a whole pixel, for as long as the resized image is.
pub proof fn the_image_stands_between_the_padding(
    x: int,
    target: u32,
    resized: u32,
    scale: F32,
    length: u32,
)
    requires
        resized <= target < 0x1_0000,
        0 <= x < target,
    ensures
        source_of(x, padding(target, resized), resized, scale, length) == if (target - resized + 1)
            / 2 <= x < (target - resized + 1) / 2 + resized {
            Some(source_index((x - (target - resized + 1) / 2) as nat, scale, length))
        } else {
            None
        },
{
    let pad = padding(target, resized);
    let d = target - resized;
    let u = ((d + 1) / 2) as nat;
    let p = pow2(141) as int;
    let one = pow2(149) as int;
    padding_is_symmetric(target, resized);
    lemma_pow2_pos(141);
    lemma2_to64();
    lemma_pow2_adds(141, 8);
    assert(pad.finite() && pad.value() == (128 * d) * p);
    assert((128 * d) * p >= 0) by (nonlinear_arith)
        requires d >= 0, p > 0;
    assert(pad.units() == (128 * d) * p);
    assert(2 * ((128 * d) * p) == d * one) by (nonlinear_arith)
        requires one == p * 256;
    if pad.negative() {
        assert(d == 0) by (nonlinear_arith)
            requires (128 * d) * p <= 0, p > 0, d >= 0;
        crate::float::bounds::naturals_are_not_negative(d as nat);
        crate::float::bounds::naturals_are_not_negative(2);
        crate::float::bounds::lemma_over_sign(F32::from_nat(d as nat), F32::from_nat(2));
    }
    crate::float::exact::integers_follow_the_bounds(pad, u);
    crate::float::exact::integers_follow_the_bounds(pad, u + 1);
    assert((2 * u - 1) * one <= d * one) by (nonlinear_arith)
        requires 2 * u - 1 <= d, one > 0;
    assert((2 * (u + 1) - 1) * one > d * one) by (nonlinear_arith)
        requires 2 * u + 1 > d, one > 0;
    assert(pad.round_int() == u);
}

/// The source of the `k`th resized pixel is the one that its centre, `k` and a half, falls into
/// when the resizing is undone: it is at least `u` where `u` pixels are not longer than that after
/// the resize, and less than `u` where they are longer.
pub proof fn sources_undo_the_resize(k: nat, scale: F32, length: u32, u: nat)
    requires
        k < 0xFFFF,
        0 < length < 0x1_0000,
        scale.finite(),
        !scale.negative(),
        scale.units() > 0,
    ensures
        source_index(k, scale, length) < length,
        u < length && u * scale.units() <= (256 * k + 128) * pow2(141) ==> u <= source_index(
            k,
            scale,
            length,
        ),
        0 < u < 0x1_0000 && (256 * u - 1) * scale.units() >= 256 * ((256 * k + 128) * pow2(141))
            ==> source_index(k, scale, length) < u,
{
    let zero = F32 { bits: 0 };
    let last = F32::from_nat((length - 1) as nat);
    let c = F32::from_nat(k).plus(F32::ratio(1, 2));
    let x = c.over(scale);
    let v = x.floored().clamped(zero, last);
    let (one, p, g) = (pow2(149) as int, pow2(141) as int, scale.units() as int);
    lemma_pow2_pos(149);
    lemma_pow2_pos(141);
    lemma2_to64();
    lemma_pow2_adds(141, 8);
    crate::float::exact::naturals_are_whole(k);
    crate::float::exact::half_is_exact();
    crate::float::exact::measured_sum(F32::from_nat(k), F32::ratio(1, 2), 256 * k as int, 128);
    let n = 256 * k + 128;
    assert(n * p > 0) by (nonlinear_arith)
        requires n > 0, p > 0;
    assert(c.units() == n * p && !c.negative());
    crate::float::exact::quotient_bounds(c, scale, zero);
    crate::float::bounds::small_naturals_are_exact((length - 1) as nat);
    crate::float::bounds::naturals_are_not_negative((length - 1) as nat);
    crate::float::bounds::clamping_bounds_the_integer(x.floored(), (length - 1) as nat);
    crate::float::exact::flooring_keeps_the_side(x, 0);
    assert(!v.nan() && !v.negative() && v.finite());
    crate::float::exact::integers_follow_the_bounds(v, u);
    if u < length && u * g <= n * p {
        let f = F32::from_nat(u);
        crate::float::bounds::small_naturals_are_exact(u);
        crate::float::bounds::naturals_are_not_negative(u);
        crate::float::exact::quotient_bounds(c, scale, f);
        assert((n * p) * one >= (u * one) * g) by (nonlinear_arith)
            requires u * g <= n * p, one > 0;
        crate::float::exact::flooring_keeps_the_side(x, u);
        crate::float::exact::naturals_are_whole(u);
        crate::float::exact::naturals_are_whole((length - 1) as nat);
        crate::float::exact::measures_are_ordered(f, last, 256 * u as int, 256 * (length - 1));
        assert(f.at_most(v));
        crate::float::order::magnitude_orders_units(f, v);
    }
    if 0 < u < 0x1_0000 && (256 * u - 1) * g >= 256 * (n * p) {
        let m = (256 * u - 1) as nat;
        let f = crate::float::exact::of_parts(m);
        crate::float::exact::parts_are_exact(m);
        crate::float::exact::quotient_bounds(c, scale, f);
        assert((n * p) * one <= (m * p) * g) by (nonlinear_arith)
            requires m * g >= 256 * (n * p), one == p * 256, p > 0;
        assert(x.at_most(f));
        assert(v.at_most(f)) by {
            crate::float::exact::zero_is_whole();
            crate::float::exact::measures_are_ordered(zero, f, 0, m as int);
        }
        crate::float::order::magnitude_orders_units(f, v);
        assert(m * p < u * one) by (nonlinear_arith)
            requires m == 256 * u - 1, one == p * 256, p > 0;
    }
}

/// The first pixel of the resized image in the input: the padding, rounded up.
pub open spec fn image_start(target: u32, resized: u32) -> int {
    (target - resized + 1) / 2
}

/// What the input holds at a place. Where the place lies before the resized image or behind it, in
/// either direction, it is white, which is one. Elsewhere the level is the share of the greatest
/// byte that the source pixel has in this channel, rounded: it passes no number that the share
/// does not pass. The source pixel is the one that each coordinate falls into on its own axis.
pub proof fn the_input_shows_the_image_on_white(
    rgb: Seq<u8>,
    width: u32,
    height: u32,
    target: u32,
    channel: int,
    y: int,
    x: int,
    f: F32,
)
    requires
        fits(width, height, target),
        target < 0x1_0000,
        0 <= y < target,
        0 <= x < target,
        f.finite(),
        !f.negative(),
    ensures
        ({
            let lb = letterbox_of(width, height, target);
            let level = input_level(rgb, lb, channel, y, x);
            let (top, left) = (
                image_start(target, lb.resized_height),
                image_start(target, lb.resized_width),
            );
            let sy = source_index((y - top) as nat, lb.scale, height) as int;
            let sx = source_index((x - left) as nat, lb.scale, width) as int;
            let byte = rgb[3 * (sy * width + sx) + channel] as int;
            if top <= y < top + lb.resized_height && left <= x < left + lb.resized_width {
                &&& byte * pow2(149) <= 255 * f.units() ==> level.at_most(f)
                &&& byte * pow2(149) >= 255 * f.units() ==> f.at_most(level)
            } else {
                level.is_whole(1)
            }
        }),
{
    let lb = letterbox_of(width, height, target);
    the_image_stands_between_the_padding(y, target, lb.resized_height, lb.scale, height);
    the_image_stands_between_the_padding(x, target, lb.resized_width, lb.scale, width);
    crate::float::exact::naturals_are_whole(1);
    let (top, left) = (
        image_start(target, lb.resized_height),
        image_start(target, lb.resized_width),
    );
    let sy = source_index((y - top) as nat, lb.scale, height) as int;
    let sx = source_index((x - left) as nat, lb.scale, width) as int;
    let byte = rgb[3 * (sy * width + sx) + channel];
    lemma_side_scale(255, byte as u32, f);
}

} // verus!
