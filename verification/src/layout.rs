//! Batches of rendered pages for layout detection.
use crate::float::F32;
use crate::types::{LayoutBlock, ParsedPage};
use vstd::prelude::*;

verus! {

/// Maximum number of rendered RGB pages kept in memory while running layout detection.
///
/// Each page image can be several megabytes at normal parsing DPI, so layout
/// detection deliberately renders and processes bounded batches instead of
/// collecting the whole document as images. Tune this constant when the
/// provider runtime has a different memory/performance profile.
pub const LAYOUT_RENDER_BATCH_SIZE: usize = 4;

/// Rendered page image passed to an external layout provider.
#[derive(Debug)]
pub struct LayoutPageImage {
    /// Index into the current parse result's page slice.
    pub page_index: usize,
    /// One-based PDF page number.
    pub page_number: usize,
    /// Tightly packed RGB pixels in row-major order.
    pub rgb_bytes: Vec<u8>,
    /// Rendered image width in pixels.
    pub width: u32,
    /// Rendered image height in pixels.
    pub height: u32,
    /// PDF page width in viewport-space points.
    pub page_width: F32,
    /// PDF page height in viewport-space points.
    pub page_height: F32,
    /// Render DPI used to produce `rgb_bytes`.
    pub dpi: F32,
}

/// The number of pages in a full batch.
pub open spec fn batch_step(batch_size: usize) -> nat {
    if batch_size == 0 {
        1
    } else {
        batch_size as nat
    }
}

/// The batches from a page on: each takes as many pages as fit, or those that are left.
pub open spec fn batches_from(start: int, page_count: usize, batch_size: usize) -> Seq<
    (usize, usize),
>
    decreases page_count - start,
{
    if start >= page_count {
        Seq::empty()
    } else {
        let end = if start + batch_step(batch_size) < page_count {
            start + batch_step(batch_size)
        } else {
            page_count as int
        };
        seq![(start as usize, end as usize)] + batches_from(end, page_count, batch_size)
    }
}

/// Split a page count into half-open `[start, end)` batch ranges; a batch size of zero stands
/// for one.
///
/// The helper is pure so the memory cap behavior is explicit.
pub fn layout_batch_ranges(page_count: usize, batch_size: usize) -> (r: Vec<(usize, usize)>)
    ensures
        r@ == batches_from(0, page_count, batch_size),
{
    let step: usize = if batch_size == 0 {
        1
    } else {
        batch_size
    };
    let mut ranges: Vec<(usize, usize)> = Vec::new();
    let mut start: usize = 0;
    assert(ranges@ + batches_from(0, page_count, batch_size) =~= batches_from(
        0,
        page_count,
        batch_size,
    ));
    while start < page_count
        invariant
            start <= page_count,
            step == batch_step(batch_size),
            step >= 1,
            ranges@ + batches_from(start as int, page_count, batch_size) == batches_from(
                0,
                page_count,
                batch_size,
            ),
        decreases page_count - start,
    {
        let end: usize = if page_count - start > step {
            start + step
        } else {
            page_count
        };
        let ghost before = ranges@;
        let ghost rest = batches_from(end as int, page_count, batch_size);
        ranges.push((start, end));
        assert(before.push((start, end)) + rest =~= before + (seq![(start, end)] + rest));
        start = end;
    }
    assert(ranges@ + Seq::<(usize, usize)>::empty() =~= ranges@);
    ranges
}

proof fn lemma_batches(start: int, page_count: usize, batch_size: usize)
    requires
        0 <= start,
    ensures
        start < page_count <==> batches_from(start, page_count, batch_size).len() > 0,
        forall|i: int|
            0 <= i < batches_from(start, page_count, batch_size).len() ==> start <= (
            #[trigger] batches_from(start, page_count, batch_size)[i]).0 < batches_from(
                start,
                page_count,
                batch_size,
            )[i].1 <= page_count && batches_from(start, page_count, batch_size)[i].1
                - batches_from(start, page_count, batch_size)[i].0 <= batch_step(batch_size),
        start < page_count ==> batches_from(start, page_count, batch_size)[0].0 == start
            && batches_from(start, page_count, batch_size).last().1 == page_count,
        forall|i: int|
            0 < i < batches_from(start, page_count, batch_size).len() ==> (
            #[trigger] batches_from(start, page_count, batch_size)[i]).0 == batches_from(
                start,
                page_count,
                batch_size,
            )[i - 1].1,
        forall|i: int|
            0 <= i < batches_from(start, page_count, batch_size).len() - 1 ==> (
            #[trigger] batches_from(start, page_count, batch_size)[i]).1 - batches_from(
                start,
                page_count,
                batch_size,
            )[i].0 == batch_step(batch_size),
    decreases page_count - start,
{
    if start < page_count {
        let end = if start + batch_step(batch_size) < page_count {
            start + batch_step(batch_size)
        } else {
            page_count as int
        };
        lemma_batches(end, page_count, batch_size);
        let rest = batches_from(end, page_count, batch_size);
        let all = batches_from(start, page_count, batch_size);
        assert(all =~= seq![(start as usize, end as usize)] + rest);
        assert forall|i: int| 0 <= i < all.len() implies start <= (#[trigger] all[i]).0 < all[i].1
            <= page_count && all[i].1 - all[i].0 <= batch_step(batch_size) by {
            if i > 0 {
                assert(all[i] == rest[i - 1]);
            }
        }
        assert forall|i: int| 0 < i < all.len() implies (#[trigger] all[i]).0 == all[i - 1].1 by {
            assert(all[i] == rest[i - 1]);
            if i > 1 {
                assert(all[i - 1] == rest[i - 2]);
            }
        }
        assert forall|i: int| 0 <= i < all.len() - 1 implies (#[trigger] all[i]).1 - all[i].0
            == batch_step(batch_size) by {
            if i > 0 {
                assert(all[i] == rest[i - 1]);
            }
        }
        if rest.len() > 0 {
            assert(all.last() == rest.last());
        }
    }
}

/// The batches follow each other without a gap from the first page to the last; each has at least
/// one page and at most as many as fit, and every one but the last is full.
pub proof fn batches_cover_the_pages(page_count: usize, batch_size: usize)
    ensures
        ({
            let r = batches_from(0, page_count, batch_size);
            &&& r.len() == 0 <==> page_count == 0
            &&& page_count > 0 ==> r[0].0 == 0 && r.last().1 == page_count
            &&& forall|i: int|
                0 <= i < r.len() ==> (#[trigger] r[i]).0 < r[i].1 && r[i].1 - r[i].0 <= batch_step(
                    batch_size,
                )
            &&& forall|i: int| 0 < i < r.len() ==> (#[trigger] r[i]).0 == r[i - 1].1
            &&& forall|i: int|
                0 <= i < r.len() - 1 ==> (#[trigger] r[i]).1 - r[i].0 == batch_step(batch_size)
        }),
{
    lemma_batches(0, page_count, batch_size);
}

/// What is rendered for a page of a batch, apart from its pixels: the index and the number of
/// the page, and its size.
pub fn layout_page_image(
    pages: &Vec<ParsedPage>,
    page_index: usize,
    rgb_bytes: Vec<u8>,
    width: u32,
    height: u32,
    dpi: F32,
) -> (r: LayoutPageImage)
    requires
        page_index < pages@.len(),
    ensures
        r.page_index == page_index,
        r.page_number == pages@[page_index as int].page_number,
        r.rgb_bytes == rgb_bytes,
        r.width == width,
        r.height == height,
        r.page_width == pages@[page_index as int].page_width,
        r.page_height == pages@[page_index as int].page_height,
        r.dpi == dpi,
{
    LayoutPageImage {
        page_index,
        page_number: pages[page_index].page_number,
        rgb_bytes,
        width,
        height,
        page_width: pages[page_index].page_width,
        page_height: pages[page_index].page_height,
        dpi,
    }
}

/// Puts the blocks that were detected on a rendered page into that page; blocks of a page that
/// is not there are dropped.
pub fn assign_detected_blocks(
    pages: &mut Vec<ParsedPage>,
    page_index: usize,
    blocks: Vec<LayoutBlock>,
)
    ensures
        final(pages)@ == if page_index < old(pages)@.len() {
            old(pages)@.update(
                page_index as int,
                ParsedPage { layout_blocks: blocks, ..old(pages)@[page_index as int] },
            )
        } else {
            old(pages)@
        },
{
    if page_index < pages.len() {
        pages[page_index].layout_blocks = blocks;
    }
}

} // verus!
