//! Assignment of text to layout blocks.
use crate::float::F32;
use crate::text::same_text;
use crate::types::{LayoutBlock, TextItem};
use vstd::prelude::*;

verus! {

/// Whether a block stays even where no text belongs to it.
pub open spec fn is_picture(block: LayoutBlock) -> bool {
    block.label@ == "Picture"@
}

/// Whether a text item has an area.
pub open spec fn has_area(item: TextItem) -> bool {
    (F32 { bits: 0 }).less(item.area_rect().area())
}

/// The share of a text item that lies in a block.
pub open spec fn overlap_ratio(item: TextItem, block: LayoutBlock) -> F32 {
    if has_area(item) {
        item.area_rect().overlap_area(block.area_rect()).over(item.area_rect().area())
    } else {
        F32 { bits: 0 }
    }
}

/// Whether the centre of a text item lies in a block.
pub open spec fn center_in(item: TextItem, block: LayoutBlock) -> bool {
    let two = F32::from_nat(2);
    block.area_rect().has_point(
        item.x.plus(item.width.over(two)),
        item.y.plus(item.height.over(two)),
    )
}

/// The block that the greatest share of the item lies in, the first of several.
pub open spec fn best_block(item: TextItem, blocks: Seq<LayoutBlock>) -> Option<int>
    decreases blocks.len(),
{
    if blocks.len() == 0 {
        None
    } else {
        match best_block(item, blocks.drop_last()) {
            Some(k) if !overlap_ratio(item, blocks[k]).less(overlap_ratio(item, blocks.last()))
                => Some(k),
            _ => Some(blocks.len() - 1),
        }
    }
}

/// The first block that the centre of an item lies in.
pub open spec fn central_block(item: TextItem, blocks: Seq<LayoutBlock>) -> Option<int>
    decreases blocks.len(),
{
    if blocks.len() == 0 {
        None
    } else {
        match central_block(item, blocks.drop_last()) {
            Some(k) => Some(k),
            None => if center_in(item, blocks.last()) {
                Some(blocks.len() - 1)
            } else {
                None
            },
        }
    }
}

/// The block that an item belongs to: the best one, if half of the item or its centre is in it;
/// for an item without area, the first one that its centre is in.
pub open spec fn home_block(item: TextItem, blocks: Seq<LayoutBlock>) -> Option<LayoutBlock> {
    if has_area(item) {
        match best_block(item, blocks) {
            Some(k) => if F32::ratio(1, 2).at_most(overlap_ratio(item, blocks[k])) || center_in(
                item,
                blocks[k],
            ) {
                Some(blocks[k])
            } else {
                None
            },
            None => None,
        }
    } else {
        match central_block(item, blocks) {
            Some(k) => Some(blocks[k]),
            None => None,
        }
    }
}

/// The item with the id and the label of the block that it belongs to.
pub open spec fn annotated(item: TextItem, blocks: Seq<LayoutBlock>) -> TextItem {
    match home_block(item, blocks) {
        Some(block) => TextItem {
            layout_block_id: Some(block.id),
            layout_label: Some(block.label),
            ..item
        },
        None => TextItem { layout_block_id: None, layout_label: None, ..item },
    }
}

/// Whether the index names a block.
spec fn in_range(k: Option<int>, blocks: Seq<LayoutBlock>) -> bool {
    k matches Some(k) ==> 0 <= k < blocks.len()
}

proof fn lemma_best_in_range(item: TextItem, blocks: Seq<LayoutBlock>)
    ensures
        in_range(best_block(item, blocks), blocks),
        (best_block(item, blocks) is None) == (blocks.len() == 0),
    decreases blocks.len(),
{
    if blocks.len() > 0 {
        lemma_best_in_range(item, blocks.drop_last());
    }
}

/// The share of the item in its best block is exceeded by its share in no other block, and is
/// reached by none before it, provided that all the shares are numbers.
pub proof fn best_block_has_largest_overlap(item: TextItem, blocks: Seq<LayoutBlock>, j: int)
    requires
        0 <= j < blocks.len(),
        forall|i: int| 0 <= i < blocks.len() ==> !overlap_ratio(item, #[trigger] blocks[i]).nan(),
    ensures
        best_block(item, blocks) matches Some(k) && 0 <= k < blocks.len() && overlap_ratio(
            item,
            blocks[j],
        ).at_most(overlap_ratio(item, blocks[k])) && (j < k ==> overlap_ratio(
            item,
            blocks[j],
        ).less(overlap_ratio(item, blocks[k]))),
    decreases blocks.len(),
{
    let d = blocks.drop_last();
    lemma_best_in_range(item, blocks);
    lemma_best_in_range(item, d);
    assert(!overlap_ratio(item, blocks[blocks.len() - 1]).nan());
    if d.len() > 0 {
        assert forall|i: int| 0 <= i < d.len() implies !overlap_ratio(item, #[trigger] d[i]).nan() by {
            assert(!overlap_ratio(item, blocks[i]).nan());
        }
        let p = best_block(item, d)->0;
        best_block_has_largest_overlap(item, d, if j < d.len() { j } else { p });
        assert(!overlap_ratio(item, blocks[p]).nan());
    }
}

/// An item without area belongs to a block if and only if its centre lies in one, and then to the
/// first such block.
pub proof fn items_without_area_follow_their_centre(item: TextItem, blocks: Seq<LayoutBlock>)
    requires
        !has_area(item),
    ensures
        match home_block(item, blocks) {
            Some(block) => exists|k: int|
                {
                    &&& 0 <= k < blocks.len()
                    &&& #[trigger] blocks[k] == block
                    &&& center_in(item, blocks[k])
                    &&& forall|j: int| 0 <= j < k ==> !center_in(item, #[trigger] blocks[j])
                },
            None => forall|j: int| 0 <= j < blocks.len() ==> !center_in(item, #[trigger] blocks[j]),
        },
{
    lemma_central_block(item, blocks);
    if let Some(k) = central_block(item, blocks) {
        assert(blocks[k] == home_block(item, blocks)->0);
    }
}

proof fn lemma_central_block(item: TextItem, blocks: Seq<LayoutBlock>)
    ensures
        match central_block(item, blocks) {
            Some(k) => 0 <= k < blocks.len() && center_in(item, blocks[k]) && forall|j: int|
                0 <= j < k ==> !center_in(item, #[trigger] blocks[j]),
            None => forall|j: int| 0 <= j < blocks.len() ==> !center_in(item, #[trigger] blocks[j]),
        },
    decreases blocks.len(),
{
    if blocks.len() > 0 {
        let d = blocks.drop_last();
        lemma_central_block(item, d);
        let last = match central_block(item, blocks) {
            Some(k) => k,
            None => blocks.len() as int,
        };
        assert forall|j: int| 0 <= j < last implies !center_in(item, #[trigger] blocks[j]) by {
            if j < d.len() {
                assert(!center_in(item, d[j]));
            }
        }
    }
}

/// An item with an area gets the id and the label of its best block if half of the item, or its
/// centre, lies in that block, and none otherwise.
pub proof fn items_with_area_follow_their_best_block(
    item: TextItem,
    blocks: Seq<LayoutBlock>,
    k: int,
)
    requires
        has_area(item),
        best_block(item, blocks) == Some(k),
    ensures
        F32::ratio(1, 2).at_most(overlap_ratio(item, blocks[k])) || center_in(item, blocks[k])
            ==> annotated(item, blocks).layout_block_id == Some(blocks[k].id) && annotated(
            item,
            blocks,
        ).layout_label == Some(blocks[k].label),
        !F32::ratio(1, 2).at_most(overlap_ratio(item, blocks[k])) && !center_in(item, blocks[k])
            ==> annotated(item, blocks).layout_block_id is None && annotated(
            item,
            blocks,
        ).layout_label is None,
{
}

/// Whether the blocks are these frames, exactly.
pub open spec fn are_framed(blocks: Seq<LayoutBlock>, frames: Seq<crate::types::Frame>) -> bool {
    frames.len() == blocks.len() && forall|i: int|
        0 <= i < blocks.len() ==> (#[trigger] blocks[i]).area_rect().is_framed(frames[i])
}

/// On whole points, an item with an area goes to the first of the blocks that hold most of it, if
/// at least half of its area lies there or its centre does, and to none otherwise.
pub proof fn framed_items_go_where_most_of_them_is(
    item: TextItem,
    blocks: Seq<LayoutBlock>,
    g: crate::types::Frame,
    frames: Seq<crate::types::Frame>,
    k: int,
)
    requires
        item.area_rect().is_framed(g),
        g.size() > 0,
        are_framed(blocks, frames),
        0 <= k < blocks.len(),
        forall|j: int|
            0 <= j < blocks.len() ==> g.shared(#[trigger] frames[j]) <= g.shared(frames[k]),
        forall|j: int| 0 <= j < k ==> g.shared(#[trigger] frames[j]) < g.shared(frames[k]),
    ensures
        annotated(item, blocks).layout_block_id == if 2 * g.shared(frames[k]) >= g.size()
            || frames[k].holds_centre_of(g) {
            Some(blocks[k].id)
        } else {
            None
        },
        annotated(item, blocks).layout_label == if 2 * g.shared(frames[k]) >= g.size()
            || frames[k].holds_centre_of(g) {
            Some(blocks[k].label)
        } else {
            None
        },
{
    let a = item.area_rect();
    crate::types::framed_edges(a, g);
    crate::float::exact::zero_is_whole();
    crate::float::exact::measures_are_ordered(F32 { bits: 0 }, a.area(), 0, 256 * g.size());
    assert forall|j: int| 0 <= j < blocks.len() implies {
        &&& overlap_ratio(item, #[trigger] blocks[j]).less(overlap_ratio(item, blocks[k])) <==> g.shared(
            frames[j],
        ) < g.shared(frames[k])
        &&& !overlap_ratio(item, blocks[j]).nan()
    } by {
        crate::types::framed_overlaps(a, blocks[j].area_rect(), g, frames[j]);
        crate::types::framed_overlaps(a, blocks[k].area_rect(), g, frames[k]);
        crate::float::exact::shares_are_ordered(
            a.overlap_area(blocks[j].area_rect()),
            a.overlap_area(blocks[k].area_rect()),
            a.area(),
            g.shared(frames[j]),
            g.shared(frames[k]),
            g.size(),
        );
    }
    best_block_has_largest_overlap(item, blocks, k);
    let m = best_block(item, blocks)->0;
    assert(overlap_ratio(item, blocks[m]).less(overlap_ratio(item, blocks[k])) <==> g.shared(
        frames[m],
    ) < g.shared(frames[k]));
    if m < k {
        assert(g.shared(frames[m]) < g.shared(frames[k]));
    }
    if k < m {
        crate::types::framed_overlaps(a, blocks[m].area_rect(), g, frames[m]);
        crate::types::framed_overlaps(a, blocks[k].area_rect(), g, frames[k]);
        crate::float::exact::shares_are_ordered(
            a.overlap_area(blocks[k].area_rect()),
            a.overlap_area(blocks[m].area_rect()),
            a.area(),
            g.shared(frames[k]),
            g.shared(frames[m]),
            g.size(),
        );
        assert(g.shared(frames[m]) <= g.shared(frames[k]));
    }
    assert(m == k);
    crate::types::framed_overlaps(a, blocks[k].area_rect(), g, frames[k]);
    crate::float::exact::shares_are_ordered(
        a.overlap_area(blocks[k].area_rect()),
        a.overlap_area(blocks[k].area_rect()),
        a.area(),
        g.shared(frames[k]),
        g.shared(frames[k]),
        g.size(),
    );
    crate::types::framed_centres(a, blocks[k].area_rect(), g, frames[k]);
}

/// On whole points, an item without area goes to the first of the blocks that its centre lies in,
/// and to none if there is none.
pub proof fn framed_items_without_area_go_where_their_centre_is(
    item: TextItem,
    blocks: Seq<LayoutBlock>,
    g: crate::types::Frame,
    frames: Seq<crate::types::Frame>,
)
    requires
        item.area_rect().is_framed(g),
        g.size() == 0,
        are_framed(blocks, frames),
    ensures
        forall|k: int|
            0 <= k < blocks.len() && frames[k].holds_centre_of(g) && (forall|j: int|
                0 <= j < k ==> !(#[trigger] frames[j]).holds_centre_of(g)) ==> annotated(
                item,
                blocks,
            ).layout_block_id == Some((#[trigger] blocks[k]).id) && annotated(
                item,
                blocks,
            ).layout_label == Some(blocks[k].label),
        (forall|j: int| 0 <= j < blocks.len() ==> !(#[trigger] frames[j]).holds_centre_of(g))
            ==> annotated(item, blocks).layout_block_id is None && annotated(
            item,
            blocks,
        ).layout_label is None,
{
    let a = item.area_rect();
    crate::types::framed_edges(a, g);
    crate::float::exact::zero_is_whole();
    crate::float::exact::measures_are_ordered(F32 { bits: 0 }, a.area(), 0, 256 * g.size());
    assert(!has_area(item));
    assert forall|j: int| 0 <= j < blocks.len() implies center_in(item, #[trigger] blocks[j])
        == frames[j].holds_centre_of(g) by {
        crate::types::framed_centres(a, blocks[j].area_rect(), g, frames[j]);
    }
    lemma_central_block(item, blocks);
    if let Some(m) = central_block(item, blocks) {
        assert(center_in(item, blocks[m]) == frames[m].holds_centre_of(g));
        assert forall|j: int| 0 <= j < m implies !(#[trigger] frames[j]).holds_centre_of(g) by {
            assert(!center_in(item, blocks[j]));
        }
    } else {
        assert forall|j: int| 0 <= j < blocks.len() implies !(
        #[trigger] frames[j]).holds_centre_of(g) by {
            assert(!center_in(item, blocks[j]));
        }
    }
}

/// Assigning again changes nothing: the assignment reads only the places.
pub proof fn assignment_is_idempotent(item: TextItem, blocks: Seq<LayoutBlock>)
    ensures
        annotated(annotated(item, blocks), blocks) == annotated(item, blocks),
{
    lemma_same_place_same_best(item, annotated(item, blocks), blocks);
}

proof fn lemma_same_place_same_best(a: TextItem, b: TextItem, blocks: Seq<LayoutBlock>)
    requires
        a.area_rect() == b.area_rect(),
    ensures
        best_block(a, blocks) == best_block(b, blocks),
        central_block(a, blocks) == central_block(b, blocks),
    decreases blocks.len(),
{
    if blocks.len() > 0 {
        lemma_same_place_same_best(a, b, blocks.drop_last());
    }
}

/// Assign each text item to the best matching detected layout block.
///
/// The assignment favors the largest overlap by text-item area. If overlap is
/// small, the item center is still accepted when it falls inside the block so
/// thin glyph boxes near block edges are not dropped. An item without area overlaps
/// no block, so that its center alone decides.
pub fn assign_text_items_to_layout_blocks(items: &mut Vec<TextItem>, blocks: &Vec<LayoutBlock>)
    ensures
        final(items)@ == old(items)@.map_values(|item: TextItem| annotated(item, blocks@)),
{
    let ghost before = items@;
    let n: usize = items.len();
    let mut i: usize = 0;
    while i < n
        invariant
            i <= n,
            n == before.len(),
            items@.len() == n,
            forall|j: int| 0 <= j < i ==> #[trigger] items@[j] == annotated(before[j], blocks@),
            forall|j: int| i <= j < n ==> #[trigger] items@[j] == before[j],
        decreases n - i,
    {
        let home: Option<usize> = find_home_block(&items[i], blocks);
        match home {
            Some(k) => {
                let id: usize = blocks[k].id;
                let label: String = blocks[k].label.clone();
                items[i].layout_block_id = Some(id);
                items[i].layout_label = Some(label);
            },
            None => {
                items[i].layout_block_id = None;
                items[i].layout_label = None;
            },
        }
        i = i + 1;
    }
    assert(items@ =~= before.map_values(|item: TextItem| annotated(item, blocks@)));
}

/// The index of the block that an item belongs to.
fn find_home_block(item: &TextItem, blocks: &Vec<LayoutBlock>) -> (r: Option<usize>)
    ensures
        match r {
            Some(k) => k < blocks@.len() && home_block(*item, blocks@) == Some(blocks@[k as int]),
            None => home_block(*item, blocks@) is None,
        },
{
    let zero: F32 = F32::from_bits(0);
    if !item.width.mul(item.height).gt(zero) {
        return find_central_block(item, blocks);
    }
    if blocks.len() == 0 {
        return None;
    }
    let mut best: usize = 0;
    let mut best_ratio: F32 = item_overlap(item, &blocks[0]);
    let mut j: usize = 1;
    proof {
        reveal_with_fuel(best_block, 2);
        assert(blocks@.take(1).drop_last() =~= Seq::empty());
    }
    while j < blocks.len()
        invariant
            1 <= j <= blocks@.len(),
            best < j,
            best_block(*item, blocks@.take(j as int)) == Some(best as int),
            best_ratio == overlap_ratio(*item, blocks@[best as int]),
        decreases blocks@.len() - j,
    {
        let ratio: F32 = item_overlap(item, &blocks[j]);
        assert(blocks@.take(j + 1).drop_last() =~= blocks@.take(j as int));
        if ratio.gt(best_ratio) {
            best = j;
            best_ratio = ratio;
        }
        j = j + 1;
    }
    assert(blocks@.take(j as int) =~= blocks@);
    let half: F32 = F32::fraction(1, 2);
    if best_ratio.ge(half) || has_center_in(item, &blocks[best]) {
        Some(best)
    } else {
        None
    }
}

/// The index of the first block that the centre of an item lies in.
fn find_central_block(item: &TextItem, blocks: &Vec<LayoutBlock>) -> (r: Option<usize>)
    ensures
        match r {
            Some(k) => k < blocks@.len() && central_block(*item, blocks@) == Some(k as int),
            None => central_block(*item, blocks@) is None,
        },
{
    let mut found: Option<usize> = None;
    let mut j: usize = 0;
    while j < blocks.len()
        invariant
            j <= blocks@.len(),
            match found {
                Some(k) => k < j && central_block(*item, blocks@.take(j as int)) == Some(k as int),
                None => central_block(*item, blocks@.take(j as int)) is None,
            },
        decreases blocks@.len() - j,
    {
        assert(blocks@.take(j + 1).drop_last() =~= blocks@.take(j as int));
        if found.is_none() && has_center_in(item, &blocks[j]) {
            found = Some(j);
        }
        j = j + 1;
    }
    assert(blocks@.take(j as int) =~= blocks@);
    found
}

/// Whether the centre of a text item lies in a block.
fn has_center_in(item: &TextItem, block: &LayoutBlock) -> (r: bool)
    ensures
        r == center_in(*item, *block),
{
    let two: F32 = F32::from_u32(2);
    block.rect().contains_point(item.x.add(item.width.div(two)), item.y.add(item.height.div(two)))
}

/// The share of a text item that lies in a block.
fn item_overlap(item: &TextItem, block: &LayoutBlock) -> (r: F32)
    ensures
        r == overlap_ratio(*item, *block),
{
    let zero: F32 = F32::from_bits(0);
    let area: F32 = item.width.mul(item.height);
    if area.gt(zero) {
        item.rect().intersection_area(block.rect()).div(area)
    } else {
        zero
    }
}

/// Whether some item belongs to the block with this id.
pub open spec fn has_text(id: usize, items: Seq<TextItem>) -> bool {
    exists|i: int| 0 <= i < items.len() && (#[trigger] items[i]).layout_block_id == Some(id)
}

/// The blocks that show a picture or that some text belongs to.
pub open spec fn retained(blocks: Seq<LayoutBlock>, items: Seq<TextItem>) -> Seq<LayoutBlock> {
    blocks.filter(|block: LayoutBlock| is_picture(block) || has_text(block.id, items))
}

/// The blocks with their indices as ids.
pub open spec fn renumbered(blocks: Seq<LayoutBlock>) -> Seq<LayoutBlock> {
    Seq::new(blocks.len(), |i: int| LayoutBlock { id: i as usize, ..blocks[i] })
}

/// The last block with this id.
pub open spec fn last_with_id(blocks: Seq<LayoutBlock>, id: usize) -> Option<int>
    decreases blocks.len(),
{
    if blocks.len() == 0 {
        None
    } else if blocks.last().id == id {
        Some(blocks.len() - 1)
    } else {
        last_with_id(blocks.drop_last(), id)
    }
}

/// The item with the new id of its block and that block's label; without either where there
/// is no such block.
pub open spec fn remapped(item: TextItem, kept: Seq<LayoutBlock>) -> TextItem {
    match item.layout_block_id {
        Some(id) => match last_with_id(kept, id) {
            Some(k) => TextItem {
                layout_block_id: Some(k as usize),
                layout_label: Some(kept[k].label),
                ..item
            },
            None => TextItem { layout_block_id: None, layout_label: None, ..item },
        },
        None => item,
    }
}

proof fn lemma_last_with_id(blocks: Seq<LayoutBlock>, id: usize)
    ensures
        match last_with_id(blocks, id) {
            Some(k) => 0 <= k < blocks.len() && blocks[k].id == id && (forall|j: int|
                k < j < blocks.len() ==> (#[trigger] blocks[j]).id != id),
            None => forall|j: int| 0 <= j < blocks.len() ==> (#[trigger] blocks[j]).id != id,
        },
    decreases blocks.len(),
{
    if blocks.len() > 0 && blocks.last().id != id {
        let d = blocks.drop_last();
        lemma_last_with_id(d, id);
        match last_with_id(d, id) {
            Some(k) => {
                assert forall|j: int| k < j < blocks.len() implies (#[trigger] blocks[j]).id != id by {
                    if j < d.len() {
                        assert(d[j].id != id);
                    }
                }
            },
            None => {
                assert forall|j: int| 0 <= j < blocks.len() implies (#[trigger] blocks[j]).id != id by {
                    if j < d.len() {
                        assert(d[j].id != id);
                    }
                }
            },
        }
    }
}

/// Remove empty non-picture blocks, then re-assign compact block ids.
///
/// This keeps picture blocks even when OCR/text assignment does not place any
/// text items inside (for image-heavy regions), while dropping empty layout
/// blocks that would otherwise produce noisy, blank output entries.
pub fn compact_layout_blocks(blocks: &mut Vec<LayoutBlock>, items: &mut Vec<TextItem>)
    ensures
        final(blocks)@ == renumbered(retained(old(blocks)@, old(items)@)),
        final(items)@ == old(items)@.map_values(
            |item: TextItem| remapped(item, retained(old(blocks)@, old(items)@)),
        ),
{
    let ghost blocks0 = blocks@;
    let ghost items0 = items@;
    let ghost keep = |block: LayoutBlock| is_picture(block) || has_text(block.id, items0);
    let mut kept: Vec<LayoutBlock> = Vec::new();
    let mut b: usize = 0;
    while b < blocks.len()
        invariant
            b <= blocks@.len(),
            blocks@ == blocks0,
            items@ == items0,
            keep == (|block: LayoutBlock| is_picture(block) || has_text(block.id, items0)),
            kept@ == blocks0.take(b as int).filter(keep),
        decreases blocks@.len() - b,
    {
        reveal(Seq::filter);
        assert(blocks0.take(b + 1).drop_last() =~= blocks0.take(b as int));
        if same_text(blocks[b].label.as_str(), "Picture") || any_text(blocks[b].id, items) {
            kept.push(blocks[b].clone());
        }
        b = b + 1;
    }
    assert(blocks0.take(b as int) =~= blocks0);
    assert(kept@ == retained(blocks0, items0));
    let n: usize = items.len();
    let mut i: usize = 0;
    while i < n
        invariant
            i <= n,
            n == items0.len(),
            items@.len() == n,
            forall|j: int| 0 <= j < i ==> #[trigger] items@[j] == remapped(items0[j], kept@),
            forall|j: int| i <= j < n ==> #[trigger] items@[j] == items0[j],
        decreases n - i,
    {
        if let Some(id) = items[i].layout_block_id {
            proof {
                lemma_last_with_id(kept@, id);
            }
            match find_last_with_id(&kept, id) {
                Some(k) => {
                    let label: String = kept[k].label.clone();
                    items[i].layout_block_id = Some(k);
                    items[i].layout_label = Some(label);
                },
                None => {
                    items[i].layout_block_id = None;
                    items[i].layout_label = None;
                },
            }
        }
        i = i + 1;
    }
    assert(items@ =~= items0.map_values(|item: TextItem| remapped(item, kept@)));
    let ghost kept0 = kept@;
    let mut c: usize = 0;
    while c < kept.len()
        invariant
            c <= kept@.len(),
            kept@.len() == kept0.len(),
            forall|j: int|
                0 <= j < c ==> #[trigger] kept@[j] == (LayoutBlock { id: j as usize, ..kept0[j] }),
            forall|j: int| c <= j < kept0.len() ==> #[trigger] kept@[j] == kept0[j],
        decreases kept@.len() - c,
    {
        kept[c].id = c;
        c = c + 1;
    }
    assert(kept@ =~= renumbered(kept0));
    *blocks = kept;
}

/// Whether some item belongs to the block with this id.
fn any_text(id: usize, items: &Vec<TextItem>) -> (r: bool)
    ensures
        r == has_text(id, items@),
{
    let mut i: usize = 0;
    while i < items.len()
        invariant
            i <= items@.len(),
            forall|j: int| 0 <= j < i ==> (#[trigger] items@[j]).layout_block_id != Some(id),
        decreases items@.len() - i,
    {
        if let Some(other) = items[i].layout_block_id {
            if other == id {
                return true;
            }
        }
        i = i + 1;
    }
    false
}

/// The index of the last block with this id.
fn find_last_with_id(blocks: &Vec<LayoutBlock>, id: usize) -> (r: Option<usize>)
    ensures
        match r {
            Some(k) => last_with_id(blocks@, id) == Some(k as int),
            None => last_with_id(blocks@, id) is None,
        },
{
    let mut n: usize = blocks.len();
    assert(blocks@.take(n as int) =~= blocks@);
    while n > 0
        invariant
            n <= blocks@.len(),
            last_with_id(blocks@, id) == last_with_id(blocks@.take(n as int), id),
        decreases n,
    {
        assert(blocks@.take(n as int).drop_last() =~= blocks@.take(n - 1));
        if blocks[n - 1].id == id {
            return Some(n - 1);
        }
        n = n - 1;
    }
    None
}

/// The block ids are the indices of the blocks, and an item with a block has that block's label.
pub open spec fn coherent(blocks: Seq<LayoutBlock>, items: Seq<TextItem>) -> bool {
    &&& forall|i: int| 0 <= i < blocks.len() ==> (#[trigger] blocks[i]).id == i
    &&& forall|j: int| 0 <= j < items.len() ==> ((#[trigger] items[j]).layout_block_id matches Some(id)
        ==> id < blocks.len() && items[j].layout_label == Some(blocks[id as int].label))
}

/// Compaction leaves ids and labels that agree.
pub proof fn compaction_makes_ids_coherent(blocks: Seq<LayoutBlock>, items: Seq<TextItem>)
    requires
        blocks.len() <= usize::MAX,
    ensures
        coherent(
            renumbered(retained(blocks, items)),
            items.map_values(|item: TextItem| remapped(item, retained(blocks, items))),
        ),
{
    let kept = retained(blocks, items);
    let keep = |block: LayoutBlock| is_picture(block) || has_text(block.id, items);
    blocks.lemma_filter_len(keep);
    let out = items.map_values(|item: TextItem| remapped(item, kept));
    assert forall|j: int| 0 <= j < out.len() implies ((#[trigger] out[j]).layout_block_id matches Some(
        id,
    ) ==> id < kept.len() && out[j].layout_label == Some(renumbered(kept)[id as int].label)) by {
        if let Some(id) = items[j].layout_block_id {
            lemma_last_with_id(kept, id);
        }
    }
}

/// Compaction keeps every block that shows a picture, whether text belongs to it or not.
pub proof fn compaction_keeps_pictures(
    blocks: Seq<LayoutBlock>,
    items: Seq<TextItem>,
    block: LayoutBlock,
)
    requires
        blocks.contains(block),
        is_picture(block),
    ensures
        retained(blocks, items).contains(block),
{
    let keep = |block: LayoutBlock| is_picture(block) || has_text(block.id, items);
    let i = choose|i: int| 0 <= i < blocks.len() && blocks[i] == block;
    blocks.lemma_filter_contains(keep, i);
}

/// Whether no two blocks have the same id.
pub open spec fn distinct_ids(blocks: Seq<LayoutBlock>) -> bool {
    forall|i: int, j: int|
        0 <= i < j < blocks.len() ==> (#[trigger] blocks[i]).id != (#[trigger] blocks[j]).id
}

proof fn lemma_filter_distinct(blocks: Seq<LayoutBlock>, p: spec_fn(LayoutBlock) -> bool)
    requires
        distinct_ids(blocks),
    ensures
        distinct_ids(blocks.filter(p)),
    decreases blocks.len(),
{
    reveal(Seq::filter);
    if blocks.len() > 0 {
        let d = blocks.drop_last();
        lemma_filter_distinct(d, p);
        let before = d.filter(p);
        assert forall|i: int| 0 <= i < before.len() implies (#[trigger] before[i]).id
            != blocks.last().id by {
            assert(before.contains(before[i]));
            d.lemma_filter_contains_rev(p, before[i]);
            let k = choose|k: int| 0 <= k < d.len() && d[k] == before[i];
            assert(blocks[k].id != blocks[blocks.len() - 1].id);
        }
    }
}

proof fn lemma_filter_all(blocks: Seq<LayoutBlock>, p: spec_fn(LayoutBlock) -> bool)
    requires
        forall|i: int| 0 <= i < blocks.len() ==> p(#[trigger] blocks[i]),
    ensures
        blocks.filter(p) == blocks,
    decreases blocks.len(),
{
    reveal(Seq::filter);
    if blocks.len() > 0 {
        let d = blocks.drop_last();
        assert forall|i: int| 0 <= i < d.len() implies p(#[trigger] d[i]) by {
            assert(p(blocks[i]));
        }
        lemma_filter_all(d, p);
        assert(p(blocks[blocks.len() - 1]));
        assert(d.push(blocks.last()) =~= blocks);
    } else {
        assert(blocks.filter(p) =~= blocks);
    }
}

/// Compacting again changes nothing, where no two blocks have the same id.
pub proof fn compaction_is_idempotent(blocks: Seq<LayoutBlock>, items: Seq<TextItem>)
    requires
        blocks.len() <= usize::MAX,
        distinct_ids(blocks),
    ensures
        ({
            let kept = retained(blocks, items);
            let blocks1 = renumbered(kept);
            let items1 = items.map_values(|item: TextItem| remapped(item, kept));
            let kept1 = retained(blocks1, items1);
            &&& renumbered(kept1) == blocks1
            &&& items1.map_values(|item: TextItem| remapped(item, kept1)) == items1
        }),
{
    let keep = |block: LayoutBlock| is_picture(block) || has_text(block.id, items);
    let kept = retained(blocks, items);
    let blocks1 = renumbered(kept);
    let items1 = items.map_values(|item: TextItem| remapped(item, kept));
    let keep1 = |block: LayoutBlock| is_picture(block) || has_text(block.id, items1);
    blocks.lemma_filter_len(keep);
    lemma_filter_distinct(blocks, keep);
    compaction_makes_ids_coherent(blocks, items);
    assert forall|k: int| 0 <= k < blocks1.len() implies keep1(#[trigger] blocks1[k]) by {
        blocks.lemma_filter_pred(keep, k);
        assert(blocks1[k].label == kept[k].label);
        if !is_picture(kept[k]) {
            let j = choose|j: int|
                0 <= j < items.len() && (#[trigger] items[j]).layout_block_id == Some(kept[k].id);
            lemma_last_with_id(kept, kept[k].id);
            let m = last_with_id(kept, kept[k].id)->0;
            assert(kept[m].id == kept[k].id);
            assert(m == k);
            assert(items1[j].layout_block_id == Some(blocks1[k].id));
        }
    }
    lemma_filter_all(blocks1, keep1);
    let kept1 = retained(blocks1, items1);
    assert(renumbered(kept1) =~= blocks1);
    assert forall|j: int| 0 <= j < items1.len() implies remapped(items1[j], kept1)
        == #[trigger] items1[j] by {
        if let Some(id) = items1[j].layout_block_id {
            lemma_last_with_id(kept1, id);
            assert(kept1[id as int].id == id);
        }
    }
    assert(items1.map_values(|item: TextItem| remapped(item, kept1)) =~= items1);
}

/// Compaction keeps a block exactly if it shows a picture or some text belongs to it, and keeps the
/// order of the blocks.
pub proof fn compaction_keeps_the_blocks_in_use(
    blocks: Seq<LayoutBlock>,
    items: Seq<TextItem>,
    k: int,
)
    requires
        0 <= k < blocks.len(),
    ensures
        retained(blocks, items).contains(blocks[k]) <==> blocks[k].label@ == "Picture"@ || exists|
            j: int,
        |
            0 <= j < items.len() && (#[trigger] items[j]).layout_block_id == Some(blocks[k].id),
        retained(blocks, items).len() <= blocks.len(),
{
    let keep = |block: LayoutBlock| is_picture(block) || has_text(block.id, items);
    let kept = retained(blocks, items);
    blocks.lemma_filter_len(keep);
    if keep(blocks[k]) {
        blocks.lemma_filter_contains(keep, k);
    }
    if kept.contains(blocks[k]) {
        let i = choose|i: int| 0 <= i < kept.len() && kept[i] == blocks[k];
        blocks.lemma_filter_pred(keep, i);
    }
}

/// Where ids tell blocks apart, an item that belongs to a block belongs to the same block after
/// compaction, under its new id: one with the same label and in the same place. An item without a
/// block stays without one.
pub proof fn compaction_keeps_the_block_of_each_item(
    blocks: Seq<LayoutBlock>,
    items: Seq<TextItem>,
    j: int,
    k: int,
)
    requires
        blocks.len() <= usize::MAX,
        distinct_ids(blocks),
        0 <= j < items.len(),
        0 <= k < blocks.len(),
    ensures
        ({
            let kept = retained(blocks, items);
            let item = remapped(items[j], kept);
            &&& items[j].layout_block_id is None ==> item == items[j]
            &&& items[j].layout_block_id == Some(blocks[k].id) ==> {
                &&& item.layout_block_id matches Some(id) && id < renumbered(kept).len() && renumbered(
                    kept,
                )[id as int] == (LayoutBlock { id, ..blocks[k] })
                &&& item.layout_label == Some(blocks[k].label)
            }
        }),
{
    let keep = |block: LayoutBlock| is_picture(block) || has_text(block.id, items);
    let kept = retained(blocks, items);
    blocks.lemma_filter_len(keep);
    if items[j].layout_block_id == Some(blocks[k].id) {
        compaction_keeps_the_blocks_in_use(blocks, items, k);
        assert(kept.contains(blocks[k]));
        let i = choose|i: int| 0 <= i < kept.len() && kept[i] == blocks[k];
        lemma_last_with_id(kept, blocks[k].id);
        let m = last_with_id(kept, blocks[k].id)->0;
        assert(kept.contains(kept[m]));
        broadcast use vstd::seq_lib::group_filter_ensures;

        assert(blocks.contains(kept[m])) by {
            blocks.lemma_filter_contains_rev(keep, kept[m]);
        }
        let n = choose|n: int| 0 <= n < blocks.len() && blocks[n] == kept[m];
        assert(blocks[n].id == blocks[k].id);
        assert(n == k);
    }
}

} // verus!
