//! The JSON form of parsed pages.
use crate::float::F32;
use crate::types::{clone_text, LayoutBlock, ParsedPage, TextItem};
use vstd::prelude::*;
use vstd::slice::*;

verus! {

/// A text item in the JSON output. The fields that may be absent are left out where they are.
#[derive(Debug)]
pub struct JsonTextItem {
    pub text: String,
    pub x: F32,
    pub y: F32,
    pub width: F32,
    pub height: F32,
    pub font_name: Option<String>,
    pub font_size: Option<F32>,
    pub confidence: Option<F32>,
    pub layout_block_id: Option<usize>,
    pub layout_label: Option<String>,
}

/// JSON representation of one detected layout block.
#[derive(Debug)]
pub struct JsonLayoutBlock {
    /// Stable page-local block id.
    pub id: usize,
    /// Public layout class label.
    pub label: String,
    /// Model confidence score for the block.
    pub confidence: F32,
    /// Left position in page coordinates.
    pub x: F32,
    /// Top position in page coordinates.
    pub y: F32,
    /// Block width in page coordinates.
    pub width: F32,
    /// Block height in page coordinates.
    pub height: F32,
}

/// A page in the JSON output.
#[derive(Debug)]
pub struct JsonPage {
    pub page: usize,
    pub width: F32,
    pub height: F32,
    pub text: String,
    pub text_items: Vec<JsonTextItem>,
    /// Layout blocks detected on this page, kept separate from text items.
    pub layout_blocks: Vec<JsonLayoutBlock>,
}

/// The whole JSON output.
#[derive(Debug)]
pub struct ParseResultJson {
    pub pages: Vec<JsonPage>,
}

/// The JSON form of a text item. Text that was not recognised from an image is certain.
pub open spec fn item_form(item: TextItem) -> JsonTextItem {
    JsonTextItem {
        text: item.text,
        x: item.x,
        y: item.y,
        width: item.width,
        height: item.height,
        font_name: item.font_name,
        font_size: item.font_size,
        confidence: match item.confidence {
            Some(c) => Some(c),
            None => Some(F32::from_nat(1)),
        },
        layout_block_id: item.layout_block_id,
        layout_label: item.layout_label,
    }
}

/// The JSON form of a layout block.
pub open spec fn block_form(block: LayoutBlock) -> JsonLayoutBlock {
    JsonLayoutBlock {
        id: block.id,
        label: block.label,
        confidence: block.confidence,
        x: block.x,
        y: block.y,
        width: block.width,
        height: block.height,
    }
}

impl JsonPage {
    /// Whether this is the JSON form of a page: its number, its size and its text, and the forms
    /// of its text items and of its layout blocks, in order.
    pub open spec fn is_form_of(self, page: ParsedPage) -> bool {
        &&& self.page == page.page_number
        &&& self.width == page.page_width
        &&& self.height == page.page_height
        &&& self.text@ == page.text@
        &&& self.text_items@ == page.text_items@.map_values(|item: TextItem| item_form(item))
        &&& self.layout_blocks@ == page.layout_blocks@.map_values(
            |block: LayoutBlock| block_form(block),
        )
    }

    /// Create the JSON representation of a page.
    pub fn from_page(page: &ParsedPage) -> (r: Self)
        ensures
            r.is_form_of(*page),
    {
        let mut text_items: Vec<JsonTextItem> = Vec::new();
        let mut i: usize = 0;
        while i < page.text_items.len()
            invariant
                i <= page.text_items@.len(),
                text_items@ =~= page.text_items@.take(i as int).map_values(
                    |item: TextItem| item_form(item),
                ),
            decreases page.text_items@.len() - i,
        {
            text_items.push(JsonTextItem::from_text_item(&page.text_items[i]));
            i = i + 1;
        }
        let mut layout_blocks: Vec<JsonLayoutBlock> = Vec::new();
        let mut j: usize = 0;
        while j < page.layout_blocks.len()
            invariant
                j <= page.layout_blocks@.len(),
                layout_blocks@ =~= page.layout_blocks@.take(j as int).map_values(
                    |block: LayoutBlock| block_form(block),
                ),
            decreases page.layout_blocks@.len() - j,
        {
            layout_blocks.push(JsonLayoutBlock::from_layout_block(&page.layout_blocks[j]));
            j = j + 1;
        }
        assert(page.text_items@.take(i as int) =~= page.text_items@);
        assert(page.layout_blocks@.take(j as int) =~= page.layout_blocks@);
        JsonPage {
            page: page.page_number,
            width: page.page_width,
            height: page.page_height,
            text: page.text.clone(),
            text_items,
            layout_blocks,
        }
    }
}

impl JsonTextItem {
    /// Create the JSON representation of a text item.
    pub fn from_text_item(item: &TextItem) -> (r: Self)
        ensures
            r == item_form(*item),
    {
        let confidence: Option<F32> = match item.confidence {
            Some(c) => Some(c),
            None => Some(F32::from_u32(1)),
        };
        JsonTextItem {
            text: item.text.clone(),
            x: item.x,
            y: item.y,
            width: item.width,
            height: item.height,
            font_name: clone_text(&item.font_name),
            font_size: item.font_size,
            confidence,
            layout_block_id: item.layout_block_id,
            layout_label: clone_text(&item.layout_label),
        }
    }
}

impl JsonLayoutBlock {
    /// Create the JSON representation for a detected layout block.
    pub fn from_layout_block(block: &LayoutBlock) -> (r: Self)
        ensures
            r == block_form(*block),
    {
        JsonLayoutBlock {
            id: block.id,
            label: block.label.clone(),
            confidence: block.confidence,
            x: block.x,
            y: block.y,
            width: block.width,
            height: block.height,
        }
    }
}

/// Build structured JSON output from parsed pages.
pub fn build_json(pages: &[ParsedPage]) -> (r: ParseResultJson)
    ensures
        r.pages@.len() == pages@.len(),
        forall|i: int|
            0 <= i < pages@.len() ==> (#[trigger] r.pages@[i]).is_form_of(pages@[i]),
{
    let mut out: Vec<JsonPage> = Vec::new();
    let mut i: usize = 0;
    while i < pages.len()
        invariant
            i <= pages@.len(),
            out@.len() == i,
            forall|k: int| 0 <= k < i ==> (#[trigger] out@[k]).is_form_of(pages@[k]),
        decreases pages@.len() - i,
    {
        out.push(JsonPage::from_page(slice_index_get(pages, i)));
        i = i + 1;
    }
    ParseResultJson { pages: out }
}

/// The form of a text item shows all of it that the output carries: its text and its place, its
/// font, its block and its label, and how certain it is, which is one where nothing is known.
pub proof fn item_forms_tell_items_apart(a: TextItem, b: TextItem)
    requires
        item_form(a) == item_form(b),
    ensures
        a.text == b.text,
        a.x == b.x && a.y == b.y && a.width == b.width && a.height == b.height,
        a.font_name == b.font_name && a.font_size == b.font_size,
        a.layout_block_id == b.layout_block_id && a.layout_label == b.layout_label,
        a.confidence is Some && b.confidence is Some ==> a.confidence == b.confidence,
        a.confidence is None ==> (item_form(a).confidence matches Some(c) && c.is_whole(1)),
{
    crate::float::exact::naturals_are_whole(1);
}

/// The form of a layout block shows all of it.
pub proof fn block_forms_tell_blocks_apart(a: LayoutBlock, b: LayoutBlock)
    requires
        block_form(a) == block_form(b),
    ensures
        a == b,
{
}

} // verus!
