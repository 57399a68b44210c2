//! Parsing documents: what is decided around extraction, recognition and layout detection.
use crate::config::{ImageMode, LiteParseConfig, OutputFormat};
use crate::error::LiteParseError;
use crate::float::F32;
use crate::layout_annotate::annotate_layout_png;
use crate::layout_merge::{assign_text_items_to_layout_blocks, compact_layout_blocks};
use crate::markdown_layout::blocks::Block;
use crate::output::markdown::format_markdown;
use crate::text::{join, to_decimal, trim};
use crate::types::{ExtractedImage, LayoutBlock, OutlineTarget, ParsedPage, TextItem};
use vstd::prelude::*;
use vstd::string::*;

verus! {

/// The items of a block.
pub open spec fn items_in(items: Seq<TextItem>, id: usize) -> Seq<TextItem> {
    items.filter(|item: TextItem| item.layout_block_id == Some(id))
}

/// The items without a block.
pub open spec fn items_outside(items: Seq<TextItem>) -> Seq<TextItem> {
    items.filter(|item: TextItem| item.layout_block_id is None)
}

/// Whether a text is what `project` makes of items of a page.
pub open spec fn is_part<P>(
    page_number: usize,
    page_width: F32,
    page_height: F32,
    items: Seq<TextItem>,
    project: P,
    part: Seq<char>,
) -> bool where P: Fn(usize, F32, F32, Vec<TextItem>) -> String {
    exists|v: Vec<TextItem>, text: String|
        v@ == items && #[trigger] call_ensures(
            project,
            (page_number, page_width, page_height, v),
            text,
        ) && part == text@
}

/// Whether texts are what `project` makes of the items of each block of a page, and then of the
/// items without a block.
pub open spec fn are_parts<P>(page: ParsedPage, project: P, parts: Seq<Seq<char>>) -> bool where
    P: Fn(usize, F32, F32, Vec<TextItem>) -> String,
 {
    &&& parts.len() == page.layout_blocks@.len() + 1
    &&& forall|k: int|
        0 <= k < page.layout_blocks@.len() ==> is_part(
            page.page_number,
            page.page_width,
            page.page_height,
            items_in(page.text_items@, page.layout_blocks@[k].id),
            project,
            #[trigger] parts[k],
        )
    &&& is_part(
        page.page_number,
        page.page_width,
        page.page_height,
        items_outside(page.text_items@),
        project,
        parts.last(),
    )
}

/// The parts that are not blank, without the spaces around them.
pub open spec fn sections_of(parts: Seq<Seq<char>>) -> Seq<Seq<char>>
    decreases parts.len(),
{
    if parts.len() == 0 {
        Seq::empty()
    } else {
        let before = sections_of(parts.drop_last());
        let section = crate::text::trimmed(parts.last());
        if section.len() == 0 {
            before
        } else {
            before.push(section)
        }
    }
}

/// The text of a page from its parts, if any of them is not blank.
pub open spec fn assembled(parts: Seq<Seq<char>>) -> Option<Seq<char>> {
    let sections = sections_of(parts);
    if sections.len() == 0 {
        None
    } else {
        Some(crate::text::joined(sections, "\n\n"@))
    }
}

/// The text that may be there.
pub open spec fn text_in(text: Option<String>) -> Option<Seq<char>> {
    match text {
        Some(t) => Some(t@),
        None => None,
    }
}

/// Whether a text is the text of a page in the order of its blocks.
pub open spec fn is_rebuilt<P>(page: ParsedPage, project: P, text: Option<Seq<char>>) -> bool where
    P: Fn(usize, F32, F32, Vec<TextItem>) -> String,
 {
    if page.layout_blocks@.len() == 0 {
        text is None
    } else {
        exists|parts: Seq<Seq<char>>|
            #[trigger] are_parts(page, project, parts) && text == assembled(parts)
    }
}

/// The text of a page from its parts, if any of them is not blank.
pub fn assemble_parts(parts: &Vec<String>) -> (r: Option<String>)
    ensures
        text_in(r) == assembled(crate::text::texts(parts@)),
{
    let ghost all = crate::text::texts(parts@);
    let mut sections: Vec<String> = Vec::new();
    let mut i: usize = 0;
    assert(crate::text::texts(sections@) =~= sections_of(all.take(0)));
    while i < parts.len()
        invariant
            i <= parts@.len(),
            all == crate::text::texts(parts@),
            crate::text::texts(sections@) == sections_of(all.take(i as int)),
        decreases parts@.len() - i,
    {
        assert(all.take(i + 1).drop_last() =~= all.take(i as int));
        let section: String = trim(parts[i].as_str());
        let ghost before = sections@;
        if section.as_str().unicode_len() > 0 {
            sections.push(section);
            assert(crate::text::texts(sections@) =~= crate::text::texts(before).push(section@));
        }
        i = i + 1;
    }
    assert(all.take(i as int) =~= all);
    if sections.len() == 0 {
        None
    } else {
        Some(join(&sections, "\n\n"))
    }
}

/// The items of a block, or those without one.
fn select_items(items: &Vec<TextItem>, id: Option<usize>) -> (r: Vec<TextItem>)
    ensures
        r@ == match id {
            Some(id) => items_in(items@, id),
            None => items_outside(items@),
        },
{
    let ghost f = |item: TextItem| item.layout_block_id == id;
    let mut r: Vec<TextItem> = Vec::new();
    let mut i: usize = 0;
    assert(r@ =~= items@.take(0).filter(f)) by {
        reveal(Seq::filter);
    }
    while i < items.len()
        invariant
            i <= items@.len(),
            f == (|item: TextItem| item.layout_block_id == id),
            r@ == items@.take(i as int).filter(f),
        decreases items@.len() - i,
    {
        proof {
            reveal(Seq::filter);
            assert(items@.take(i + 1).drop_last() =~= items@.take(i as int));
        }
        let same: bool = match (items[i].layout_block_id, id) {
            (Some(a), Some(b)) => a == b,
            (None, None) => true,
            _ => false,
        };
        if same {
            r.push(items[i].clone());
        }
        i = i + 1;
    }
    assert(items@.take(i as int) =~= items@);
    proof {
        match id {
            Some(k) => {
                assert(f =~= (|item: TextItem| item.layout_block_id == Some(k)));
            },
            None => {
                assert(f =~= (|item: TextItem| item.layout_block_id is None));
            },
        }
    }
    r
}

/// The text of a page in the order of its layout blocks, with what belongs to no block at the
/// end. There is none for a page without blocks or without text.
pub fn rebuild_text_in_layout_order<P>(page: &ParsedPage, project: &P) -> (r: Option<String>) where
    P: Fn(usize, F32, F32, Vec<TextItem>) -> String,

    requires
        forall|n: usize, w: F32, h: F32, items: Vec<TextItem>|
            call_requires(*project, (n, w, h, items)),
    ensures
        is_rebuilt(*page, *project, text_in(r)),
{
    if page.layout_blocks.len() == 0 {
        return None;
    }
    let mut parts: Vec<String> = Vec::new();
    let mut i: usize = 0;
    while i < page.layout_blocks.len()
        invariant
            i <= page.layout_blocks@.len(),
            parts@.len() == i,
            forall|n: usize, w: F32, h: F32, items: Vec<TextItem>|
                call_requires(*project, (n, w, h, items)),
            forall|k: int|
                0 <= k < i ==> is_part(
                    page.page_number,
                    page.page_width,
                    page.page_height,
                    items_in(page.text_items@, page.layout_blocks@[k].id),
                    *project,
                    (#[trigger] parts@[k])@,
                ),
        decreases page.layout_blocks@.len() - i,
    {
        let items: Vec<TextItem> = select_items(&page.text_items, Some(page.layout_blocks[i].id));
        let ghost given = items;
        let text: String = project(page.page_number, page.page_width, page.page_height, items);
        assert(call_ensures(
            *project,
            (page.page_number, page.page_width, page.page_height, given),
            text,
        ));
        parts.push(text);
        i = i + 1;
    }
    let items: Vec<TextItem> = select_items(&page.text_items, None);
    let ghost given = items;
    let text: String = project(page.page_number, page.page_width, page.page_height, items);
    assert(call_ensures(
        *project,
        (page.page_number, page.page_width, page.page_height, given),
        text,
    ));
    parts.push(text);
    assert(are_parts(*page, *project, crate::text::texts(parts@)));
    assemble_parts(&parts)
}

/// Whether a page is another one with the layout blocks that were detected on it: the text items
/// are assigned to the blocks, and the blocks are compacted.
pub open spec fn is_placed(
    before: ParsedPage,
    blocks: Seq<LayoutBlock>,
    after: ParsedPage,
) -> bool {
    let assigned = before.text_items@.map_values(
        |item: TextItem| crate::layout_merge::annotated(item, blocks),
    );
    let kept = crate::layout_merge::retained(blocks, assigned);
    &&& after.page_number == before.page_number
    &&& after.page_width == before.page_width
    &&& after.page_height == before.page_height
    &&& after.projected_lines == before.projected_lines
    &&& after.graphics == before.graphics
    &&& after.layout_blocks@ == crate::layout_merge::renumbered(kept)
    &&& after.text_items@ == assigned.map_values(
        |item: TextItem| crate::layout_merge::remapped(item, kept),
    )
}

/// Whether a page is another one with the layout blocks that were detected on it, and with its
/// text in the order of the blocks.
pub open spec fn is_attached<P>(
    before: ParsedPage,
    blocks: Seq<LayoutBlock>,
    project: P,
    after: ParsedPage,
) -> bool where P: Fn(usize, F32, F32, Vec<TextItem>) -> String {
    &&& is_placed(before, blocks, after)
    &&& exists|text: Option<Seq<char>>|
        #[trigger] is_rebuilt(after, project, text) && after.text@ == match text {
            Some(t) => t,
            None => before.text@,
        }
}

/// Puts the layout blocks that were detected on a page into it and leaves its text alone.
pub fn place_layout_blocks(page: &mut ParsedPage, blocks: Vec<LayoutBlock>)
    ensures
        is_placed(*old(page), blocks@, *final(page)),
        final(page).text == old(page).text,
{
    page.layout_blocks = blocks;
    assign_text_items_to_layout_blocks(&mut page.text_items, &page.layout_blocks);
    compact_layout_blocks(&mut page.layout_blocks, &mut page.text_items);
}

/// Puts the layout blocks that were detected on a page into it.
fn attach_to_page<P>(page: &mut ParsedPage, blocks: Vec<LayoutBlock>, project: &P) where
    P: Fn(usize, F32, F32, Vec<TextItem>) -> String,

    requires
        forall|n: usize, w: F32, h: F32, items: Vec<TextItem>|
            call_requires(*project, (n, w, h, items)),
    ensures
        is_attached(*old(page), blocks@, *project, *final(page)),
{
    place_layout_blocks(page, blocks);
    let text: Option<String> = rebuild_text_in_layout_order(page, project);
    let ghost rebuilt = text_in(text);
    let ghost mid = *page;
    match text {
        Some(text) => {
            page.text = text;
        },
        None => {},
    }
    assert(is_rebuilt(*page, *project, rebuilt)) by {
        if mid.layout_blocks@.len() > 0 {
            let parts = choose|parts: Seq<Seq<char>>|
                #[trigger] are_parts(mid, *project, parts) && rebuilt == assembled(parts);
            assert(are_parts(*page, *project, parts));
        }
    }
}

/// Whether pages are other ones with the layout blocks that were detected on one of them. There
/// may be no such page.
pub open spec fn attached_one<P>(
    before: Seq<ParsedPage>,
    index: usize,
    blocks: Seq<LayoutBlock>,
    project: P,
    after: Seq<ParsedPage>,
) -> bool where P: Fn(usize, F32, F32, Vec<TextItem>) -> String {
    &&& after.len() == before.len()
    &&& forall|k: int| 0 <= k < before.len() && k != index ==> #[trigger] after[k] == before[k]
    &&& index < before.len() ==> is_attached(
        before[index as int],
        blocks,
        project,
        after[index as int],
    )
}

/// Whether pages are other ones with the layout blocks that were detected on them, one entry
/// after the other.
pub open spec fn attached_all<P>(
    before: Seq<ParsedPage>,
    detected: Seq<(usize, Vec<LayoutBlock>)>,
    project: P,
    after: Seq<ParsedPage>,
) -> bool where P: Fn(usize, F32, F32, Vec<TextItem>) -> String
    decreases detected.len(),
{
    if detected.len() == 0 {
        after == before
    } else {
        exists|mid: Seq<ParsedPage>|
            attached_all(before, detected.drop_last(), project, mid) && #[trigger] attached_one(
                mid,
                detected.last().0,
                detected.last().1@,
                project,
                after,
            )
    }
}

/// Puts the layout blocks that were detected into their pages.
pub fn attach_layout_blocks<P>(
    parsed_pages: &mut Vec<ParsedPage>,
    layout_blocks: Vec<(usize, Vec<LayoutBlock>)>,
    project: P,
) where P: Fn(usize, F32, F32, Vec<TextItem>) -> String
    requires
        forall|n: usize, w: F32, h: F32, items: Vec<TextItem>|
            call_requires(project, (n, w, h, items)),
    ensures
        attached_all(old(parsed_pages)@, layout_blocks@, project, final(parsed_pages)@),
{
    let ghost detected = layout_blocks@;
    let ghost before = parsed_pages@;
    let mut rest: Vec<(usize, Vec<LayoutBlock>)> = layout_blocks;
    let ghost mut done: int = 0;
    while rest.len() > 0
        invariant
            0 <= done <= detected.len(),
            rest@ == detected.skip(done),
            attached_all(before, detected.take(done), project, parsed_pages@),
            forall|n: usize, w: F32, h: F32, items: Vec<TextItem>|
                call_requires(project, (n, w, h, items)),
        decreases rest@.len(),
    {
        let ghost mid = parsed_pages@;
        proof {
            assert(detected.skip(done)[0] == detected[done]);
            assert(detected.skip(done).remove(0) =~= detected.skip(done + 1));
        }
        let (index, blocks) = rest.remove(0);
        if index < parsed_pages.len() {
            attach_to_page(&mut parsed_pages[index], blocks, &project);
        }
        proof {
            let t = detected.take(done + 1);
            assert(t.drop_last() =~= detected.take(done));
            assert(attached_one(mid, t.last().0, t.last().1@, project, parsed_pages@));
            done = done + 1;
        }
    }
    assert(detected.take(done) =~= detected);
}

/// After blocks have been put into a page, the ids of its blocks count them, and every text item
/// with a block has that block's label.
pub proof fn pages_with_blocks_are_coherent(
    before: ParsedPage,
    blocks: Seq<LayoutBlock>,
    after: ParsedPage,
)
    requires
        blocks.len() <= usize::MAX,
        is_placed(before, blocks, after),
    ensures
        crate::layout_merge::coherent(after.layout_blocks@, after.text_items@),
        after.text_items@.len() == before.text_items@.len(),
{
    let assigned = before.text_items@.map_values(
        |item: TextItem| crate::layout_merge::annotated(item, blocks),
    );
    crate::layout_merge::compaction_makes_ids_coherent(blocks, assigned);
}

/// Putting blocks into pages neither adds nor drops a page.
pub proof fn attaching_keeps_the_pages<P>(
    before: Seq<ParsedPage>,
    detected: Seq<(usize, Vec<LayoutBlock>)>,
    project: P,
    after: Seq<ParsedPage>,
) where P: Fn(usize, F32, F32, Vec<TextItem>) -> String
    requires
        attached_all(before, detected, project, after),
    ensures
        after.len() == before.len(),
        forall|k: int|
            0 <= k < before.len() ==> (#[trigger] after[k]).page_number == before[k].page_number,
    decreases detected.len(),
{
    if detected.len() > 0 {
        let mid = choose|mid: Seq<ParsedPage>|
            attached_all(before, detected.drop_last(), project, mid) && #[trigger] attached_one(
                mid,
                detected.last().0,
                detected.last().1@,
                project,
                after,
            );
        attaching_keeps_the_pages(before, detected.drop_last(), project, mid);
        assert forall|k: int| 0 <= k < before.len() implies (#[trigger] after[k]).page_number
            == before[k].page_number by {
            assert(mid[k].page_number == before[k].page_number);
        }
    }
}

/// Result of parsing a document.
#[derive(Debug)]
pub struct ParseResult {
    /// Parsed pages with projected text layout.
    pub pages: Vec<ParsedPage>,
    /// Full document text, concatenated from all pages.
    pub text: String,
    /// Document outline (bookmarks) when present. Used by the markdown
    /// emitter as a high-priority heading source on untagged PDFs.
    pub outline: Vec<OutlineTarget>,
    /// Raster images extracted from the document. Empty unless the parser
    /// was configured with `ImageMode::Embed`. Each entry carries the same
    /// `id` the markdown emitter referenced in `![](image_{id}.png)`, so the
    /// caller can match them up without parsing markdown.
    pub images: Vec<ExtractedImage>,
}

/// Result of rendering a single page screenshot.
#[derive(Debug)]
pub struct ScreenshotResult {
    pub page_num: u32,
    pub width: u32,
    pub height: u32,
    pub image_bytes: Vec<u8>,
}

/// A page that was rendered with four bytes for each pixel.
#[derive(Debug)]
pub struct RenderedRgbaPage {
    pub page_num: u32,
    pub width: u32,
    pub height: u32,
    pub rgba_bytes: Vec<u8>,
}

/// The texts of the pages.
pub open spec fn page_texts(pages: Seq<ParsedPage>) -> Seq<Seq<char>> {
    Seq::new(pages.len(), |i: int| pages[i].text@)
}

/// The texts of the pages, with an empty line between two of them.
pub fn join_page_texts(pages: &Vec<ParsedPage>) -> (r: String)
    ensures
        r@ == crate::text::joined(page_texts(pages@), "\n\n"@),
{
    let mut texts: Vec<String> = Vec::new();
    let mut i: usize = 0;
    while i < pages.len()
        invariant
            i <= pages@.len(),
            texts@.len() == i,
            forall|k: int| 0 <= k < i ==> (#[trigger] texts@[k])@ == pages@[k].text@,
        decreases pages@.len() - i,
    {
        texts.push(pages[i].text.clone());
        i = i + 1;
    }
    assert(crate::text::texts(texts@) =~= page_texts(pages@));
    join(&texts, "\n\n")
}

/// Main LiteParse orchestrator. It may hold an OCR engine that takes the place of the built-in
/// ones; this is how to plug one in where there are none.
pub struct LiteParse<E> {
    config: LiteParseConfig,
    ocr_engine_override: Option<E>,
}

/// The OCR engines that a build brings along.
#[derive(Clone, Copy, Debug, PartialEq, Eq, Structural)]
pub enum BuiltInOcr {
    /// None, as in the browser.
    Absent,
    /// A server that is reached over HTTP.
    Http,
    /// A server that is reached over HTTP, and Tesseract.
    HttpAndTesseract,
}

/// The OCR engine to use.
#[derive(Debug)]
pub enum OcrChoice<'a, E> {
    /// The engine that the caller provided.
    Provided { engine: &'a E },
    /// A server with the headers to send to it.
    Server { url: &'a String, headers: &'a Vec<(String, String)> },
    /// Tesseract with its data.
    Tesseract { tessdata_path: &'a Option<String> },
}

/// What is said where there is no OCR engine.
pub open spec fn engine_problem(built_in: BuiltInOcr) -> Seq<char> {
    if built_in == BuiltInOcr::Absent {
        "OCR enabled but no `ocrEngine` callback was provided (WASM builds have no built-in OCR engine)"@
    } else {
        "OCR enabled but no --ocr-server-url provided and tesseract feature is disabled"@
    }
}

/// Where the pixels of a page for layout detection come from.
#[derive(Clone, Copy, Debug, PartialEq, Eq, Structural)]
pub enum LayoutSource {
    /// The page was rendered for OCR, at this place.
    Rendered { place: usize },
    /// The page has to be rendered; this is its index in the document.
    Unrendered { page_index: i32 },
}

/// The first place of a number.
pub open spec fn first_place(numbers: Seq<usize>, n: int) -> Option<int>
    decreases numbers.len(),
{
    if numbers.len() == 0 {
        None
    } else {
        match first_place(numbers.drop_last(), n) {
            Some(k) => Some(k),
            None => if numbers.last() == n {
                Some(numbers.len() - 1)
            } else {
                None
            },
        }
    }
}

/// Where the pixels of a page come from.
pub open spec fn source_of(index: int, page_number: usize, rendered: Seq<usize>) -> LayoutSource {
    match first_place(rendered, index) {
        Some(k) => LayoutSource::Rendered { place: k as usize },
        None => LayoutSource::Unrendered { page_index: (page_number - 1) as i32 },
    }
}

/// The pages that a text asks for, from what parsing the text gave.
pub fn checked_pages(parsed: Option<Result<Vec<u32>, String>>, setting: &str) -> (r: Result<
    Option<Vec<u32>>,
    LiteParseError,
>)
    ensures
        match parsed {
            None => r == Ok::<Option<Vec<u32>>, LiteParseError>(None),
            Some(Ok(pages)) => r == Ok::<Option<Vec<u32>>, LiteParseError>(Some(pages)),
            Some(Err(problem)) => r matches Err(LiteParseError::Other(text)) && text@ == "invalid "@
                + setting@ + ": "@ + problem@,
        },
{
    match parsed {
        None => Ok(None),
        Some(Ok(pages)) => Ok(Some(pages)),
        Some(Err(problem)) => {
            let mut text: String = "invalid ".to_owned();
            text.append(setting);
            text.append(": ");
            text.append(problem.as_str());
            Err(LiteParseError::Other(text))
        },
    }
}

/// The pages to take screenshots of: those that were asked for, or those of the settings.
pub fn effective_pages(
    page_numbers: Option<Vec<u32>>,
    parsed: Option<Result<Vec<u32>, String>>,
) -> (r: Result<Option<Vec<u32>>, LiteParseError>)
    ensures
        match page_numbers {
            Some(pages) => r == Ok::<Option<Vec<u32>>, LiteParseError>(Some(pages)),
            None => match parsed {
                None => r == Ok::<Option<Vec<u32>>, LiteParseError>(None),
                Some(Ok(pages)) => r == Ok::<Option<Vec<u32>>, LiteParseError>(Some(pages)),
                Some(Err(problem)) => r matches Err(LiteParseError::Other(text)) && text@
                    == "invalid "@ + "target_pages"@ + ": "@ + problem@,
            },
        },
{
    match page_numbers {
        Some(pages) => Ok(Some(pages)),
        None => checked_pages(parsed, "target_pages"),
    }
}

/// Page numbers with commas between them.
pub open spec fn page_list(pages: Seq<u32>) -> Seq<char> {
    crate::text::joined(
        Seq::new(pages.len(), |i: int| crate::text::decimal(pages[i] as nat)),
        ","@,
    )
}

/// Page numbers with commas between them.
pub fn list_pages(pages: &Vec<u32>) -> (r: String)
    ensures
        r@ == page_list(pages@),
{
    let mut numbers: Vec<String> = Vec::new();
    let mut i: usize = 0;
    while i < pages.len()
        invariant
            i <= pages@.len(),
            numbers@.len() == i,
            forall|k: int|
                0 <= k < i ==> (#[trigger] numbers@[k])@ == crate::text::decimal(pages@[k] as nat),
        decreases pages@.len() - i,
    {
        numbers.push(to_decimal(pages[i] as u64));
        i = i + 1;
    }
    assert(crate::text::texts(numbers@) =~= Seq::new(
        pages@.len(),
        |i: int| crate::text::decimal(pages@[i] as nat),
    ));
    join(&numbers, ",")
}

/// A step of parsing a document.
#[derive(Clone, Copy, Debug, PartialEq, Eq, Structural)]
pub enum ParseStep {
    /// Make a PDF of the input.
    Resolve,
    /// Read which pages are asked for.
    TargetPages,
    /// Set up the layout detector.
    Detector,
    /// Open the document and extract its pages.
    Extract,
    /// Render the pages for OCR.
    RenderForOcr,
    /// Render the pages for layout detection.
    RenderForLayout,
    /// Recognise text.
    Recognise,
    /// Detect the layout.
    DetectLayout,
    /// Lay the text out.
    Project,
    /// Put the layout blocks into their pages.
    Attach,
    /// Write the text of the document.
    Format,
}

impl ParseStep {
    /// Whether the step works on the open document.
    pub open spec fn uses_document(self) -> bool {
        self == ParseStep::Extract || self == ParseStep::RenderForOcr || self
            == ParseStep::RenderForLayout
    }

    /// Whether the step may wait for something outside of the process.
    pub open spec fn waits(self) -> bool {
        self == ParseStep::Resolve || self == ParseStep::Detector || self == ParseStep::Recognise
            || self == ParseStep::DetectLayout
    }

    /// How many steps there are behind this one at most.
    pub open spec fn left(self) -> nat {
        match self {
            ParseStep::Resolve => 10,
            ParseStep::TargetPages => 9,
            ParseStep::Detector => 8,
            ParseStep::Extract => 7,
            ParseStep::RenderForOcr => 6,
            ParseStep::RenderForLayout => 5,
            ParseStep::Recognise => 4,
            ParseStep::DetectLayout => 3,
            ParseStep::Project => 2,
            ParseStep::Attach => 1,
            ParseStep::Format => 0,
        }
    }

    /// The step behind this one, with or without OCR and layout detection.
    pub open spec fn following(self, ocr: bool, layout: bool) -> Option<ParseStep> {
        match self {
            ParseStep::Resolve => Some(ParseStep::TargetPages),
            ParseStep::TargetPages => Some(ParseStep::Detector),
            ParseStep::Detector => Some(ParseStep::Extract),
            ParseStep::Extract => if ocr {
                Some(ParseStep::RenderForOcr)
            } else if layout {
                Some(ParseStep::RenderForLayout)
            } else {
                Some(ParseStep::Project)
            },
            ParseStep::RenderForOcr => if layout {
                Some(ParseStep::RenderForLayout)
            } else {
                Some(ParseStep::Recognise)
            },
            ParseStep::RenderForLayout => if ocr {
                Some(ParseStep::Recognise)
            } else {
                Some(ParseStep::DetectLayout)
            },
            ParseStep::Recognise => if layout {
                Some(ParseStep::DetectLayout)
            } else {
                Some(ParseStep::Project)
            },
            ParseStep::DetectLayout => Some(ParseStep::Project),
            ParseStep::Project => Some(ParseStep::Attach),
            ParseStep::Attach => Some(ParseStep::Format),
            ParseStep::Format => None,
        }
    }

    /// The steps from this one on.
    pub open spec fn run(self, ocr: bool, layout: bool) -> Seq<ParseStep>
        decreases self.left(),
    {
        match self.following(ocr, layout) {
            Some(next) => seq![self] + next.run(ocr, layout),
            None => seq![self],
        }
    }
}

/// The steps of parsing a document.
pub open spec fn parse_run(ocr: bool, layout: bool) -> Seq<ParseStep> {
    ParseStep::Resolve.run(ocr, layout)
}

/// Some steps, or none of them.
pub open spec fn steps_if(wanted: bool, step: ParseStep) -> Seq<ParseStep> {
    if wanted {
        seq![step]
    } else {
        Seq::empty()
    }
}

/// Parsing goes through all steps in order, those of OCR and of layout detection where they are
/// enabled.
pub proof fn parsing_runs_every_enabled_step(ocr: bool, layout: bool)
    ensures
        parse_run(ocr, layout) == seq![
            ParseStep::Resolve,
            ParseStep::TargetPages,
            ParseStep::Detector,
            ParseStep::Extract,
        ] + steps_if(ocr, ParseStep::RenderForOcr) + steps_if(layout, ParseStep::RenderForLayout)
            + steps_if(ocr, ParseStep::Recognise) + steps_if(layout, ParseStep::DetectLayout)
            + seq![ParseStep::Project, ParseStep::Attach, ParseStep::Format],
{
    reveal_with_fuel(ParseStep::run, 12);
    assert(parse_run(ocr, layout) =~= seq![
        ParseStep::Resolve,
        ParseStep::TargetPages,
        ParseStep::Detector,
        ParseStep::Extract,
    ] + steps_if(ocr, ParseStep::RenderForOcr) + steps_if(layout, ParseStep::RenderForLayout)
        + steps_if(ocr, ParseStep::Recognise) + steps_if(layout, ParseStep::DetectLayout) + seq![
        ParseStep::Project,
        ParseStep::Attach,
        ParseStep::Format,
    ]);
}

/// The document is open for one stretch of the run, in which nothing waits.
pub proof fn nothing_waits_while_the_document_is_open(
    ocr: bool,
    layout: bool,
    i: int,
    j: int,
    k: int,
)
    requires
        0 <= i <= k <= j < parse_run(ocr, layout).len(),
        parse_run(ocr, layout)[i].uses_document(),
        parse_run(ocr, layout)[j].uses_document(),
    ensures
        parse_run(ocr, layout)[k].uses_document(),
        !parse_run(ocr, layout)[k].waits(),
{
    parsing_runs_every_enabled_step(ocr, layout);
}

/// Whether settings are other ones with layout detection on, and with the given pages to parse if
/// there are any.
pub open spec fn is_layout_config(
    before: LiteParseConfig,
    pages: Option<Vec<u32>>,
    after: LiteParseConfig,
) -> bool {
    &&& match pages {
        Some(pages) => {
            &&& after.target_pages matches Some(text) && text@ == page_list(pages@)
            &&& after.max_pages == if before.max_pages < pages@.len() {
                pages@.len() as usize
            } else {
                before.max_pages
            }
        },
        None => {
            &&& after.target_pages == before.target_pages
            &&& after.max_pages == before.max_pages
        },
    }
    &&& after@ == (crate::config::Settings {
        layout_enabled: true,
        target_pages: after.target_pages,
        max_pages: after.max_pages,
        ..before@
    })
}

impl LiteParse<()> {
    /// A parser with these settings.
    pub fn new(config: LiteParseConfig) -> (r: Self)
        ensures
            r.settings() == config,
            r.provided_engine() is None,
    {
        LiteParse { config, ocr_engine_override: None }
    }
}

impl<E> LiteParse<E> {
    /// The settings.
    pub closed spec fn settings(self) -> LiteParseConfig {
        self.config
    }

    /// The OCR engine that the caller provided.
    pub closed spec fn provided_engine(self) -> Option<E> {
        self.ocr_engine_override
    }

    /// Override the OCR engine. When set, the engine is used regardless of
    /// `ocr_server_url` / built-in Tesseract availability.
    pub fn with_ocr_engine<F>(self, engine: F) -> (r: LiteParse<F>)
        ensures
            r.settings() == self.settings(),
            r.provided_engine() == Some(engine),
    {
        LiteParse { config: self.config, ocr_engine_override: Some(engine) }
    }

    /// The settings.
    pub fn config(&self) -> (r: &LiteParseConfig)
        ensures
            *r == self.settings(),
    {
        &self.config
    }

    /// The first step of parsing, or the one behind a step that is done.
    pub fn next_step(&self, done: Option<ParseStep>) -> (r: Option<ParseStep>)
        ensures
            r == match done {
                None => Some(ParseStep::Resolve),
                Some(step) => step.following(
                    self.settings().ocr_enabled,
                    self.settings().layout_enabled,
                ),
            },
    {
        let step: ParseStep = match done {
            None => {
                return Some(ParseStep::Resolve);
            },
            Some(step) => step,
        };
        let ocr: bool = self.config.ocr_enabled;
        let layout: bool = self.config.layout_enabled;
        match step {
            ParseStep::Resolve => Some(ParseStep::TargetPages),
            ParseStep::TargetPages => Some(ParseStep::Detector),
            ParseStep::Detector => Some(ParseStep::Extract),
            ParseStep::Extract => if ocr {
                Some(ParseStep::RenderForOcr)
            } else if layout {
                Some(ParseStep::RenderForLayout)
            } else {
                Some(ParseStep::Project)
            },
            ParseStep::RenderForOcr => if layout {
                Some(ParseStep::RenderForLayout)
            } else {
                Some(ParseStep::Recognise)
            },
            ParseStep::RenderForLayout => if ocr {
                Some(ParseStep::Recognise)
            } else {
                Some(ParseStep::DetectLayout)
            },
            ParseStep::Recognise => if layout {
                Some(ParseStep::DetectLayout)
            } else {
                Some(ParseStep::Project)
            },
            ParseStep::DetectLayout => Some(ParseStep::Project),
            ParseStep::Project => Some(ParseStep::Attach),
            ParseStep::Attach => Some(ParseStep::Format),
            ParseStep::Format => None,
        }
    }

    /// Whether hyperlinks are extracted: only markdown shows them.
    pub fn extracts_links(&self) -> (r: bool)
        ensures
            r == (self.settings().extract_links && self.settings().output_format
                == OutputFormat::Markdown),
    {
        self.config.extract_links && self.config.output_format == OutputFormat::Markdown
    }

    /// Whether raster images are extracted.
    pub fn extracts_images(&self) -> (r: bool)
        ensures
            r == (self.settings().image_mode == ImageMode::Embed),
    {
        self.config.image_mode == ImageMode::Embed
    }

    /// Whether layout is detected, in a build with a layout detector or without one.
    pub fn detects_layout(&self, available: bool) -> (r: Result<bool, LiteParseError>)
        ensures
            match r {
                Ok(detects) => detects == self.settings().layout_enabled && (detects ==> available),
                Err(error) => {
                    &&& self.settings().layout_enabled && !available
                    &&& error matches LiteParseError::Config(text) && text@
                        == "layout detection requires a YOLO layout feature"@
                },
            },
    {
        if self.config.layout_enabled && !available {
            return Err(
                LiteParseError::Config("layout detection requires a YOLO layout feature".to_owned()),
            );
        }
        Ok(self.config.layout_enabled)
    }

    /// The OCR engine to use, if OCR is enabled: the one that the caller provided, or else the
    /// server of the settings, or else Tesseract.
    pub fn choose_ocr_engine(&self, built_in: BuiltInOcr) -> (r: Result<
        Option<OcrChoice<'_, E>>,
        LiteParseError,
    >)
        ensures
            ({
                let settings = self.settings();
                match r {
                    Ok(None) => !settings.ocr_enabled,
                    Ok(Some(OcrChoice::Provided { engine })) => settings.ocr_enabled
                        && self.provided_engine() == Some(*engine),
                    Ok(Some(OcrChoice::Server { url, headers })) => {
                        &&& settings.ocr_enabled
                        &&& self.provided_engine() is None
                        &&& built_in != BuiltInOcr::Absent
                        &&& settings.ocr_server_url == Some(*url)
                        &&& settings.ocr_server_headers == *headers
                    },
                    Ok(Some(OcrChoice::Tesseract { tessdata_path })) => {
                        &&& settings.ocr_enabled
                        &&& self.provided_engine() is None
                        &&& built_in == BuiltInOcr::HttpAndTesseract
                        &&& settings.ocr_server_url is None
                        &&& settings.tessdata_path == *tessdata_path
                    },
                    Err(error) => {
                        &&& settings.ocr_enabled
                        &&& self.provided_engine() is None
                        &&& built_in == BuiltInOcr::Absent || built_in == BuiltInOcr::Http
                            && settings.ocr_server_url is None
                        &&& error matches LiteParseError::Other(text) && text@ == engine_problem(
                            built_in,
                        )
                    },
                }
            }),
    {
        if !self.config.ocr_enabled {
            return Ok(None);
        }
        match &self.ocr_engine_override {
            Some(engine) => Ok(Some(OcrChoice::Provided { engine })),
            None => match built_in {
                BuiltInOcr::Absent => Err(
                    LiteParseError::Other(
                        "OCR enabled but no `ocrEngine` callback was provided (WASM builds have no built-in OCR engine)".to_owned(),
                    ),
                ),
                _ => match &self.config.ocr_server_url {
                    Some(url) => Ok(
                        Some(
                            OcrChoice::Server { url, headers: &self.config.ocr_server_headers },
                        ),
                    ),
                    None => if built_in == BuiltInOcr::HttpAndTesseract {
                        Ok(
                            Some(
                                OcrChoice::Tesseract { tessdata_path: &self.config.tessdata_path },
                            ),
                        )
                    } else {
                        Err(
                            LiteParseError::Other(
                                "OCR enabled but no --ocr-server-url provided and tesseract feature is disabled".to_owned(),
                            ),
                        )
                    },
                },
            },
        }
    }

    /// Whether a text is the text of a document: its markdown form, or the texts of its pages
    /// with an empty line between two of them.
    pub open spec fn is_document_text<D, S, C, R>(
        self,
        pages: Seq<ParsedPage>,
        outline: Seq<OutlineTarget>,
        prepare: S,
        classify: C,
        render: R,
        text: Seq<char>,
    ) -> bool where
        S: Fn(&[ParsedPage]) -> D,
        C: Fn(&D, &ParsedPage, &Vec<OutlineTarget>, ImageMode) -> Vec<Block>,
        R: Fn(&Vec<Block>) -> String,
     {
        if self.settings().output_format == OutputFormat::Markdown {
            crate::output::markdown::is_markdown(
                pages,
                outline,
                self.settings().image_mode,
                prepare,
                classify,
                render,
                text,
            )
        } else {
            text == crate::text::joined(page_texts(pages), "\n\n"@)
        }
    }

    /// What parsing gives for parsed pages and the outline and the images of their document. For
    /// markdown, `prepare` computes the signals of the whole document, with which `classify` makes
    /// the blocks of each page that `render` writes.
    pub fn assemble_result<D, S, C, R>(
        &self,
        pages: Vec<ParsedPage>,
        outline: Vec<OutlineTarget>,
        images: Vec<ExtractedImage>,
        prepare: S,
        classify: C,
        render: R,
    ) -> (r: ParseResult) where
        S: Fn(&[ParsedPage]) -> D,
        C: Fn(&D, &ParsedPage, &Vec<OutlineTarget>, ImageMode) -> Vec<Block>,
        R: Fn(&Vec<Block>) -> String,

        requires
            forall|all: &[ParsedPage]| call_requires(prepare, (all,)),
            forall|d: &D, p: &ParsedPage, o: &Vec<OutlineTarget>, m: ImageMode|
                call_requires(classify, (d, p, o, m)),
            forall|b: &Vec<Block>| call_requires(render, (b,)),
        ensures
            r.pages == pages,
            r.outline == outline,
            r.images == images,
            self.is_document_text(pages@, outline@, prepare, classify, render, r.text@),
    {
        let text: String = if self.config.output_format == OutputFormat::Markdown {
            format_markdown(
                pages.as_slice(),
                outline.as_slice(),
                self.config.image_mode,
                prepare,
                classify,
                render,
            )
        } else {
            join_page_texts(&pages)
        };
        ParseResult { pages, text, outline, images }
    }

    /// Parse from pre-extracted pages, skipping PDFium text extraction.
    ///
    /// The caller supplies `Page`s already populated with text items (and,
    /// optionally, graphics / struct nodes / image refs) in viewport space
    /// (top-left origin, 72 DPI). This runs only grid projection, by `project`, and the
    /// configured output formatter, with `prepare`, `classify` and `render`, so it touches
    /// neither PDFium nor OCR and is fully synchronous. Used when an external extractor (e.g. with its
    /// own font-recovery pipeline) owns text extraction.
    pub fn parse_from_pages<Page, P, D, S, C, R>(
        &self,
        pages: Vec<Page>,
        outline: Vec<OutlineTarget>,
        project: P,
        prepare: S,
        classify: C,
        render: R,
    ) -> (r: ParseResult) where
        P: Fn(Vec<Page>) -> Vec<ParsedPage>,
        S: Fn(&[ParsedPage]) -> D,
        C: Fn(&D, &ParsedPage, &Vec<OutlineTarget>, ImageMode) -> Vec<Block>,
        R: Fn(&Vec<Block>) -> String,

        requires
            call_requires(project, (pages,)),
            forall|all: &[ParsedPage]| call_requires(prepare, (all,)),
            forall|d: &D, p: &ParsedPage, o: &Vec<OutlineTarget>, m: ImageMode|
                call_requires(classify, (d, p, o, m)),
            forall|b: &Vec<Block>| call_requires(render, (b,)),
        ensures
            call_ensures(project, (pages,), r.pages),
            r.outline == outline,
            r.images@.len() == 0,
            self.is_document_text(r.pages@, outline@, prepare, classify, render, r.text@),
    {
        let parsed_pages: Vec<ParsedPage> = project(pages);
        self.assemble_result(parsed_pages, outline, Vec::new(), prepare, classify, render)
    }

    /// The settings for the parse pass of layout screenshots: layout detection is on, and the
    /// pages that screenshots are taken of are parsed.
    pub fn layout_config(&self, pages: &Option<Vec<u32>>) -> (r: LiteParseConfig)
        ensures
            is_layout_config(self.settings(), *pages, r),
    {
        let mut config: LiteParseConfig = self.config.clone();
        config.layout_enabled = true;
        match pages {
            Some(pages) => {
                config.target_pages = Some(list_pages(pages));
                if config.max_pages < pages.len() {
                    config.max_pages = pages.len();
                }
            },
            None => {},
        }
        config
    }

    /// The parser for the parse pass of layout screenshots.
    pub fn layout_parser(&self, pages: &Option<Vec<u32>>) -> (r: Self) where E: Clone
        ensures
            is_layout_config(self.settings(), *pages, r.settings()),
            match self.provided_engine() {
                Some(engine) => r.provided_engine() matches Some(copy) && cloned(engine, copy),
                None => r.provided_engine() is None,
            },
    {
        let engine: Option<E> = match &self.ocr_engine_override {
            Some(engine) => Some(engine.clone()),
            None => None,
        };
        LiteParse { config: self.layout_config(pages), ocr_engine_override: engine }
    }
}

/// Where the pixels of the pages for layout detection come from: from OCR where that has
/// rendered them.
pub fn layout_sources(page_numbers: &Vec<usize>, rendered: &Vec<usize>, enabled: bool) -> (r: Vec<
    LayoutSource,
>)
    requires
        enabled ==> forall|i: int|
            0 <= i < page_numbers@.len() && first_place(rendered@, i) is None
                ==> #[trigger] page_numbers@[i] > 0,
    ensures
        enabled ==> r@ == Seq::new(
            page_numbers@.len(),
            |i: int| source_of(i, page_numbers@[i], rendered@),
        ),
        !enabled ==> r@.len() == 0,
{
    let mut sources: Vec<LayoutSource> = Vec::new();
    if !enabled {
        return sources;
    }
    let mut i: usize = 0;
    while i < page_numbers.len()
        invariant
            i <= page_numbers@.len(),
            forall|i: int|
                0 <= i < page_numbers@.len() && first_place(rendered@, i) is None
                    ==> #[trigger] page_numbers@[i] > 0,
            sources@ =~= Seq::new(
                i as nat,
                |i: int| source_of(i, page_numbers@[i], rendered@),
            ),
        decreases page_numbers@.len() - i,
    {
        match find_place(rendered, i) {
            Some(place) => {
                sources.push(LayoutSource::Rendered { place });
            },
            None => {
                sources.push(
                    LayoutSource::Unrendered {
                        page_index: #[verifier::truncate]
                        ((page_numbers[i] - 1) as i32),
                    },
                );
            },
        }
        i = i + 1;
    }
    sources
}

/// The first place of a number.
fn find_place(numbers: &Vec<usize>, n: usize) -> (r: Option<usize>)
    ensures
        match r {
            Some(place) => first_place(numbers@, n as int) == Some(place as int),
            None => first_place(numbers@, n as int) is None,
        },
{
    let mut found: Option<usize> = None;
    let mut i: usize = 0;
    while i < numbers.len()
        invariant
            i <= numbers@.len(),
            match found {
                Some(place) => first_place(numbers@.take(i as int), n as int) == Some(place as int),
                None => first_place(numbers@.take(i as int), n as int) is None,
            },
        decreases numbers@.len() - i,
    {
        assert(numbers@.take(i + 1).drop_last() =~= numbers@.take(i as int));
        if found.is_none() && numbers[i] == n {
            found = Some(i);
        }
        i = i + 1;
    }
    assert(numbers@.take(i as int) =~= numbers@);
    found
}

/// The first parsed page with a number.
pub open spec fn page_with_number(pages: Seq<ParsedPage>, page_num: u32) -> Option<int>
    decreases pages.len(),
{
    if pages.len() == 0 {
        None
    } else {
        match page_with_number(pages.drop_last(), page_num) {
            Some(k) => Some(k),
            None => if pages.last().page_number as u32 == page_num {
                Some(pages.len() - 1)
            } else {
                None
            },
        }
    }
}

/// The index of the first parsed page with a number.
fn find_page(pages: &Vec<ParsedPage>, page_num: u32) -> (r: Option<usize>)
    ensures
        match r {
            Some(k) => page_with_number(pages@, page_num) == Some(k as int) && k < pages@.len(),
            None => page_with_number(pages@, page_num) is None,
        },
{
    let mut found: Option<usize> = None;
    let mut i: usize = 0;
    while i < pages.len()
        invariant
            i <= pages@.len(),
            match found {
                Some(k) => page_with_number(pages@.take(i as int), page_num) == Some(k as int) && k
                    < i,
                None => page_with_number(pages@.take(i as int), page_num) is None,
            },
        decreases pages@.len() - i,
    {
        assert(pages@.take(i + 1).drop_last() =~= pages@.take(i as int));
        let number: u32 = #[verifier::truncate]
        (pages[i].page_number as u32);
        if found.is_none() && number == page_num {
            found = Some(i);
        }
        i = i + 1;
    }
    assert(pages@.take(i as int) =~= pages@);
    found
}

impl RenderedRgbaPage {
    /// Whether the size of the image is one that can be drawn on.
    pub open spec fn is_drawable(self) -> bool {
        &&& self.width * self.height * 4 <= usize::MAX
        &&& self.width <= i32::MAX
        &&& self.height <= i32::MAX
    }

    /// Whether the page cannot be encoded as an image.
    pub open spec fn has_problem(self) -> bool {
        crate::layout_annotate::has_problem(self.rgba_bytes@.len(), self.width, self.height)
    }

    /// Whether an error says why the page cannot be encoded as an image.
    pub open spec fn is_problem(self, error: LiteParseError) -> bool {
        crate::layout_annotate::is_problem(error, self.rgba_bytes@.len(), self.width, self.height)
    }

    /// The pixels of the page with the blocks that were found on it. Without a parsed page there
    /// are none.
    pub open spec fn annotated(self, pages: Seq<ParsedPage>) -> Seq<u8> {
        match page_with_number(pages, self.page_num) {
            Some(k) => crate::layout_annotate::annotated(
                self.rgba_bytes@,
                self.width,
                self.height,
                pages[k].page_width,
                pages[k].page_height,
                pages[k].layout_blocks@,
            ),
            None => self.rgba_bytes@,
        }
    }

    /// Whether a screenshot is that of the page with its blocks.
    pub open spec fn is_screenshot(
        self,
        pages: Seq<ParsedPage>,
        screenshot: ScreenshotResult,
    ) -> bool {
        &&& screenshot.page_num == self.page_num
        &&& screenshot.width == self.width
        &&& screenshot.height == self.height
        &&& screenshot.image_bytes@ == crate::layout_annotate::png_encoding(
            self.annotated(pages),
            self.width,
            self.height,
        )
    }
}

/// The screenshot of a page without blocks is plain.
pub proof fn pages_without_blocks_are_plain(page: RenderedRgbaPage, pages: Seq<ParsedPage>)
    requires
        page_with_number(pages, page.page_num) matches Some(k) ==> pages[k].layout_blocks@.len()
            == 0,
    ensures
        page.annotated(pages) == page.rgba_bytes@,
{
}

/// A screenshot of a rendered page with the blocks that were found on it.
pub fn annotate_page(page: RenderedRgbaPage, pages: &Vec<ParsedPage>) -> (r: Result<
    ScreenshotResult,
    LiteParseError,
>)
    requires
        page.is_drawable(),
    ensures
        match r {
            Ok(screenshot) => !page.has_problem() && page.is_screenshot(pages@, screenshot),
            Err(error) => page.has_problem() && page.is_problem(error),
        },
{
    let mut rgba: Vec<u8> = page.rgba_bytes;
    let encoded: Result<Vec<u8>, LiteParseError> = match find_page(pages, page.page_num) {
        Some(k) => annotate_layout_png(
            &mut rgba,
            page.width,
            page.height,
            pages[k].page_width,
            pages[k].page_height,
            pages[k].layout_blocks.as_slice(),
        ),
        None => {
            let none: Vec<LayoutBlock> = Vec::new();
            annotate_layout_png(
                &mut rgba,
                page.width,
                page.height,
                F32::from_u32(page.width),
                F32::from_u32(page.height),
                none.as_slice(),
            )
        },
    };
    match encoded {
        Ok(image_bytes) => Ok(
            ScreenshotResult {
                page_num: page.page_num,
                width: page.width,
                height: page.height,
                image_bytes,
            },
        ),
        Err(error) => Err(error),
    }
}

/// Screenshots of rendered pages with the blocks that were found on them, or what is wrong with
/// the first page that cannot be encoded.
pub fn annotate_pages(rendered: Vec<RenderedRgbaPage>, pages: &Vec<ParsedPage>) -> (r: Result<
    Vec<ScreenshotResult>,
    LiteParseError,
>)
    requires
        forall|i: int| 0 <= i < rendered@.len() ==> (#[trigger] rendered@[i]).is_drawable(),
    ensures
        match r {
            Ok(screenshots) => {
                &&& screenshots@.len() == rendered@.len()
                &&& forall|i: int|
                    0 <= i < rendered@.len() ==> !(#[trigger] rendered@[i]).has_problem()
                        && rendered@[i].is_screenshot(pages@, screenshots@[i])
            },
            Err(error) => exists|i: int|
                {
                    &&& 0 <= i < rendered@.len()
                    &&& (#[trigger] rendered@[i]).has_problem()
                    &&& rendered@[i].is_problem(error)
                    &&& forall|j: int| 0 <= j < i ==> !(#[trigger] rendered@[j]).has_problem()
                },
        },
{
    let ghost all = rendered@;
    let mut rest: Vec<RenderedRgbaPage> = rendered;
    let mut screenshots: Vec<ScreenshotResult> = Vec::new();
    let ghost mut done: int = 0;
    while rest.len() > 0
        invariant
            0 <= done <= all.len(),
            all == rendered@,
            rest@ == all.skip(done),
            screenshots@.len() == done,
            forall|i: int| 0 <= i < all.len() ==> (#[trigger] all[i]).is_drawable(),
            forall|i: int|
                0 <= i < done ==> !(#[trigger] all[i]).has_problem() && all[i].is_screenshot(
                    pages@,
                    screenshots@[i],
                ),
        decreases rest@.len(),
    {
        proof {
            assert(all.skip(done)[0] == all[done]);
            assert(all.skip(done).remove(0) =~= all.skip(done + 1));
        }
        let page: RenderedRgbaPage = rest.remove(0);
        assert(page == all[done]);
        match annotate_page(page, pages) {
            Ok(screenshot) => {
                screenshots.push(screenshot);
            },
            Err(error) => {
                return Err(error);
            },
        }
        proof {
            done = done + 1;
        }
    }
    Ok(screenshots)
}

/// The sections of a page are those of its parts that show something, in their order.
pub proof fn sections_are_the_parts_that_show_something(parts: Seq<Seq<char>>)
    ensures
        sections_of(parts) == parts.filter(|p: Seq<char>| !crate::text::is_blank(p)).map_values(
            |p: Seq<char>| crate::text::trimmed(p),
        ),
        crate::text::all_ink(sections_of(parts)) == crate::text::all_ink(parts),
    decreases parts.len(),
{
    reveal(Seq::filter);
    let shown = |p: Seq<char>| !crate::text::is_blank(p);
    let tidy = |p: Seq<char>| crate::text::trimmed(p);
    if parts.len() == 0 {
        assert(sections_of(parts) =~= parts.filter(shown).map_values(tidy));
    } else {
        let d = parts.drop_last();
        let last = parts.last();
        sections_are_the_parts_that_show_something(d);
        crate::text::trimming_empties_blank_texts(last);
        crate::text::trimming_keeps_the_ink(last);
        if crate::text::is_blank(last) {
            crate::text::blank_texts_have_no_ink(last);
            assert(crate::text::all_ink(d) + Seq::<char>::empty() =~= crate::text::all_ink(d));
        } else {
            assert(parts.filter(shown) == d.filter(shown).push(last));
            assert(d.filter(shown).push(last).map_values(tidy) =~= d.filter(shown).map_values(
                tidy,
            ).push(crate::text::trimmed(last)));
            assert(sections_of(d).push(crate::text::trimmed(last)).drop_last() =~= sections_of(d));
        }
    }
}

/// The text that parts make up shows all that they show, in their order; there is one exactly if a
/// part shows something.
pub proof fn assembling_keeps_the_ink(parts: Seq<Seq<char>>)
    ensures
        match assembled(parts) {
            Some(text) => crate::text::ink(text) == crate::text::all_ink(parts) && exists|i: int|
                0 <= i < parts.len() && !crate::text::is_blank(#[trigger] parts[i]),
            None => forall|i: int| 0 <= i < parts.len() ==> crate::text::is_blank(#[trigger] parts[i]),
        },
{
    let shown = |p: Seq<char>| !crate::text::is_blank(p);
    let sections = sections_of(parts);
    sections_are_the_parts_that_show_something(parts);
    reveal_strlit("\n\n");
    crate::text::joining_adds_no_ink(sections, "\n\n"@);
    if sections.len() > 0 {
        let first = parts.filter(shown)[0];
        assert(parts.filter(shown).contains(first));
        parts.lemma_filter_pred(shown, 0);
        parts.lemma_filter_contains_rev(shown, first);
        let i = choose|i: int| 0 <= i < parts.len() && parts[i] == first;
        assert(!crate::text::is_blank(parts[i]));
    } else {
        assert forall|i: int| 0 <= i < parts.len() implies crate::text::is_blank(
            #[trigger] parts[i],
        ) by {
            if shown(parts[i]) {
                parts.lemma_filter_contains(shown, i);
            }
        }
    }
}

/// On a page whose ids count its blocks, each text item is in the part of its block, or in the last
/// part if it has none, and in no other.
pub proof fn every_item_is_in_one_part(page: ParsedPage, j: int)
    requires
        crate::layout_merge::coherent(page.layout_blocks@, page.text_items@),
        0 <= j < page.text_items@.len(),
    ensures
        match page.text_items@[j].layout_block_id {
            Some(id) => {
                &&& id < page.layout_blocks@.len()
                &&& items_in(page.text_items@, page.layout_blocks@[id as int].id).contains(
                    page.text_items@[j],
                )
                &&& forall|k: int|
                    0 <= k < page.layout_blocks@.len() && k != id ==> !items_in(
                        page.text_items@,
                        (#[trigger] page.layout_blocks@[k]).id,
                    ).contains(page.text_items@[j])
                &&& !items_outside(page.text_items@).contains(page.text_items@[j])
            },
            None => {
                &&& items_outside(page.text_items@).contains(page.text_items@[j])
                &&& forall|k: int|
                    0 <= k < page.layout_blocks@.len() ==> !items_in(
                        page.text_items@,
                        (#[trigger] page.layout_blocks@[k]).id,
                    ).contains(page.text_items@[j])
            },
        },
{
    let items = page.text_items@;
    let item = items[j];
    lemma_items_outside(items, j);
    assert forall|k: int| 0 <= k < page.layout_blocks@.len() implies items_in(
        items,
        (#[trigger] page.layout_blocks@[k]).id,
    ).contains(item) == (item.layout_block_id == Some(page.layout_blocks@[k].id)) by {
        lemma_items_in(items, page.layout_blocks@[k].id, j);
    }
    if let Some(id) = item.layout_block_id {
        assert(page.layout_blocks@[id as int].id == id);
    }
}

proof fn lemma_items_in(items: Seq<TextItem>, id: usize, j: int)
    requires
        0 <= j < items.len(),
    ensures
        items_in(items, id).contains(items[j]) <==> items[j].layout_block_id == Some(id),
{
    let f = |item: TextItem| item.layout_block_id == Some(id);
    if f(items[j]) {
        items.lemma_filter_contains(f, j);
    }
    if items.filter(f).contains(items[j]) {
        let i = choose|i: int| 0 <= i < items.filter(f).len() && items.filter(f)[i] == items[j];
        items.lemma_filter_pred(f, i);
    }
}

proof fn lemma_items_outside(items: Seq<TextItem>, j: int)
    requires
        0 <= j < items.len(),
    ensures
        items_outside(items).contains(items[j]) <==> items[j].layout_block_id is None,
{
    let f = |item: TextItem| item.layout_block_id is None;
    if f(items[j]) {
        items.lemma_filter_contains(f, j);
    }
    if items.filter(f).contains(items[j]) {
        let i = choose|i: int| 0 <= i < items.filter(f).len() && items.filter(f)[i] == items[j];
        items.lemma_filter_pred(f, i);
    }
}

proof fn lemma_first_place(numbers: Seq<usize>, n: int)
    ensures
        match first_place(numbers, n) {
            Some(k) => 0 <= k < numbers.len() && numbers[k] == n && forall|j: int|
                0 <= j < k ==> (#[trigger] numbers[j]) != n,
            None => forall|j: int| 0 <= j < numbers.len() ==> (#[trigger] numbers[j]) != n,
        },
    decreases numbers.len(),
{
    if numbers.len() > 0 {
        let d = numbers.drop_last();
        lemma_first_place(d, n);
        assert forall|j: int| 0 <= j < d.len() implies #[trigger] numbers[j] == d[j] by {}
    }
}

/// The pixels of a page come from OCR exactly if OCR rendered it, from the first rendering; else the
/// page is rendered, under its number counted from zero.
pub proof fn pages_are_rendered_once(index: int, page_number: usize, rendered: Seq<usize>)
    requires
        rendered.len() <= usize::MAX,
        0 < page_number <= i32::MAX,
    ensures
        match source_of(index, page_number, rendered) {
            LayoutSource::Rendered { place } => place < rendered.len() && rendered[place as int]
                == index && forall|j: int| 0 <= j < place ==> (#[trigger] rendered[j]) != index,
            LayoutSource::Unrendered { page_index } => page_index == page_number - 1 && forall|j: int|
                0 <= j < rendered.len() ==> (#[trigger] rendered[j]) != index,
        },
{
    lemma_first_place(rendered, index);
}

/// A screenshot shows the blocks of the first page with its number, and none where there is no such
/// page.
pub proof fn screenshots_show_their_page(pages: Seq<ParsedPage>, page_num: u32)
    requires
        forall|k: int| 0 <= k < pages.len() ==> (#[trigger] pages[k]).page_number <= u32::MAX,
    ensures
        match page_with_number(pages, page_num) {
            Some(k) => 0 <= k < pages.len() && pages[k].page_number == page_num && forall|j: int|
                0 <= j < k ==> (#[trigger] pages[j]).page_number != page_num,
            None => forall|j: int|
                0 <= j < pages.len() ==> (#[trigger] pages[j]).page_number != page_num,
        },
    decreases pages.len(),
{
    if pages.len() > 0 {
        let d = pages.drop_last();
        assert forall|k: int| 0 <= k < d.len() implies (#[trigger] d[k]).page_number <= u32::MAX by {
            assert(pages[k].page_number <= u32::MAX);
        }
        screenshots_show_their_page(d, page_num);
        assert forall|j: int| 0 <= j < d.len() implies #[trigger] pages[j] == d[j] by {}
        assert(pages[pages.len() - 1].page_number <= u32::MAX);
    }
}

/// Where no two entries are for the same page, each page that has an entry gets the blocks of that
/// entry, and each other page stays as it is.
pub proof fn pages_get_the_blocks_detected_on_them<P>(
    before: Seq<ParsedPage>,
    detected: Seq<(usize, Vec<LayoutBlock>)>,
    project: P,
    after: Seq<ParsedPage>,
) where P: Fn(usize, F32, F32, Vec<TextItem>) -> String
    requires
        attached_all(before, detected, project, after),
        forall|i: int, j: int|
            0 <= i < j < detected.len() ==> (#[trigger] detected[i]).0 != (#[trigger] detected[j]).0,
    ensures
        after.len() == before.len(),
        forall|i: int|
            0 <= i < detected.len() && (#[trigger] detected[i]).0 < before.len() ==> is_attached(
                before[detected[i].0 as int],
                detected[i].1@,
                project,
                after[detected[i].0 as int],
            ),
        forall|k: int|
            0 <= k < before.len() && (forall|i: int|
                0 <= i < detected.len() ==> (#[trigger] detected[i]).0 != k) ==> #[trigger] after[k]
                == before[k],
    decreases detected.len(),
{
    if detected.len() > 0 {
        let d = detected.drop_last();
        let n = detected.len() - 1;
        let last = detected[n];
        let mid = choose|mid: Seq<ParsedPage>|
            attached_all(before, d, project, mid) && #[trigger] attached_one(
                mid,
                last.0,
                last.1@,
                project,
                after,
            );
        assert forall|i: int, j: int| 0 <= i < j < d.len() implies (#[trigger] d[i]).0 != (
        #[trigger] d[j]).0 by {
            assert(detected[i].0 != detected[j].0);
        }
        pages_get_the_blocks_detected_on_them(before, d, project, mid);
        assert forall|i: int| 0 <= i < d.len() implies (#[trigger] d[i]).0 != last.0 by {
            assert(detected[i].0 != detected[n].0);
        }
        assert forall|i: int|
            0 <= i < detected.len() && (#[trigger] detected[i]).0 < before.len() implies is_attached(
            before[detected[i].0 as int],
            detected[i].1@,
            project,
            after[detected[i].0 as int],
        ) by {
            if i < n {
                assert(d[i] == detected[i]);
                assert(after[d[i].0 as int] == mid[d[i].0 as int]);
            } else {
                assert(mid[last.0 as int] == before[last.0 as int]);
            }
        }
        assert forall|k: int|
            0 <= k < before.len() && (forall|i: int|
                0 <= i < detected.len() ==> (#[trigger] detected[i]).0 != k) implies #[trigger] after[k]
            == before[k] by {
            assert(detected[n].0 != k);
            assert forall|i: int| 0 <= i < d.len() implies (#[trigger] d[i]).0 != k by {
                assert(detected[i].0 != k);
            }
            assert(mid[k] == before[k]);
        }
    }
}

} // verus!
