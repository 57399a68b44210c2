//! What layout detection tells about the structure of a page.
use super::blocks::{Block, TableRun};
use super::borderless::detect_tables;
use super::merge::merge_table_runs;
use super::ruled::detect_ruled_tables;
use crate::float::F32;
use crate::text::same_text;
use crate::types::{GraphicPrimitive, LayoutBlock, ParsedPage, ProjectedLine, Rect};
use std::collections::HashSet;
use vstd::prelude::*;
use vstd::string::*;

verus! {

broadcast use vstd::std_specs::hash::group_hash_axioms;

/// Markdown-relevant layout region kind.
#[derive(Clone, Copy, Debug, PartialEq, Eq, Structural)]
pub enum LayoutHintKind {
    Text,
    Table,
    Figure,
    Formula,
}

impl LayoutHintKind {
    /// The kind that a layout label stands for.
    pub open spec fn of_label(label: Seq<char>) -> Option<LayoutHintKind> {
        if label == "Text"@ {
            Some(LayoutHintKind::Text)
        } else if label == "Table"@ {
            Some(LayoutHintKind::Table)
        } else if label == "Picture"@ {
            Some(LayoutHintKind::Figure)
        } else if label == "Formula"@ {
            Some(LayoutHintKind::Formula)
        } else {
            None
        }
    }

    /// Convert a layout label string into a markdown hint kind.
    pub fn from_label(label: &str) -> (r: Option<LayoutHintKind>)
        ensures
            r == LayoutHintKind::of_label(label@),
    {
        if same_text(label, "Text") {
            Some(LayoutHintKind::Text)
        } else if same_text(label, "Table") {
            Some(LayoutHintKind::Table)
        } else if same_text(label, "Picture") {
            Some(LayoutHintKind::Figure)
        } else if same_text(label, "Formula") {
            Some(LayoutHintKind::Formula)
        } else {
            None
        }
    }

    /// Return whether lines in this region should avoid heuristic heading promotion.
    pub fn suppresses_heading(self) -> (r: bool)
        ensures
            r == (self != LayoutHintKind::Text),
    {
        match self {
            LayoutHintKind::Text => false,
            _ => true,
        }
    }
}

/// One page-space hint region consumed by markdown heuristics.
#[derive(Clone, Copy, Debug)]
pub struct LayoutHintRegion {
    pub kind: LayoutHintKind,
    pub rect: Rect,
}

/// Whether a rectangle contains the centre of another one.
pub open spec fn contains_center(rect: Rect, other: Rect) -> bool {
    let half = F32::ratio(1, 2);
    rect.has_point(other.x.plus(other.width.times(half)), other.y.plus(other.height.times(half)))
}

impl LayoutHintRegion {
    /// The hint region of a layout block, if its label stands for one.
    pub open spec fn of_block(block: LayoutBlock) -> Option<LayoutHintRegion> {
        match LayoutHintKind::of_label(block.label@) {
            Some(kind) => Some(LayoutHintRegion { kind, rect: block.area_rect() }),
            None => None,
        }
    }

    /// Whether a line belongs to this region: half of it or its centre is inside.
    pub open spec fn holds(self, line: crate::types::Line) -> bool {
        let zero = F32 { bits: 0 };
        let area = line.bbox.area();
        contains_center(self.rect, line.bbox) || (!area.at_most(zero) && F32::ratio(1, 2).at_most(
            self.rect.overlap_area(line.bbox).over(area),
        ))
    }

    /// Convert a public layout block into a markdown hint region.
    pub fn from_layout_block(block: &LayoutBlock) -> (r: Option<LayoutHintRegion>)
        ensures
            r == LayoutHintRegion::of_block(*block),
    {
        match LayoutHintKind::from_label(block.label.as_str()) {
            Some(kind) => Some(LayoutHintRegion { kind, rect: block.rect() }),
            None => None,
        }
    }

    /// Return whether a projected line belongs to this hint region.
    pub fn matches_line(&self, line: &ProjectedLine) -> (r: bool)
        ensures
            r == self.holds(line@),
    {
        let half: F32 = F32::fraction(1, 2);
        let center_x: F32 = line.bbox.x.add(line.bbox.width.mul(half));
        let center_y: F32 = line.bbox.y.add(line.bbox.height.mul(half));
        let centered: bool = self.rect.contains_point(center_x, center_y);
        let area: F32 = line.bbox.width.mul(line.bbox.height);
        if area.le(F32::from_bits(0)) {
            return centered;
        }
        self.rect.intersection_area(line.bbox).div(area).ge(half) || centered
    }

    /// The lines that belong to this region and are not excluded.
    pub open spec fn lines_inside(
        self,
        lines: Seq<crate::types::Line>,
        excluded: Set<usize>,
    ) -> Seq<usize> {
        super::components::indices_where(
            lines.len(),
            |k: int| !excluded.contains(k as usize) && self.holds(lines[k]),
        )
    }

    /// Return all non-excluded line indices that belong to this region.
    pub fn matching_line_indices(&self, lines: &Vec<ProjectedLine>, excluded: &HashSet<usize>) -> (r:
        Vec<usize>)
        ensures
            r@ == self.lines_inside(crate::types::lines_of(lines@), excluded@),
    {
        let ghost all = crate::types::lines_of(lines@);
        let ghost inside = |k: int| !excluded@.contains(k as usize) && self.holds(all[k]);
        let mut r: Vec<usize> = Vec::new();
        let mut i: usize = 0;
        while i < lines.len()
            invariant
                i <= lines@.len(),
                all == crate::types::lines_of(lines@),
                inside == (|k: int| !excluded@.contains(k as usize) && self.holds(all[k])),
                r@ == super::components::indices_where(i as nat, inside),
            decreases lines@.len() - i,
        {
            assert(inside(i as int) == (!excluded@.contains(i) && self.holds(all[i as int])));
            if !excluded.contains(&i) && self.matches_line(&lines[i]) {
                r.push(i);
            }
            i = i + 1;
        }
        r
    }
}

/// The hint regions of the blocks, in their order.
pub open spec fn regions_of(blocks: Seq<LayoutBlock>) -> Seq<LayoutHintRegion>
    decreases blocks.len(),
{
    if blocks.len() == 0 {
        Seq::empty()
    } else {
        let before = regions_of(blocks.drop_last());
        match LayoutHintRegion::of_block(blocks.last()) {
            Some(region) => before.push(region),
            None => before,
        }
    }
}

/// Page-level layout guidance derived from generic layout blocks.
///
/// This layer deliberately accepts core [`LayoutBlock`] values instead of
/// detector types. The markdown classifier consumes only these coarse hints, so
/// model-specific labels and thresholds remain outside the heuristic markdown
/// pipeline.
#[derive(Debug)]
pub struct MarkdownLayoutHints {
    pub regions: Vec<LayoutHintRegion>,
}

impl MarkdownLayoutHints {
    /// Whether some region of another kind than text holds a line.
    pub open spec fn keeps_from_heading(self, line: crate::types::Line) -> bool {
        exists|i: int|
            0 <= i < self.regions@.len() && (#[trigger] self.regions@[i]).kind
                != LayoutHintKind::Text && self.regions@[i].holds(line)
    }

    /// Whether some text region holds a line.
    pub open spec fn has_text_region(self, line: crate::types::Line) -> bool {
        exists|i: int|
            0 <= i < self.regions@.len() && (#[trigger] self.regions@[i]).kind
                == LayoutHintKind::Text && self.regions@[i].holds(line)
    }

    /// Whether one text region holds two lines.
    pub open spec fn shares_text_region(
        self,
        previous: crate::types::Line,
        current: crate::types::Line,
    ) -> bool {
        exists|i: int|
            0 <= i < self.regions@.len() && (#[trigger] self.regions@[i]).kind
                == LayoutHintKind::Text && self.regions@[i].holds(previous)
                && self.regions@[i].holds(current)
    }

    /// Whether two lines belong to text regions, but to none in common.
    pub open spec fn parts_text_regions(
        self,
        previous: crate::types::Line,
        current: crate::types::Line,
    ) -> bool {
        self.has_text_region(previous) && self.has_text_region(current) && !self.shares_text_region(
            previous,
            current,
        )
    }

    /// Build markdown hints from detected page layout blocks.
    pub fn from_page(page: &ParsedPage) -> (r: MarkdownLayoutHints)
        ensures
            r.regions@ == regions_of(page.layout_blocks@),
    {
        let mut regions: Vec<LayoutHintRegion> = Vec::new();
        let mut i: usize = 0;
        while i < page.layout_blocks.len()
            invariant
                i <= page.layout_blocks@.len(),
                regions@ == regions_of(page.layout_blocks@.take(i as int)),
            decreases page.layout_blocks@.len() - i,
        {
            assert(page.layout_blocks@.take(i + 1).drop_last() =~= page.layout_blocks@.take(
                i as int,
            ));
            if let Some(region) = LayoutHintRegion::from_layout_block(&page.layout_blocks[i]) {
                regions.push(region);
            }
            i = i + 1;
        }
        assert(page.layout_blocks@.take(i as int) =~= page.layout_blocks@);
        MarkdownLayoutHints { regions }
    }

    /// Return whether a line sits inside a region that should not be promoted to a heading.
    pub fn suppresses_heading(&self, line: &ProjectedLine) -> (r: bool)
        ensures
            r == self.keeps_from_heading(line@),
    {
        let mut i: usize = 0;
        while i < self.regions.len()
            invariant
                i <= self.regions@.len(),
                forall|k: int|
                    0 <= k < i ==> !((#[trigger] self.regions@[k]).kind != LayoutHintKind::Text
                        && self.regions@[k].holds(line@)),
            decreases self.regions@.len() - i,
        {
            if self.regions[i].kind.suppresses_heading() && self.regions[i].matches_line(line) {
                return true;
            }
            i = i + 1;
        }
        false
    }

    /// Return whether two lines should stay in one paragraph due to a text layout block.
    ///
    /// The geometric paragraph heuristic stays conservative by default. A
    /// detector-provided Text region is allowed to relax that heuristic only
    /// when both adjacent lines are inside the same region, which keeps the
    /// model guidance local and avoids changing unrelated markdown flow.
    pub fn continues_text_block(&self, previous: &ProjectedLine, current: &ProjectedLine) -> (r: bool)
        ensures
            r == self.shares_text_region(previous@, current@),
    {
        let mut i: usize = 0;
        while i < self.regions.len()
            invariant
                i <= self.regions@.len(),
                forall|k: int|
                    0 <= k < i ==> !((#[trigger] self.regions@[k]).kind == LayoutHintKind::Text
                        && self.regions@[k].holds(previous@) && self.regions@[k].holds(current@)),
            decreases self.regions@.len() - i,
        {
            if self.regions[i].kind == LayoutHintKind::Text && self.regions[i].matches_line(previous)
                && self.regions[i].matches_line(current) {
                return true;
            }
            i = i + 1;
        }
        false
    }

    /// Return whether two lines belong to different detector-provided text blocks.
    ///
    /// This is the inverse boundary signal for [`Self::continues_text_block`]:
    /// when both lines are covered by Text regions but there is no shared
    /// region, markdown should keep them as separate paragraph blocks even if
    /// the geometric paragraph heuristic would normally join them.
    pub fn separates_text_blocks(&self, previous: &ProjectedLine, current: &ProjectedLine) -> (r:
        bool)
        ensures
            r == self.parts_text_regions(previous@, current@),
    {
        let mut previous_has: bool = false;
        let mut current_has: bool = false;
        let mut shared: bool = false;
        let mut i: usize = 0;
        while i < self.regions.len()
            invariant
                i <= self.regions@.len(),
                previous_has == exists|k: int|
                    0 <= k < i && (#[trigger] self.regions@[k]).kind == LayoutHintKind::Text
                        && self.regions@[k].holds(previous@),
                current_has == exists|k: int|
                    0 <= k < i && (#[trigger] self.regions@[k]).kind == LayoutHintKind::Text
                        && self.regions@[k].holds(current@),
                shared == exists|k: int|
                    0 <= k < i && (#[trigger] self.regions@[k]).kind == LayoutHintKind::Text
                        && self.regions@[k].holds(previous@) && self.regions@[k].holds(current@),
            decreases self.regions@.len() - i,
        {
            assert(self.regions@[i as int].kind == self.regions@[i as int].kind);
            if self.regions[i].kind == LayoutHintKind::Text {
                let previous_matches: bool = self.regions[i].matches_line(previous);
                let current_matches: bool = self.regions[i].matches_line(current);
                previous_has = previous_has || previous_matches;
                current_has = current_has || current_matches;
                shared = shared || (previous_matches && current_matches);
            }
            i = i + 1;
        }
        previous_has && current_has && !shared
    }
}

/// No two lines are both continued and separated.
pub proof fn continued_lines_are_not_separated(
    hints: MarkdownLayoutHints,
    previous: crate::types::Line,
    current: crate::types::Line,
)
    ensures
        !(hints.shares_text_region(previous, current) && hints.parts_text_regions(previous, current)),
        hints.has_text_region(previous) && hints.has_text_region(current) ==> (
        hints.shares_text_region(previous, current) <==> !hints.parts_text_regions(
            previous,
            current,
        )),
{
}

/// Tables and consumed line indices recovered from layout-guided detection.
#[derive(Debug)]
pub struct HintedTableExtraction {
    /// Table blocks emitted as page-level interruptions at their top y position.
    pub tables: Vec<(F32, Block)>,
    /// Line indices consumed by the recovered table blocks.
    pub consumed: HashSet<usize>,
}

/// What an extraction holds.
#[verifier::ext_equal]
pub struct Extraction {
    pub tables: Seq<(F32, super::blocks::Content)>,
    pub consumed: Set<usize>,
}

impl View for HintedTableExtraction {
    type V = Extraction;

    open spec fn view(&self) -> Extraction {
        Extraction {
            tables: Seq::new(self.tables@.len(), |i: int| (self.tables@[i].0, self.tables@[i].1@)),
            consumed: self.consumed@,
        }
    }
}

/// Whether a table detector result is worth emitting from a layout hint.
pub open spec fn is_useful(block: super::blocks::Content) -> bool {
    match block {
        super::blocks::Content::Table { header, rows } => match header {
            Some(h) => h.len() >= 2,
            None => rows.len() > 0 && rows[0].len() >= 2,
        },
        super::blocks::Content::GridFallback { lines } => lines.len() >= 2,
        _ => false,
    }
}

impl HintedTableExtraction {
    /// Return whether a table detector result is worth emitting from a layout hint.
    pub fn is_useful_table_block(block: &Block) -> (r: bool)
        ensures
            r == is_useful(block@),
    {
        match block {
            Block::Table { header, rows } => match header {
                Some(h) => h.len() >= 2,
                None => {
                    if rows.len() > 0 {
                        assert(crate::text::text_rows(rows@)[0] == crate::text::texts(rows@[0]@));
                        rows[0].len() >= 2
                    } else {
                        false
                    }
                },
            },
            Block::GridFallback { lines } => lines.len() >= 2,
            _ => false,
        }
    }
}

/// The lines with the given indices.
pub open spec fn picked_lines(lines: Seq<crate::types::Line>, indices: Seq<usize>) -> Seq<
    crate::types::Line,
> {
    Seq::new(indices.len(), |i: int| lines[indices[i] as int])
}

/// Whether the lines with the given indices come from two page regions or more.
pub open spec fn spans_regions(lines: Seq<crate::types::Line>, indices: Seq<usize>) -> bool {
    exists|i: int|
        0 <= i < indices.len() && lines[#[trigger] indices[i] as int].region_path
            != lines[indices[0] as int].region_path
}

/// The least height on the page of the lines with the given indices.
pub open spec fn top_of(lines: Seq<crate::types::Line>, indices: Seq<usize>) -> F32
    decreases indices.len(),
{
    if indices.len() == 0 {
        F32 { bits: 0x7f80_0000 }
    } else {
        top_of(lines, indices.drop_last()).lesser(lines[indices.last() as int].bbox.y)
    }
}

/// The extraction with a run added, if it is useful and none of its lines is taken.
pub open spec fn with_run(
    e: Extraction,
    lines: Seq<crate::types::Line>,
    indices: Seq<usize>,
    run: super::blocks::Run,
) -> Extraction {
    let taken = indices.subrange(run.start, run.end);
    if is_useful(run.block) && forall|i: int|
        0 <= i < taken.len() ==> !e.consumed.contains(#[trigger] taken[i]) {
        Extraction {
            tables: e.tables.push((top_of(lines, taken), run.block)),
            consumed: e.consumed.union(taken.to_set()),
        }
    } else {
        e
    }
}

/// The extraction with the runs added, in their order.
pub open spec fn with_runs(
    e: Extraction,
    lines: Seq<crate::types::Line>,
    indices: Seq<usize>,
    runs: Seq<super::blocks::Run>,
) -> Extraction
    decreases runs.len(),
{
    if runs.len() == 0 {
        e
    } else {
        with_run(with_runs(e, lines, indices, runs.drop_last()), lines, indices, runs.last())
    }
}

/// The tables among some lines.
pub open spec fn tables_among(
    lines: Seq<crate::types::Line>,
    graphics: Seq<GraphicPrimitive>,
    page_width: F32,
    page_height: F32,
) -> Seq<super::blocks::Run> {
    super::merge::merged_runs(
        super::ruled::ruled_tables(lines, graphics, page_width, page_height),
        super::borderless::tables_from(lines, 0, 0),
    )
}

/// The extraction with the tables of a region added: of a table region whose lines are two or
/// more and come from two page regions or more.
pub open spec fn with_region(
    e: Extraction,
    region: LayoutHintRegion,
    lines: Seq<crate::types::Line>,
    graphics: Seq<GraphicPrimitive>,
    page_width: F32,
    page_height: F32,
    excluded: Set<usize>,
) -> Extraction {
    let indices = region.lines_inside(lines, excluded);
    if region.kind == LayoutHintKind::Table && indices.len() >= 2 && spans_regions(lines, indices) {
        with_runs(
            e,
            lines,
            indices,
            tables_among(picked_lines(lines, indices), graphics, page_width, page_height),
        )
    } else {
        e
    }
}

/// The tables of the regions, in their order.
pub open spec fn hinted_tables(
    regions: Seq<LayoutHintRegion>,
    lines: Seq<crate::types::Line>,
    graphics: Seq<GraphicPrimitive>,
    page_width: F32,
    page_height: F32,
    excluded: Set<usize>,
) -> Extraction
    decreases regions.len(),
{
    if regions.len() == 0 {
        Extraction { tables: Seq::empty(), consumed: Set::empty() }
    } else {
        with_region(
            hinted_tables(
                regions.drop_last(),
                lines,
                graphics,
                page_width,
                page_height,
                excluded,
            ),
            regions.last(),
            lines,
            graphics,
            page_width,
            page_height,
            excluded,
        )
    }
}

proof fn lemma_tables_among(
    lines: Seq<crate::types::Line>,
    graphics: Seq<GraphicPrimitive>,
    page_width: F32,
    page_height: F32,
)
    ensures
        forall|i: int|
            0 <= i < tables_among(lines, graphics, page_width, page_height).len() ==> 0 <= (
            #[trigger] tables_among(lines, graphics, page_width, page_height)[i]).start
                < tables_among(lines, graphics, page_width, page_height)[i].end <= lines.len(),
{
    let ruled = super::ruled::ruled_tables(lines, graphics, page_width, page_height);
    let borderless = super::borderless::tables_from(lines, 0, 0);
    let out = tables_among(lines, graphics, page_width, page_height);
    super::ruled::ruled_tables_lie_within_the_lines(lines, graphics, page_width, page_height);
    super::borderless::detected_tables_are_in_order(lines, 0, 0);
    assert forall|i: int| 0 <= i < out.len() implies 0 <= (#[trigger] out[i]).start < out[i].end
        <= lines.len() by {
        assert(out.contains(out[i]));
        super::merge::merging_adds_no_run(ruled, borderless, out[i]);
        if ruled.contains(out[i]) {
            let k = choose|k: int| 0 <= k < ruled.len() && ruled[k] == out[i];
            assert(ruled[k].start < ruled[k].end);
        } else {
            let k = choose|k: int| 0 <= k < borderless.len() && borderless[k] == out[i];
            assert(borderless[k].start < borderless[k].end);
        }
    }
}

/// Whether two region paths differ.
fn paths_differ(a: &Vec<u16>, b: &Vec<u16>) -> (r: bool)
    ensures
        r == (a@ != b@),
{
    if a.len() != b.len() {
        return true;
    }
    let mut i: usize = 0;
    while i < a.len()
        invariant
            i <= a@.len(),
            a@.len() == b@.len(),
            forall|k: int| 0 <= k < i ==> a@[k] == b@[k],
        decreases a@.len() - i,
    {
        if a[i] != b[i] {
            return true;
        }
        i = i + 1;
    }
    assert(a@ =~= b@);
    false
}

/// Whether the indices are indices of lines.
pub open spec fn are_indices(indices: Seq<usize>, n: nat) -> bool {
    forall|i: int| 0 <= i < indices.len() ==> (#[trigger] indices[i]) < n
}

/// Whether the lines with the given indices come from two page regions or more.
fn do_span_regions(lines: &Vec<ProjectedLine>, indices: &Vec<usize>) -> (r: bool)
    requires
        are_indices(indices@, lines@.len()),
    ensures
        r == spans_regions(crate::types::lines_of(lines@), indices@),
{
    let ghost all = crate::types::lines_of(lines@);
    let mut i: usize = 0;
    while i < indices.len()
        invariant
            i <= indices@.len(),
            all == crate::types::lines_of(lines@),
            are_indices(indices@, lines@.len()),
            forall|k: int|
                0 <= k < i ==> all[#[trigger] indices@[k] as int].region_path
                    == all[indices@[0] as int].region_path,
        decreases indices@.len() - i,
    {
        assert(indices@[0] < lines@.len());
        if paths_differ(&lines[indices[i]].region_path, &lines[indices[0]].region_path) {
            assert(all[indices@[i as int] as int].region_path != all[indices@[0] as int].region_path);
            return true;
        }
        i = i + 1;
    }
    false
}

/// The lines with the given indices.
fn pick_lines(lines: &Vec<ProjectedLine>, indices: &Vec<usize>) -> (r: Vec<ProjectedLine>)
    requires
        are_indices(indices@, lines@.len()),
    ensures
        crate::types::lines_of(r@) == picked_lines(crate::types::lines_of(lines@), indices@),
{
    let mut r: Vec<ProjectedLine> = Vec::new();
    let mut i: usize = 0;
    while i < indices.len()
        invariant
            i <= indices@.len(),
            are_indices(indices@, lines@.len()),
            r@.len() == i,
            forall|k: int| 0 <= k < i ==> (#[trigger] r@[k])@ == lines@[indices@[k] as int]@,
        decreases indices@.len() - i,
    {
        r.push(lines[indices[i]].clone());
        i = i + 1;
    }
    assert(crate::types::lines_of(r@) =~= picked_lines(crate::types::lines_of(lines@), indices@));
    r
}

/// Adds a run to an extraction, if it is useful and none of its lines is taken.
fn add_run(
    e: &mut HintedTableExtraction,
    lines: &Vec<ProjectedLine>,
    indices: &Vec<usize>,
    run: TableRun,
)
    requires
        are_indices(indices@, lines@.len()),
        run.start <= run.end <= indices@.len(),
    ensures
        final(e)@ == with_run(old(e)@, crate::types::lines_of(lines@), indices@, run@),
{
    let ghost all = crate::types::lines_of(lines@);
    let ghost taken = indices@.subrange(run.start as int, run.end as int);
    let ghost before = e@;
    if !HintedTableExtraction::is_useful_table_block(&run.block) {
        return;
    }
    let mut i: usize = run.start;
    while i < run.end
        invariant
            run.start <= i <= run.end <= indices@.len(),
            taken == indices@.subrange(run.start as int, run.end as int),
            e@ == before,
            forall|k: int| 0 <= k < i - run.start ==> !before.consumed.contains(#[trigger] taken[k]),
        decreases run.end - i,
    {
        assert(taken[i - run.start] == indices@[i as int]);
        if e.consumed.contains(&indices[i]) {
            assert(before.consumed.contains(taken[i - run.start]));
            return;
        }
        i = i + 1;
    }
    let mut top: F32 = F32::from_bits(0x7f80_0000);
    let mut j: usize = run.start;
    assert(taken.take(0) =~= Seq::empty());
    assert(before.consumed.union(taken.take(0).to_set()) =~= before.consumed);
    while j < run.end
        invariant
            run.start <= j <= run.end <= indices@.len(),
            all == crate::types::lines_of(lines@),
            are_indices(indices@, lines@.len()),
            taken == indices@.subrange(run.start as int, run.end as int),
            e@.tables == before.tables,
            e.consumed@ == before.consumed.union(taken.take(j - run.start).to_set()),
            top == top_of(all, taken.take(j - run.start)),
        decreases run.end - j,
    {
        let k: usize = indices[j];
        let ghost seen = taken.take(j - run.start);
        let ghost more = taken.take(j - run.start + 1);
        assert(more.drop_last() =~= seen);
        assert(more.last() == k);
        assert(more.to_set() =~= seen.to_set().insert(k)) by {
            assert forall|x: usize| #[trigger] more.to_set().contains(x) == seen.to_set().insert(k).contains(x) by {
                if more.contains(x) {
                    let m = choose|m: int| 0 <= m < more.len() && more[m] == x;
                    if m < seen.len() {
                        assert(seen[m] == x);
                    }
                }
                if seen.contains(x) {
                    let m = choose|m: int| 0 <= m < seen.len() && seen[m] == x;
                    assert(more[m] == x);
                }
                assert(more[seen.len() as int] == k);
            }
        }
        top = top.min(lines[k].bbox.y);
        let ghost tables = e@.tables;
        e.consumed.insert(k);
        assert(e@.tables =~= tables);
        assert(before.consumed.union(seen.to_set()).insert(k) =~= before.consumed.union(
            seen.to_set().insert(k),
        ));
        j = j + 1;
    }
    assert(taken.take(j - run.start) =~= taken);
    let ghost tables = e@.tables;
    let ghost block = run.block@;
    e.tables.push((top, run.block));
    assert(e@.tables =~= tables.push((top, block)));
    assert(e@ =~= with_run(before, all, indices@, run@));
}

impl MarkdownLayoutHints {
    /// Detect page-level tables from table-shaped layout regions.
    ///
    /// The existing markdown table detectors still build the final table block.
    /// Layout hints only choose which lines should be tested together when the
    /// projection region tree split a table into multiple leaves.
    pub fn detect_table_interruptions(
        &self,
        lines: &Vec<ProjectedLine>,
        graphics: &Vec<GraphicPrimitive>,
        page_width: F32,
        page_height: F32,
        excluded: &HashSet<usize>,
    ) -> (r: HintedTableExtraction)
        ensures
            r@ == hinted_tables(
                self.regions@,
                crate::types::lines_of(lines@),
                graphics@,
                page_width,
                page_height,
                excluded@,
            ),
    {
        let ghost all = crate::types::lines_of(lines@);
        let n: usize = lines.len();
        let mut extracted: HintedTableExtraction = HintedTableExtraction {
            tables: Vec::new(),
            consumed: HashSet::new(),
        };
        let mut i: usize = 0;
        assert(extracted@ =~= hinted_tables(
            self.regions@.take(0),
            all,
            graphics@,
            page_width,
            page_height,
            excluded@,
        ));
        while i < self.regions.len()
            invariant
                i <= self.regions@.len(),
                n == lines@.len(),
                all == crate::types::lines_of(lines@),
                extracted@ == hinted_tables(
                    self.regions@.take(i as int),
                    all,
                    graphics@,
                    page_width,
                    page_height,
                    excluded@,
                ),
            decreases self.regions@.len() - i,
        {
            assert(self.regions@.take(i + 1).drop_last() =~= self.regions@.take(i as int));
            let region: LayoutHintRegion = self.regions[i];
            let indices: Vec<usize> = region.matching_line_indices(lines, excluded);
            proof {
                super::components::lemma_indices_below(
                    all.len(),
                    |k: int| !excluded@.contains(k as usize) && region.holds(all[k]),
                );
            }
            if region.kind == LayoutHintKind::Table && indices.len() >= 2 && do_span_regions(
                lines,
                &indices,
            ) {
                let hinted: Vec<ProjectedLine> = pick_lines(lines, &indices);
                let mut runs: Vec<TableRun> = merge_table_runs(
                    detect_ruled_tables(&hinted, graphics, page_width, page_height),
                    detect_tables(&hinted),
                );
                let ghost models = super::blocks::runs_of(runs@);
                let ghost before = extracted@;
                proof {
                    lemma_tables_among(
                        crate::types::lines_of(hinted@),
                        graphics@,
                        page_width,
                        page_height,
                    );
                }
                let ghost mut done: int = 0;
                assert(models.skip(0) =~= models);
                assert(models.take(0) =~= Seq::empty());
                while runs.len() > 0
                    invariant
                        0 <= done <= models.len(),
                        all == crate::types::lines_of(lines@),
                        are_indices(indices@, lines@.len()),
                        super::blocks::runs_of(runs@) == models.skip(done),
                        forall|k: int|
                            0 <= k < models.len() ==> 0 <= (#[trigger] models[k]).start
                                < models[k].end <= indices@.len(),
                        extracted@ == with_runs(before, all, indices@, models.take(done)),
                    decreases runs@.len(),
                {
                    let ghost left = super::blocks::runs_of(runs@);
                    let ghost whole = runs@;
                    assert(left.len() == whole.len());
                    assert(left[0] == whole[0]@);
                    let run: TableRun = runs.remove(0);
                    assert(left[0] == models[done]);
                    assert(super::blocks::runs_of(runs@) =~= left.skip(1));
                    assert(left.skip(1) =~= models.skip(done + 1));
                    assert(models.take(done + 1).drop_last() =~= models.take(done));
                    add_run(&mut extracted, lines, &indices, run);
                    proof {
                        done = done + 1;
                    }
                }
                assert(done == models.len()) by {
                    assert(super::blocks::runs_of(runs@).len() == 0);
                }
                assert(models.take(done) =~= models);
            }
            i = i + 1;
        }
        assert(self.regions@.take(i as int) =~= self.regions@);
        extracted
    }
}

proof fn lemma_runs_not_excluded(
    e: Extraction,
    lines: Seq<crate::types::Line>,
    indices: Seq<usize>,
    runs: Seq<super::blocks::Run>,
    excluded: Set<usize>,
)
    requires
        forall|x: usize| #[trigger] e.consumed.contains(x) ==> x < lines.len() && !excluded.contains(x),
        forall|i: int|
            0 <= i < indices.len() ==> (#[trigger] indices[i]) < lines.len() && !excluded.contains(
                indices[i],
            ),
        forall|i: int|
            0 <= i < runs.len() ==> 0 <= (#[trigger] runs[i]).start < runs[i].end <= indices.len(),
    ensures
        forall|x: usize| #[trigger]
            with_runs(e, lines, indices, runs).consumed.contains(x) ==> x < lines.len()
                && !excluded.contains(x),
    decreases runs.len(),
{
    if runs.len() > 0 {
        let rest = runs.drop_last();
        lemma_runs_not_excluded(e, lines, indices, rest, excluded);
        let before = with_runs(e, lines, indices, rest);
        let run = runs.last();
        assert(run == runs[runs.len() - 1]);
        let taken = indices.subrange(run.start, run.end);
        let all = with_runs(e, lines, indices, runs);
        assert forall|x: usize| #[trigger] all.consumed.contains(x) implies x < lines.len()
            && !excluded.contains(x) by {
            if !before.consumed.contains(x) {
                assert(taken.to_set().contains(x));
                let m = choose|m: int| 0 <= m < taken.len() && taken[m] == x;
                assert(indices[m + run.start] == x);
            }
        }
    }
}

/// Only lines of the page that are not excluded are consumed.
pub proof fn hinted_tables_respect_exclusions(
    regions: Seq<LayoutHintRegion>,
    lines: Seq<crate::types::Line>,
    graphics: Seq<GraphicPrimitive>,
    page_width: F32,
    page_height: F32,
    excluded: Set<usize>,
)
    requires
        lines.len() <= usize::MAX,
    ensures
        forall|x: usize| #[trigger]
            hinted_tables(
                regions,
                lines,
                graphics,
                page_width,
                page_height,
                excluded,
            ).consumed.contains(x) ==> x < lines.len() && !excluded.contains(x),
    decreases regions.len(),
{
    if regions.len() > 0 {
        let rest = regions.drop_last();
        let region = regions.last();
        hinted_tables_respect_exclusions(rest, lines, graphics, page_width, page_height, excluded);
        let inside = |k: int| !excluded.contains(k as usize) && region.holds(lines[k]);
        super::components::lemma_indices_below(lines.len(), inside);
        super::components::lemma_indices_hold(lines.len(), inside);
        let indices = region.lines_inside(lines, excluded);
        let hinted = picked_lines(lines, indices);
        lemma_tables_among(hinted, graphics, page_width, page_height);
        assert forall|i: int| 0 <= i < indices.len() implies (#[trigger] indices[i]) < lines.len()
            && !excluded.contains(indices[i]) by {
            assert(inside(indices[i] as int));
        }
        lemma_runs_not_excluded(
            hinted_tables(rest, lines, graphics, page_width, page_height, excluded),
            lines,
            indices,
            tables_among(hinted, graphics, page_width, page_height),
            excluded,
        );
    }
}

/// On whole points, a line belongs to a region if its centre lies in the region or at least half of
/// its area does.
pub proof fn framed_lines_belong_where_half_of_them_is(
    region: LayoutHintRegion,
    line: crate::types::Line,
    g: crate::types::Frame,
    h: crate::types::Frame,
)
    requires
        line.bbox.is_framed(g),
        region.rect.is_framed(h),
    ensures
        region.holds(line) <==> h.holds_centre_of(g) || (g.size() > 0 && 2 * h.shared(g)
            >= g.size()),
{
    let area = line.bbox.area();
    crate::types::framed_edges(line.bbox, g);
    crate::types::framed_overlaps(region.rect, line.bbox, h, g);
    crate::types::framed_centres(line.bbox, region.rect, g, h);
    crate::float::exact::zero_is_whole();
    crate::float::exact::measures_are_ordered(area, F32 { bits: 0 }, 256 * g.size(), 0);
    if g.size() > 0 {
        let shared = region.rect.overlap_area(line.bbox);
        crate::float::exact::shares_are_ordered(
            shared,
            shared,
            area,
            h.shared(g),
            h.shared(g),
            g.size(),
        );
    }
}

/// Each block with the label of a text, a table, a picture or a formula gives a region of that kind
/// in its place, and there are no other regions.
pub proof fn regions_stand_for_the_labelled_blocks(blocks: Seq<LayoutBlock>)
    ensures
        forall|k: int|
            0 <= k < blocks.len() && is_labelled(#[trigger] blocks[k]) ==> exists|i: int|
                0 <= i < regions_of(blocks).len() && is_region_of(
                    #[trigger] regions_of(blocks)[i],
                    blocks[k],
                ),
        forall|i: int|
            0 <= i < regions_of(blocks).len() ==> exists|k: int|
                0 <= k < blocks.len() && is_region_of(
                    #[trigger] regions_of(blocks)[i],
                    #[trigger] blocks[k],
                ),
    decreases blocks.len(),
{
    if blocks.len() > 0 {
        let d = blocks.drop_last();
        let n = blocks.len() - 1;
        let (before, all) = (regions_of(d), regions_of(blocks));
        regions_stand_for_the_labelled_blocks(d);
        lemma_region_of(blocks[n]);
        assert forall|k: int| 0 <= k < blocks.len() && is_labelled(#[trigger] blocks[k]) implies exists|
            i: int,
        | 0 <= i < all.len() && is_region_of(#[trigger] all[i], blocks[k]) by {
            if k < n {
                assert(d[k] == blocks[k]);
                let i = choose|i: int| 0 <= i < before.len() && is_region_of(#[trigger] before[i], d[k]);
                assert(all[i] == before[i]);
            } else {
                assert(is_region_of(all[all.len() - 1], blocks[k]));
            }
        }
        assert forall|i: int| 0 <= i < all.len() implies exists|k: int|
            0 <= k < blocks.len() && is_region_of(#[trigger] all[i], #[trigger] blocks[k]) by {
            if i < before.len() {
                assert(all[i] == before[i]);
                let k = choose|k: int| 0 <= k < d.len() && is_region_of(before[i], #[trigger] d[k]);
                assert(d[k] == blocks[k]);
            } else {
                assert(is_region_of(all[i], blocks[n]));
            }
        }
    }
}

/// Whether a block has a label that markdown reads.
pub open spec fn is_labelled(block: LayoutBlock) -> bool {
    block.label@ == "Text"@ || block.label@ == "Table"@ || block.label@ == "Picture"@
        || block.label@ == "Formula"@
}

/// Whether a region is that of a block: in the same place, and of the kind that the label names.
pub open spec fn is_region_of(region: LayoutHintRegion, block: LayoutBlock) -> bool {
    &&& region.rect.x == block.x && region.rect.y == block.y
    &&& region.rect.width == block.width && region.rect.height == block.height
    &&& block.label@ == match region.kind {
        LayoutHintKind::Text => "Text"@,
        LayoutHintKind::Table => "Table"@,
        LayoutHintKind::Figure => "Picture"@,
        LayoutHintKind::Formula => "Formula"@,
    }
}

proof fn lemma_region_of(block: LayoutBlock)
    ensures
        match LayoutHintRegion::of_block(block) {
            Some(region) => is_region_of(region, block),
            None => !is_labelled(block),
        },
{
    reveal_strlit("Text");
    reveal_strlit("Table");
    reveal_strlit("Picture");
    reveal_strlit("Formula");
}

/// The top of lines is the least of their heights on the page.
pub proof fn the_top_is_the_least_height(lines: Seq<crate::types::Line>, indices: Seq<usize>)
    requires
        forall|i: int|
            0 <= i < indices.len() ==> !lines[#[trigger] indices[i] as int].bbox.y.nan(),
    ensures
        forall|i: int|
            0 <= i < indices.len() ==> top_of(lines, indices).at_most(
                lines[#[trigger] indices[i] as int].bbox.y,
            ),
        indices.len() > 0 ==> exists|i: int|
            0 <= i < indices.len() && top_of(lines, indices).equals(
                lines[#[trigger] indices[i] as int].bbox.y,
            ),
        !top_of(lines, indices).nan(),
    decreases indices.len(),
{
    if indices.len() > 0 {
        let d = indices.drop_last();
        let n = indices.len() - 1;
        assert forall|i: int| 0 <= i < d.len() implies !lines[#[trigger] d[i] as int].bbox.y.nan() by {
            assert(d[i] == indices[i]);
        }
        the_top_is_the_least_height(lines, d);
        let y = lines[indices[n] as int].bbox.y;
        assert(!y.nan());
        let (before, top) = (top_of(lines, d), top_of(lines, indices));
        assert forall|i: int| 0 <= i < indices.len() implies top.at_most(
            lines[#[trigger] indices[i] as int].bbox.y,
        ) by {
            if i < n {
                assert(d[i] == indices[i]);
            }
        }
        if y.less(before) || n == 0 {
            assert(top.equals(lines[indices[n] as int].bbox.y));
        } else {
            let i = choose|i: int|
                0 <= i < d.len() && before.equals(lines[#[trigger] d[i] as int].bbox.y);
            assert(d[i] == indices[i]);
        }
    }
}

/// Whether a run was added to an extraction: its table is there with the top of its lines, and
/// these lines are consumed.
pub open spec fn is_added(
    e: Extraction,
    lines: Seq<crate::types::Line>,
    indices: Seq<usize>,
    run: super::blocks::Run,
) -> bool {
    let taken = indices.subrange(run.start, run.end);
    &&& e.tables.contains((top_of(lines, taken), run.block))
    &&& forall|i: int| 0 <= i < taken.len() ==> e.consumed.contains(#[trigger] taken[i])
}

/// Whether a line of a run is consumed.
pub open spec fn is_touched(e: Extraction, indices: Seq<usize>, run: super::blocks::Run) -> bool {
    let taken = indices.subrange(run.start, run.end);
    exists|i: int| 0 <= i < taken.len() && e.consumed.contains(#[trigger] taken[i])
}

/// Adding runs keeps what an extraction holds. Each useful run is added, unless one of its lines
/// belongs to a table that was there before; a line is consumed only with a run that is added.
pub proof fn useful_runs_are_added(
    e: Extraction,
    lines: Seq<crate::types::Line>,
    indices: Seq<usize>,
    runs: Seq<super::blocks::Run>,
)
    ensures
        ({
            let all = with_runs(e, lines, indices, runs);
            &&& e.tables.is_prefix_of(all.tables)
            &&& e.consumed.subset_of(all.consumed)
            &&& forall|k: int|
                0 <= k < runs.len() && is_useful((#[trigger] runs[k]).block) ==> is_added(
                    all,
                    lines,
                    indices,
                    runs[k],
                ) || is_touched(all, indices, runs[k])
            &&& forall|x: usize| #[trigger]
                all.consumed.contains(x) ==> e.consumed.contains(x) || exists|k: int|
                    0 <= k < runs.len() && is_useful((#[trigger] runs[k]).block) && is_added(
                        all,
                        lines,
                        indices,
                        runs[k],
                    ) && indices.subrange(runs[k].start, runs[k].end).contains(x)
        }),
    decreases runs.len(),
{
    if runs.len() > 0 {
        let d = runs.drop_last();
        let n = runs.len() - 1;
        let before = with_runs(e, lines, indices, d);
        let all = with_runs(e, lines, indices, runs);
        useful_runs_are_added(e, lines, indices, d);
        let taken = indices.subrange(runs[n].start, runs[n].end);
        assert(before.tables.is_prefix_of(all.tables));
        assert(before.consumed.subset_of(all.consumed));
        assert forall|run: super::blocks::Run|
            is_added(before, lines, indices, run) implies #[trigger] is_added(
            all,
            lines,
            indices,
            run,
        ) by {
            let t = indices.subrange(run.start, run.end);
            let pair = (top_of(lines, t), run.block);
            let i = choose|i: int| 0 <= i < before.tables.len() && before.tables[i] == pair;
            assert(all.tables[i] == pair);
        }
        assert forall|run: super::blocks::Run| is_touched(before, indices, run) implies #[trigger]
            is_touched(all, indices, run) by {
            let t = indices.subrange(run.start, run.end);
            let i = choose|i: int| 0 <= i < t.len() && before.consumed.contains(#[trigger] t[i]);
            assert(all.consumed.contains(t[i]));
        }
        let fits = is_useful(runs[n].block) && forall|i: int|
            0 <= i < taken.len() ==> !before.consumed.contains(#[trigger] taken[i]);
        if fits {
            assert(all.tables[before.tables.len() as int] == (
                top_of(lines, taken),
                runs[n].block,
            ));
            assert forall|i: int| 0 <= i < taken.len() implies all.consumed.contains(
                #[trigger] taken[i],
            ) by {
                assert(taken.to_set().contains(taken[i]));
            }
            assert(is_added(all, lines, indices, runs[n]));
        } else if is_useful(runs[n].block) {
            assert(is_touched(before, indices, runs[n]));
            assert(is_touched(all, indices, runs[n]));
        }
        assert forall|k: int| 0 <= k < runs.len() && is_useful((#[trigger] runs[k]).block) implies is_added(
            all,
            lines,
            indices,
            runs[k],
        ) || is_touched(all, indices, runs[k]) by {
            if k < n {
                assert(d[k] == runs[k]);
                assert(is_added(before, lines, indices, d[k]) || is_touched(before, indices, d[k]));
            }
        }
        assert forall|x: usize| #[trigger] all.consumed.contains(x) implies e.consumed.contains(x)
            || exists|k: int|
            0 <= k < runs.len() && is_useful((#[trigger] runs[k]).block) && is_added(
                all,
                lines,
                indices,
                runs[k],
            ) && indices.subrange(runs[k].start, runs[k].end).contains(x) by {
            if before.consumed.contains(x) {
                if !e.consumed.contains(x) {
                    let k = choose|k: int|
                        0 <= k < d.len() && is_useful((#[trigger] d[k]).block) && is_added(
                            before,
                            lines,
                            indices,
                            d[k],
                        ) && indices.subrange(d[k].start, d[k].end).contains(x);
                    assert(d[k] == runs[k]);
                    assert(is_added(all, lines, indices, runs[k]));
                }
            } else {
                assert(taken.to_set().contains(x));
                assert(taken.contains(x));
            }
        }
    }
}

/// Each line that is consumed lies in a region of a table.
pub proof fn consumed_lines_lie_in_table_regions(
    regions: Seq<LayoutHintRegion>,
    lines: Seq<crate::types::Line>,
    graphics: Seq<GraphicPrimitive>,
    page_width: F32,
    page_height: F32,
    excluded: Set<usize>,
    x: usize,
)
    requires
        lines.len() <= usize::MAX,
        hinted_tables(
            regions,
            lines,
            graphics,
            page_width,
            page_height,
            excluded,
        ).consumed.contains(x),
    ensures
        exists|i: int|
            0 <= i < regions.len() && (#[trigger] regions[i]).kind == LayoutHintKind::Table
                && regions[i].holds(lines[x as int]),
    decreases regions.len(),
{
    if regions.len() > 0 {
        let rest = regions.drop_last();
        let n = regions.len() - 1;
        let region = regions[n];
        let before = hinted_tables(rest, lines, graphics, page_width, page_height, excluded);
        if before.consumed.contains(x) {
            consumed_lines_lie_in_table_regions(
                rest,
                lines,
                graphics,
                page_width,
                page_height,
                excluded,
                x,
            );
            let i = choose|i: int|
                0 <= i < rest.len() && (#[trigger] rest[i]).kind == LayoutHintKind::Table
                    && rest[i].holds(lines[x as int]);
            assert(regions[i] == rest[i]);
        } else {
            let indices = region.lines_inside(lines, excluded);
            let runs = tables_among(picked_lines(lines, indices), graphics, page_width, page_height);
            assert(region.kind == LayoutHintKind::Table);
            useful_runs_are_added(before, lines, indices, runs);
            lemma_tables_among(picked_lines(lines, indices), graphics, page_width, page_height);
            let k = choose|k: int|
                0 <= k < runs.len() && is_useful((#[trigger] runs[k]).block) && is_added(
                    with_runs(before, lines, indices, runs),
                    lines,
                    indices,
                    runs[k],
                ) && indices.subrange(runs[k].start, runs[k].end).contains(x);
            let taken = indices.subrange(runs[k].start, runs[k].end);
            let m = choose|m: int| 0 <= m < taken.len() && taken[m] == x;
            assert(indices[runs[k].start + m] == x);
            let inside = |k: int| !excluded.contains(k as usize) && region.holds(lines[k]);
            super::components::lemma_indices_hold(lines.len(), inside);
            assert(inside(indices[runs[k].start + m] as int));
            assert(regions[n].holds(lines[x as int]));
        }
    }
}

/// The lines of a region are exactly those that belong to it and are not excluded, in their order.
pub proof fn regions_take_their_lines(
    region: LayoutHintRegion,
    lines: Seq<crate::types::Line>,
    excluded: Set<usize>,
    k: int,
)
    requires
        0 <= k < lines.len() <= usize::MAX,
    ensures
        region.lines_inside(lines, excluded).contains(k as usize) <==> region.holds(lines[k])
            && !excluded.contains(k as usize),
        forall|i: int, j: int|
            0 <= i < j < region.lines_inside(lines, excluded).len() ==> (
            #[trigger] region.lines_inside(lines, excluded)[i]) < (#[trigger] region.lines_inside(
                lines,
                excluded,
            )[j]),
{
    let inside = |k: int| !excluded.contains(k as usize) && region.holds(lines[k]);
    let out = region.lines_inside(lines, excluded);
    super::components::indices_are_those_where(lines.len(), inside);
    assert(inside(k) ==> out.contains(k as usize));
    if out.contains(k as usize) {
        let i = choose|i: int| 0 <= i < out.len() && out[i] == k as usize;
        assert(inside(out[i] as int));
    }
}

/// A region of a table that holds two lines or more, from two page regions or more, adds the tables
/// among its lines; every other region adds nothing.
pub proof fn table_regions_add_their_tables(
    regions: Seq<LayoutHintRegion>,
    region: LayoutHintRegion,
    lines: Seq<crate::types::Line>,
    graphics: Seq<GraphicPrimitive>,
    page_width: F32,
    page_height: F32,
    excluded: Set<usize>,
)
    ensures
        ({
            let e = hinted_tables(regions, lines, graphics, page_width, page_height, excluded);
            let indices = region.lines_inside(lines, excluded);
            let chosen = region.kind == LayoutHintKind::Table && indices.len() >= 2 && exists|
                i: int,
                j: int,
            |
                0 <= i < indices.len() && 0 <= j < indices.len()
                    && lines[#[trigger] indices[i] as int].region_path
                    != lines[#[trigger] indices[j] as int].region_path;
            hinted_tables(
                regions.push(region),
                lines,
                graphics,
                page_width,
                page_height,
                excluded,
            ) == if chosen {
                with_runs(
                    e,
                    lines,
                    indices,
                    tables_among(picked_lines(lines, indices), graphics, page_width, page_height),
                )
            } else {
                e
            }
        }),
{
    let indices = region.lines_inside(lines, excluded);
    assert(regions.push(region).drop_last() =~= regions);
    if exists|i: int, j: int|
        0 <= i < indices.len() && 0 <= j < indices.len()
            && lines[#[trigger] indices[i] as int].region_path
            != lines[#[trigger] indices[j] as int].region_path {
        let (i, j) = choose|i: int, j: int|
            0 <= i < indices.len() && 0 <= j < indices.len()
                && lines[#[trigger] indices[i] as int].region_path
                != lines[#[trigger] indices[j] as int].region_path;
        assert(lines[indices[i] as int].region_path != lines[indices[0] as int].region_path
            || lines[indices[j] as int].region_path != lines[indices[0] as int].region_path);
        assert(spans_regions(lines, indices));
    }
    if spans_regions(lines, indices) {
        let i = choose|i: int|
            0 <= i < indices.len() && lines[#[trigger] indices[i] as int].region_path
                != lines[indices[0] as int].region_path;
        assert(lines[indices[i] as int].region_path != lines[indices[0] as int].region_path);
    }
}

} // verus!
