//! What a parsed page holds.
use crate::float::F32;
use vstd::prelude::*;

verus! {

/// A rectangle in page coordinates, with the origin at the top left.
#[derive(Clone, Copy, Debug, PartialEq, Eq, Structural)]
pub struct Rect {
    pub x: F32,
    pub y: F32,
    pub width: F32,
    pub height: F32,
}

impl Rect {
    /// The right edge.
    pub open spec fn right(self) -> F32 {
        self.x.plus(self.width)
    }

    /// The bottom edge.
    pub open spec fn bottom(self) -> F32 {
        self.y.plus(self.height)
    }

    /// The area.
    pub open spec fn area(self) -> F32 {
        self.width.times(self.height)
    }

    /// The area shared with another rectangle.
    pub open spec fn overlap_area(self, other: Rect) -> F32 {
        let zero = F32 { bits: 0 };
        let dx = self.right().lesser(other.right()).minus(self.x.greater(other.x));
        let dy = self.bottom().lesser(other.bottom()).minus(self.y.greater(other.y));
        dx.greater(zero).times(dy.greater(zero))
    }

    /// Whether a point lies in the rectangle or on its edge.
    pub open spec fn has_point(self, x: F32, y: F32) -> bool {
        self.x.at_most(x) && x.at_most(self.right()) && self.y.at_most(y) && y.at_most(
            self.bottom(),
        )
    }

    /// The area shared with another rectangle.
    pub fn intersection_area(self, other: Rect) -> (r: F32)
        ensures
            r == self.overlap_area(other),
    {
        let zero: F32 = F32::from_bits(0);
        let overlap_x: F32 = self.x.add(self.width).min(other.x.add(other.width)).sub(
            self.x.max(other.x),
        );
        let overlap_y: F32 = self.y.add(self.height).min(other.y.add(other.height)).sub(
            self.y.max(other.y),
        );
        overlap_x.max(zero).mul(overlap_y.max(zero))
    }

    /// Whether a point lies in the rectangle or on its edge.
    pub fn contains_point(self, x: F32, y: F32) -> (r: bool)
        ensures
            r == self.has_point(x, y),
    {
        x.ge(self.x) && x.le(self.x.add(self.width)) && y.ge(self.y) && y.le(
            self.y.add(self.height),
        )
    }
}

/// A span of text at its place on the page.
#[derive(Debug)]
pub struct TextItem {
    pub text: String,
    pub x: F32,
    pub y: F32,
    pub width: F32,
    pub height: F32,
    pub font_name: Option<String>,
    pub font_size: Option<F32>,
    /// How sure the text recognition was, where the text was recognised.
    pub confidence: Option<F32>,
    /// Whether the span is set in a bold font.
    pub bold: bool,
    /// The layout block that the span belongs to.
    pub layout_block_id: Option<usize>,
    /// The label of that layout block.
    pub layout_label: Option<String>,
}

impl TextItem {
    /// The place of the span.
    pub open spec fn area_rect(self) -> Rect {
        Rect { x: self.x, y: self.y, width: self.width, height: self.height }
    }

    /// The place of the span.
    pub fn rect(&self) -> (r: Rect)
        ensures
            r == self.area_rect(),
    {
        Rect { x: self.x, y: self.y, width: self.width, height: self.height }
    }
}

impl Clone for TextItem {
    fn clone(&self) -> (r: Self)
        ensures
            r == *self,
    {
        TextItem {
            text: self.text.clone(),
            x: self.x,
            y: self.y,
            width: self.width,
            height: self.height,
            font_name: clone_text(&self.font_name),
            font_size: self.font_size,
            confidence: self.confidence,
            bold: self.bold,
            layout_block_id: self.layout_block_id,
            layout_label: clone_text(&self.layout_label),
        }
    }
}

impl Default for TextItem {
    fn default() -> (r: Self)
        ensures
            r.text@ == Seq::<char>::empty(),
            r.area_rect() == (Rect {
                x: F32 { bits: 0 },
                y: F32 { bits: 0 },
                width: F32 { bits: 0 },
                height: F32 { bits: 0 },
            }),
            r.font_name is None,
            r.font_size is None,
            r.confidence is None,
            !r.bold,
            r.layout_block_id is None,
            r.layout_label is None,
    {
        let zero: F32 = F32::from_bits(0);
        TextItem {
            text: String::new(),
            x: zero,
            y: zero,
            width: zero,
            height: zero,
            font_name: None,
            font_size: None,
            confidence: None,
            bold: false,
            layout_block_id: None,
            layout_label: None,
        }
    }
}

/// A copy of a text that may be absent.
pub fn clone_text(t: &Option<String>) -> (r: Option<String>)
    ensures
        r == *t,
{
    match t {
        Some(s) => Some(s.clone()),
        None => None,
    }
}

/// A region that layout detection found on a page.
#[derive(Debug)]
pub struct LayoutBlock {
    pub id: usize,
    pub label: String,
    pub confidence: F32,
    pub x: F32,
    pub y: F32,
    pub width: F32,
    pub height: F32,
}

impl LayoutBlock {
    /// The place of the block.
    pub open spec fn area_rect(self) -> Rect {
        Rect { x: self.x, y: self.y, width: self.width, height: self.height }
    }

    /// The place of the block.
    pub fn rect(&self) -> (r: Rect)
        ensures
            r == self.area_rect(),
    {
        Rect { x: self.x, y: self.y, width: self.width, height: self.height }
    }
}

impl Clone for LayoutBlock {
    fn clone(&self) -> (r: Self)
        ensures
            r == *self,
    {
        LayoutBlock {
            id: self.id,
            label: self.label.clone(),
            confidence: self.confidence,
            x: self.x,
            y: self.y,
            width: self.width,
            height: self.height,
        }
    }
}

/// A line of text as it stands on the page, with the spans that make it up.
#[derive(Debug)]
pub struct ProjectedLine {
    pub text: String,
    pub bbox: Rect,
    /// The font size of most of the line.
    pub dominant_font_size: F32,
    pub all_bold: bool,
    pub spans: Vec<TextItem>,
    /// The path to the page region that the line was found in.
    pub region_path: Vec<u16>,
}

/// What the layout of a line depends on.
#[verifier::ext_equal]
pub struct Line {
    pub text: Seq<char>,
    pub bbox: Rect,
    pub dominant_font_size: F32,
    pub all_bold: bool,
    pub spans: Seq<TextItem>,
    pub region_path: Seq<u16>,
}

impl View for ProjectedLine {
    type V = Line;

    open spec fn view(&self) -> Line {
        Line {
            text: self.text@,
            bbox: self.bbox,
            dominant_font_size: self.dominant_font_size,
            all_bold: self.all_bold,
            spans: self.spans@,
            region_path: self.region_path@,
        }
    }
}

/// The lines of a page.
pub open spec fn lines_of(lines: Seq<ProjectedLine>) -> Seq<Line> {
    Seq::new(lines.len(), |i: int| lines[i]@)
}

impl Clone for ProjectedLine {
    fn clone(&self) -> (r: Self)
        ensures
            r@ == self@,
    {
        let spans: Vec<TextItem> = self.spans.clone();
        let region_path: Vec<u16> = self.region_path.clone();
        assert(spans@ =~= self.spans@);
        assert(region_path@ =~= self.region_path@);
        ProjectedLine {
            text: self.text.clone(),
            bbox: self.bbox,
            dominant_font_size: self.dominant_font_size,
            all_bold: self.all_bold,
            spans,
            region_path,
        }
    }
}

/// A vector graphic on a page.
#[derive(Clone, Copy, Debug)]
pub enum GraphicPrimitive {
    /// A straight stroke.
    Stroke { x1: F32, y1: F32, x2: F32, y2: F32 },
    /// A rectangle, with or without a stroked border.
    Rect { bbox: Rect, stroked: bool },
}

/// An entry of the document outline.
#[derive(Debug)]
pub struct OutlineTarget {
    pub title: String,
    /// The page that the entry points to, counted from zero.
    pub page_index: i32,
    /// The height on that page that the entry points to.
    pub y: Option<F32>,
}

impl Clone for OutlineTarget {
    fn clone(&self) -> (r: Self)
        ensures
            r == *self,
    {
        OutlineTarget { title: self.title.clone(), page_index: self.page_index, y: self.y }
    }
}

/// A raster image of a document.
#[derive(Debug)]
pub struct ExtractedImage {
    pub id: String,
    pub bytes: Vec<u8>,
}

/// A page with its text laid out.
#[derive(Debug)]
pub struct ParsedPage {
    /// The page number, counted from one.
    pub page_number: usize,
    pub page_width: F32,
    pub page_height: F32,
    pub text: String,
    pub text_items: Vec<TextItem>,
    pub layout_blocks: Vec<LayoutBlock>,
    pub projected_lines: Vec<ProjectedLine>,
    pub graphics: Vec<GraphicPrimitive>,
}

/// The smaller of two integers.
pub open spec fn least(a: int, b: int) -> int {
    if a <= b {
        a
    } else {
        b
    }
}

/// The greater of two integers.
pub open spec fn most(a: int, b: int) -> int {
    if a <= b {
        b
    } else {
        a
    }
}

/// A rectangle whose edges lie on whole points of a page.
pub struct Frame {
    pub left: int,
    pub top: int,
    pub right: int,
    pub bottom: int,
}

impl Frame {
    /// Whether the frame lies on a page of a usual size.
    pub open spec fn is_on_page(self) -> bool {
        0 <= self.left <= self.right < 2048 && 0 <= self.top <= self.bottom < 2048
    }

    /// The area.
    pub open spec fn size(self) -> int {
        (self.right - self.left) * (self.bottom - self.top)
    }

    /// The area shared with another frame.
    pub open spec fn shared(self, other: Frame) -> int {
        most(0, least(self.right, other.right) - most(self.left, other.left)) * most(
            0,
            least(self.bottom, other.bottom) - most(self.top, other.top),
        )
    }

    /// Whether the centre of another frame lies in this one or on its edge.
    pub open spec fn holds_centre_of(self, other: Frame) -> bool {
        2 * self.left <= other.left + other.right <= 2 * self.right && 2 * self.top <= other.top
            + other.bottom <= 2 * self.bottom
    }
}

impl Rect {
    /// Whether the rectangle is this frame, exactly.
    pub open spec fn is_framed(self, g: Frame) -> bool {
        &&& g.is_on_page()
        &&& self.x.is_whole(g.left)
        &&& self.y.is_whole(g.top)
        &&& self.width.is_whole(g.right - g.left)
        &&& self.height.is_whole(g.bottom - g.top)
    }
}

/// The edges of a rectangle on whole points are its frame's.
pub proof fn framed_edges(r: Rect, g: Frame)
    requires
        r.is_framed(g),
    ensures
        r.right().is_whole(g.right),
        r.bottom().is_whole(g.bottom),
        0 <= g.size() < 0x40_0000,
        r.area().is_whole(g.size()),
{
    crate::float::exact::whole_sum(r.x, r.width, g.left, g.right - g.left);
    crate::float::exact::whole_sum(r.y, r.height, g.top, g.bottom - g.top);
    let (w, h) = (g.right - g.left, g.bottom - g.top);
    assert(0 <= w * h < 0x40_0000) by (nonlinear_arith)
        requires 0 <= w < 2048, 0 <= h < 2048;
    crate::float::exact::whole_product(r.width, r.height, w, h);
}

/// Rectangles on whole points share the area that their frames share.
pub proof fn framed_overlaps(a: Rect, b: Rect, g: Frame, h: Frame)
    requires
        a.is_framed(g),
        b.is_framed(h),
    ensures
        a.overlap_area(b).is_whole(g.shared(h)),
        0 <= g.shared(h) <= g.size(),
        g.shared(h) <= h.size(),
{
    framed_edges(a, g);
    framed_edges(b, h);
    let zero = F32 { bits: 0 };
    crate::float::exact::zero_is_whole();
    crate::float::exact::measured_extremes(a.right(), b.right(), 256 * g.right, 256 * h.right);
    crate::float::exact::measured_extremes(a.bottom(), b.bottom(), 256 * g.bottom, 256 * h.bottom);
    crate::float::exact::measured_extremes(a.x, b.x, 256 * g.left, 256 * h.left);
    crate::float::exact::measured_extremes(a.y, b.y, 256 * g.top, 256 * h.top);
    let (r, l) = (least(g.right, h.right), most(g.left, h.left));
    let (d, u) = (least(g.bottom, h.bottom), most(g.top, h.top));
    crate::float::exact::whole_difference(
        a.right().lesser(b.right()),
        a.x.greater(b.x),
        r,
        l,
    );
    crate::float::exact::whole_difference(
        a.bottom().lesser(b.bottom()),
        a.y.greater(b.y),
        d,
        u,
    );
    let dx = a.right().lesser(b.right()).minus(a.x.greater(b.x));
    let dy = a.bottom().lesser(b.bottom()).minus(a.y.greater(b.y));
    crate::float::exact::measured_extremes(dx, zero, 256 * (r - l), 0);
    crate::float::exact::measured_extremes(dy, zero, 256 * (d - u), 0);
    let (p, q) = (most(0, r - l), most(0, d - u));
    let (w, v) = (g.right - g.left, g.bottom - g.top);
    let (y, z) = (h.right - h.left, h.bottom - h.top);
    assert(0 <= p * q <= w * v && p * q <= y * z) by (nonlinear_arith)
        requires 0 <= p <= w, 0 <= q <= v, p <= y, q <= z;
    crate::float::exact::whole_product(dx.greater(zero), dy.greater(zero), p, q);
}

/// A rectangle on whole points holds the centre of another one, as halved sums of its edges, if
/// and only if its frame does.
pub proof fn framed_centres(a: Rect, b: Rect, g: Frame, h: Frame)
    requires
        a.is_framed(g),
        b.is_framed(h),
    ensures
        b.has_point(
            a.x.plus(a.width.times(F32::ratio(1, 2))),
            a.y.plus(a.height.times(F32::ratio(1, 2))),
        ) <==> h.holds_centre_of(g),
        b.has_point(
            a.x.plus(a.width.over(F32::from_nat(2))),
            a.y.plus(a.height.over(F32::from_nat(2))),
        ) <==> h.holds_centre_of(g),
{
    framed_edges(b, h);
    let (w, v) = (g.right - g.left, g.bottom - g.top);
    crate::float::exact::measured_half(a.width, 128 * w);
    crate::float::exact::measured_half(a.height, 128 * v);
    let half = F32::ratio(1, 2);
    let two = F32::from_nat(2);
    lemma_centre_between(a.x, a.width.times(half), b.x, b.right(), g.left, g.right, h.left, h.right);
    lemma_centre_between(a.x, a.width.over(two), b.x, b.right(), g.left, g.right, h.left, h.right);
    lemma_centre_between(
        a.y,
        a.height.times(half),
        b.y,
        b.bottom(),
        g.top,
        g.bottom,
        h.top,
        h.bottom,
    );
    lemma_centre_between(
        a.y,
        a.height.over(two),
        b.y,
        b.bottom(),
        g.top,
        g.bottom,
        h.top,
        h.bottom,
    );
}

proof fn lemma_centre_between(
    start: F32,
    half: F32,
    low: F32,
    high: F32,
    from: int,
    to: int,
    bottom: int,
    top: int,
)
    requires
        start.is_whole(from),
        half.measures(128 * (to - from)),
        low.is_whole(bottom),
        high.is_whole(top),
        0 <= from <= to < 2048,
    ensures
        start.plus(half).measures(128 * (from + to)),
        low.at_most(start.plus(half)) <==> 2 * bottom <= from + to,
        start.plus(half).at_most(high) <==> from + to <= 2 * top,
{
    crate::float::exact::measured_sum(start, half, 256 * from, 128 * (to - from));
    let centre = start.plus(half);
    crate::float::exact::measures_are_ordered(low, centre, 256 * bottom, 128 * (from + to));
    crate::float::exact::measures_are_ordered(centre, high, 128 * (from + to), 256 * top);
}

} // verus!
