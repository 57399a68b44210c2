//! The cells of a row of text.
use crate::float::F32;
use crate::sorting::{sort, Key, Keyed, KeyedValue};
use crate::text::{blank, chars_of, collapse_whitespace, trim};
use crate::types::{ProjectedLine, TextItem};
use vstd::prelude::*;
use vstd::string::*;

verus! {

/// One cell within a tabular row: contributing spans aggregated to text and
/// its leftmost x position, used to align cells across rows into column
/// "tracks".
#[derive(Debug)]
pub struct TableCell {
    pub start_x: F32,
    /// Right edge of the cell (x of the last span's right).
    pub end_x: F32,
    pub text: String,
    pub bold: bool,
}

/// What a cell holds.
#[verifier::ext_equal]
pub struct Cell {
    pub start_x: F32,
    pub end_x: F32,
    pub text: Seq<char>,
    pub bold: bool,
}

impl View for TableCell {
    type V = Cell;

    open spec fn view(&self) -> Cell {
        Cell { start_x: self.start_x, end_x: self.end_x, text: self.text@, bold: self.bold }
    }
}

impl Clone for TableCell {
    fn clone(&self) -> (r: Self)
        ensures
            r == *self,
    {
        TableCell {
            start_x: self.start_x,
            end_x: self.end_x,
            text: self.text.clone(),
            bold: self.bold,
        }
    }
}

/// What the cells hold.
pub open spec fn cells_of(cells: Seq<TableCell>) -> Seq<Cell> {
    Seq::new(cells.len(), |i: int| cells[i]@)
}

/// On a line, spans are ordered from left to right.
impl Keyed for TextItem {
    open spec fn key(self) -> Key {
        Key { first: self.x.rank() as i64, second: 0, third: 0 }
    }
}

impl KeyedValue for TextItem {
    fn key_of(&self) -> (k: Key) {
        Key { first: self.x.total_rank(), second: 0, third: 0 }
    }
}

/// A cell that may still grow: its place, its raw text and how many of its characters are bold.
#[verifier::ext_equal]
pub struct OpenCell {
    pub start_x: F32,
    pub end_x: F32,
    pub text: Seq<char>,
    pub bold: nat,
    pub total: nat,
}

/// The right edge of a span.
pub open spec fn right_edge(span: TextItem) -> F32 {
    span.x.plus(span.width.greater(F32 { bits: 0 }))
}

/// How many bold characters a span has.
pub open spec fn bold_count(span: TextItem) -> nat {
    if span.bold {
        span.text@.len()
    } else {
        0
    }
}

/// The cell that a span opens.
pub open spec fn opened(span: TextItem) -> OpenCell {
    OpenCell {
        start_x: span.x,
        end_x: right_edge(span),
        text: span.text@,
        bold: bold_count(span),
        total: span.text@.len(),
    }
}

/// The cell with a span joined to it, after a blank where there is none yet.
pub open spec fn extended(cell: OpenCell, span: TextItem) -> OpenCell {
    let head = if cell.text.len() == 0 || cell.text.last() == ' ' {
        cell.text
    } else {
        cell.text.push(' ')
    };
    OpenCell {
        start_x: cell.start_x,
        end_x: right_edge(span),
        text: head + span.text@,
        bold: cell.bold + bold_count(span),
        total: cell.total + span.text@.len(),
    }
}

/// The cells that the spans make up: a span that follows a gap wider than the threshold opens
/// a cell, every other span joins the cell before it.
pub open spec fn open_cells(spans: Seq<TextItem>, threshold: F32) -> Seq<OpenCell>
    decreases spans.len(),
{
    if spans.len() == 0 {
        Seq::empty()
    } else {
        let before = open_cells(spans.drop_last(), threshold);
        let span = spans.last();
        if before.len() == 0 || threshold.less(span.x.minus(before.last().end_x)) {
            before.push(opened(span))
        } else {
            before.drop_last().push(extended(before.last(), span))
        }
    }
}

/// The cell in its final form: tidied text, and bold if most characters are.
pub open spec fn finished(cell: OpenCell) -> Cell {
    Cell {
        start_x: cell.start_x,
        end_x: cell.end_x,
        text: crate::text::collapsed(crate::text::trimmed(cell.text)),
        bold: cell.total > 0 && cell.bold * 2 > cell.total,
    }
}

/// The spans of a line that show something, from left to right.
pub open spec fn text_spans(spans: Seq<TextItem>) -> Seq<TextItem> {
    crate::sorting::sorted(spans.filter(|s: TextItem| !crate::text::is_blank(s.text@)))
}

/// The widest gap between two spans of one cell.
pub open spec fn cell_gap(line: crate::types::Line) -> F32 {
    let size = if (F32 { bits: 0 }).less(line.dominant_font_size) {
        line.dominant_font_size
    } else {
        line.bbox.height.greater(F32::from_nat(1))
    };
    size.times(F32::from_nat(1))
}

/// The cells of a line.
pub open spec fn cells_in(line: crate::types::Line) -> Seq<Cell> {
    open_cells(text_spans(line.spans), cell_gap(line)).map_values(|c: OpenCell| finished(c))
}

/// The spans that show something, from left to right.
fn collect_text_spans(spans: &Vec<TextItem>) -> (r: Vec<TextItem>)
    ensures
        r@ == text_spans(spans@),
{
    let ghost shown = |s: TextItem| !crate::text::is_blank(s.text@);
    let mut kept: Vec<TextItem> = Vec::new();
    let mut i: usize = 0;
    while i < spans.len()
        invariant
            i <= spans@.len(),
            shown == (|s: TextItem| !crate::text::is_blank(s.text@)),
            kept@ == spans@.take(i as int).filter(shown),
        decreases spans@.len() - i,
    {
        reveal(Seq::filter);
        assert(spans@.take(i + 1).drop_last() =~= spans@.take(i as int));
        if !blank(spans[i].text.as_str()) {
            kept.push(spans[i].clone());
        }
        i = i + 1;
    }
    assert(spans@.take(i as int) =~= spans@);
    sort(kept)
}

proof fn lemma_text_spans_show(spans: Seq<TextItem>)
    ensures
        forall|i: int|
            0 <= i < text_spans(spans).len() ==> !crate::text::is_blank(
                (#[trigger] text_spans(spans)[i]).text@,
            ),
{
    broadcast use {vstd::seq_lib::group_to_multiset_ensures, vstd::seq_lib::group_filter_ensures};

    let shown = |s: TextItem| !crate::text::is_blank(s.text@);
    let kept = spans.filter(shown);
    crate::sorting::sorting_permutes_into_order(kept);
    let r = text_spans(spans);
    assert forall|i: int| 0 <= i < r.len() implies !crate::text::is_blank((#[trigger] r[i]).text@) by {
        assert(r.contains(r[i]));
        assert(kept.to_multiset().count(r[i]) > 0);
        assert(kept.contains(r[i]));
        let j = choose|j: int| 0 <= j < kept.len() && kept[j] == r[i];
        assert(shown(kept[j]));
    }
}

/// Splits a line's spans into cells. A gap larger than the font size between adjacent spans
/// starts a new cell; otherwise spans join into the same cell with a single space.
pub fn split_cells(line: &ProjectedLine) -> (r: Vec<TableCell>)
    ensures
        cells_of(r@) == cells_in(line@),
{
    let spans: Vec<TextItem> = collect_text_spans(&line.spans);
    proof {
        lemma_text_spans_show(line.spans@);
    }
    let mut cells: Vec<TableCell> = Vec::new();
    if spans.len() == 0 {
        assert(cells_of(cells@) =~= cells_in(line@));
        return cells;
    }
    let zero: F32 = F32::from_bits(0);
    let one: F32 = F32::from_u32(1);
    let font_size: F32 = if line.dominant_font_size.gt(zero) {
        line.dominant_font_size
    } else {
        line.bbox.height.max(one)
    };
    let gap_threshold: F32 = font_size.mul(one);
    let ghost finish = |c: OpenCell| finished(c);
    let ghost mut closed: Seq<OpenCell> = Seq::empty();
    let mut text: String = String::new();
    let mut ends_blank: bool = false;
    let mut start_x: F32 = spans[0].x;
    let mut end_x: F32 = spans[0].x;
    let mut bold_chars: u128 = 0;
    let mut total_chars: u128 = 0;
    let mut i: usize = 0;
    while i < spans.len()
        invariant
            i <= spans@.len(),
            spans@.len() > 0,
            forall|j: int|
                0 <= j < spans@.len() ==> !crate::text::is_blank((#[trigger] spans@[j]).text@),
            gap_threshold == cell_gap(line@),
            zero == (F32 { bits: 0 }),
            finish == (|c: OpenCell| finished(c)),
            cells_of(cells@) == closed.map_values(finish),
            bold_chars <= total_chars <= i * usize::MAX,
            i == 0 ==> {
                &&& closed.len() == 0
                &&& text@ == Seq::<char>::empty()
                &&& start_x == spans@[0].x
                &&& total_chars == 0
            },
            i > 0 ==> {
                &&& text@.len() > 0
                &&& ends_blank == (text@.last() == ' ')
                &&& open_cells(spans@.take(i as int), gap_threshold) == closed.push(
                    OpenCell {
                        start_x,
                        end_x,
                        text: text@,
                        bold: bold_chars as nat,
                        total: total_chars as nat,
                    },
                )
            },
        decreases spans@.len() - i,
    {
        let span: &TextItem = &spans[i];
        let ghost before = open_cells(spans@.take(i as int), gap_threshold);
        assert(spans@.take(i + 1).drop_last() =~= spans@.take(i as int));
        if i > 0 {
            assert(before.drop_last() =~= closed);
        }
        assert(!crate::text::is_blank(spans@[i as int].text@));
        let chars: Vec<char> = chars_of(span.text.as_str());
        let n: usize = chars.len();
        assert(n > 0);
        assert(total_chars + n <= (i + 1) * usize::MAX) by (nonlinear_arith)
            requires
                total_chars <= i * usize::MAX,
                n <= usize::MAX,
        ;
        assert((i + 1) * usize::MAX <= usize::MAX * usize::MAX) by (nonlinear_arith)
            requires
                i + 1 <= usize::MAX,
        ;
        assert(usize::MAX * usize::MAX <= u128::MAX) by (nonlinear_arith)
            requires
                usize::MAX <= 0xffff_ffff_ffff_ffff,
        ;
        if i > 0 && span.x.sub(end_x).gt(gap_threshold) {
            let bold: bool = total_chars > 0 && bold_chars > total_chars - bold_chars;
            let ghost current = OpenCell {
                start_x,
                end_x,
                text: text@,
                bold: bold_chars as nat,
                total: total_chars as nat,
            };
            let tidy: String = trim(text.as_str());
            let cell: TableCell = TableCell {
                start_x,
                end_x,
                text: collapse_whitespace(tidy.as_str()),
                bold,
            };
            assert(cell@ == finished(current));
            let ghost cells_before = cells@;
            cells.push(cell);
            assert(cells_of(cells@) =~= cells_of(cells_before).push(cell@));
            assert(closed.push(current).map_values(finish) =~= closed.map_values(finish).push(
                finish(current),
            ));
            proof {
                closed = closed.push(current);
            }
            text = String::new();
            start_x = span.x;
            bold_chars = 0;
            total_chars = 0;
        } else if i > 0 && !ends_blank {
            text.push(' ');
        }
        text.append(span.text.as_str());
        ends_blank = chars[n - 1] == ' ';
        total_chars = total_chars + n as u128;
        if span.bold {
            bold_chars = bold_chars + n as u128;
        }
        end_x = span.x.add(span.width.max(zero));
        proof {
            let after = OpenCell {
                start_x,
                end_x,
                text: text@,
                bold: bold_chars as nat,
                total: total_chars as nat,
            };
            assert(text@.last() == chars@.last());
            assert(Seq::<char>::empty() + span.text@ =~= span.text@);
            let all = open_cells(spans@.take(i + 1), gap_threshold);
            assert(all =~= closed.push(after));
        }
        i = i + 1;
    }
    assert(spans@.take(i as int) =~= spans@);
    let bold: bool = total_chars > 0 && bold_chars > total_chars - bold_chars;
    let ghost current = OpenCell {
        start_x,
        end_x,
        text: text@,
        bold: bold_chars as nat,
        total: total_chars as nat,
    };
    let tidy: String = trim(text.as_str());
    let cell: TableCell = TableCell {
        start_x,
        end_x,
        text: collapse_whitespace(tidy.as_str()),
        bold,
    };
    assert(cell@ == finished(current));
    let ghost cells_before = cells@;
    cells.push(cell);
    assert(cells_of(cells@) =~= cells_of(cells_before).push(cell@));
    assert(closed.push(current).map_values(finish) =~= closed.map_values(finish).push(
        finish(current),
    ));
    cells
}

proof fn lemma_nonblank_tail(head: Seq<char>, tail: Seq<char>)
    requires
        !crate::text::is_blank(tail),
    ensures
        !crate::text::is_blank(head + tail),
{
    let i = choose|i: int| 0 <= i < tail.len() && !crate::text::is_space(#[trigger] tail[i]);
    assert((head + tail)[head.len() + i] == tail[i]);
}

proof fn lemma_collapsed_not_empty(s: Seq<char>)
    requires
        s.len() > 0,
    ensures
        crate::text::collapsed(s).len() > 0,
    decreases s.len(),
{
    if s.len() > 1 {
        lemma_collapsed_not_empty(s.drop_last());
    }
}

proof fn lemma_open_cells_show(spans: Seq<TextItem>, threshold: F32)
    requires
        forall|i: int|
            0 <= i < spans.len() ==> !crate::text::is_blank((#[trigger] spans[i]).text@),
    ensures
        spans.len() > 0 ==> open_cells(spans, threshold).len() > 0,
        forall|i: int|
            0 <= i < open_cells(spans, threshold).len() ==> !crate::text::is_blank(
                (#[trigger] open_cells(spans, threshold)[i]).text,
            ),
    decreases spans.len(),
{
    if spans.len() > 0 {
        let d = spans.drop_last();
        lemma_open_cells_show(d, threshold);
        let before = open_cells(d, threshold);
        assert(!crate::text::is_blank(spans[spans.len() - 1].text@));
        if before.len() > 0 {
            let cell = before.last();
            lemma_nonblank_tail(cell.text, spans.last().text@);
            lemma_nonblank_tail(cell.text.push(' '), spans.last().text@);
        }
    }
}

/// A line has cells if and only if one of its spans shows something, and no cell is empty.
pub proof fn cells_have_text(line: crate::types::Line)
    ensures
        forall|i: int| 0 <= i < cells_in(line).len() ==> (#[trigger] cells_in(line)[i]).text.len() > 0,
        cells_in(line).len() > 0 <==> exists|i: int|
            0 <= i < line.spans.len() && !crate::text::is_blank((#[trigger] line.spans[i]).text@),
{
    broadcast use {vstd::seq_lib::group_to_multiset_ensures, vstd::seq_lib::group_filter_ensures};

    let spans = text_spans(line.spans);
    let gap = cell_gap(line);
    lemma_text_spans_show(line.spans);
    lemma_open_cells_show(spans, gap);
    let open = open_cells(spans, gap);
    assert forall|i: int| 0 <= i < cells_in(line).len() implies (#[trigger] cells_in(
        line,
    )[i]).text.len() > 0 by {
        crate::text::trimming_empties_blank_texts(open[i].text);
        lemma_collapsed_not_empty(crate::text::trimmed(open[i].text));
    }
    let shown = |s: TextItem| !crate::text::is_blank(s.text@);
    let kept = line.spans.filter(shown);
    crate::sorting::sorting_permutes_into_order(kept);
    if kept.len() > 0 {
        assert(shown(kept[0]));
        assert(kept.contains(kept[0]));
        line.spans.lemma_filter_contains_rev(shown, kept[0]);
    }
    if exists|i: int| 0 <= i < line.spans.len() && !crate::text::is_blank((#[trigger] line.spans[i]).text@) {
        let i = choose|i: int| 0 <= i < line.spans.len() && !crate::text::is_blank((#[trigger] line.spans[i]).text@);
        assert(shown(line.spans[i]));
        assert(kept.contains(line.spans[i]));
    }
}

/// The texts of cells.
pub open spec fn cell_texts(cells: Seq<Cell>) -> Seq<Seq<char>> {
    Seq::new(cells.len(), |i: int| cells[i].text)
}

/// The texts of cells that may still grow.
spec fn open_texts(cells: Seq<OpenCell>) -> Seq<Seq<char>> {
    Seq::new(cells.len(), |i: int| cells[i].text)
}

/// The texts of spans.
pub open spec fn span_texts(spans: Seq<TextItem>) -> Seq<Seq<char>> {
    Seq::new(spans.len(), |i: int| spans[i].text@)
}

proof fn lemma_shown_ink(spans: Seq<TextItem>)
    ensures
        crate::text::all_ink(
            span_texts(spans.filter(|s: TextItem| !crate::text::is_blank(s.text@))),
        ) == crate::text::all_ink(span_texts(spans)),
    decreases spans.len(),
{
    reveal(Seq::filter);
    let shown = |s: TextItem| !crate::text::is_blank(s.text@);
    if spans.len() > 0 {
        let (d, span) = (spans.drop_last(), spans.last());
        lemma_shown_ink(d);
        let kept = d.filter(shown);
        assert(span_texts(spans).drop_last() =~= span_texts(d));
        assert(span_texts(kept.push(span)).drop_last() =~= span_texts(kept));
        if !shown(span) {
            crate::text::blank_texts_have_no_ink(span.text@);
            let ink = crate::text::all_ink(span_texts(d));
            assert(ink + Seq::<char>::empty() =~= ink);
        }
    }
}

proof fn lemma_open_ink(spans: Seq<TextItem>, threshold: F32)
    ensures
        crate::text::all_ink(open_texts(open_cells(spans, threshold))) == crate::text::all_ink(
            span_texts(spans),
        ),
    decreases spans.len(),
{
    if spans.len() > 0 {
        let (d, span) = (spans.drop_last(), spans.last());
        lemma_open_ink(d, threshold);
        let before = open_cells(d, threshold);
        assert(span_texts(spans).drop_last() =~= span_texts(d));
        if before.len() == 0 || threshold.less(span.x.minus(before.last().end_x)) {
            assert(open_texts(before.push(opened(span))).drop_last() =~= open_texts(before));
        } else {
            let last = before.last();
            let rest = before.drop_last();
            let grown = extended(last, span);
            assert(open_texts(before).drop_last() =~= open_texts(rest));
            assert(open_texts(rest.push(grown)).drop_last() =~= open_texts(rest));
            let blank = seq![' '];
            crate::text::blank_texts_have_no_ink(blank);
            crate::text::joining_joins_the_ink(last.text, blank);
            assert(last.text + blank =~= last.text.push(' '));
            let ink = crate::text::ink(last.text);
            assert(ink + Seq::<char>::empty() =~= ink);
            crate::text::joining_joins_the_ink(last.text, span.text@);
            crate::text::joining_joins_the_ink(last.text.push(' '), span.text@);
            let head = crate::text::all_ink(open_texts(rest));
            let tail = crate::text::ink(span.text@);
            assert(head + (ink + tail) =~= head + ink + tail);
        }
    } else {
        assert(open_texts(open_cells(spans, threshold)) =~= span_texts(spans));
    }
}

proof fn lemma_finished_ink(cells: Seq<OpenCell>)
    ensures
        crate::text::all_ink(cell_texts(cells.map_values(|c: OpenCell| finished(c))))
            == crate::text::all_ink(open_texts(cells)),
    decreases cells.len(),
{
    let finish = |c: OpenCell| finished(c);
    if cells.len() > 0 {
        let (d, cell) = (cells.drop_last(), cells.last());
        lemma_finished_ink(d);
        assert(open_texts(cells).drop_last() =~= open_texts(d));
        assert(cell_texts(cells.map_values(finish)).drop_last() =~= cell_texts(
            d.map_values(finish),
        ));
        crate::text::collapsing_keeps_the_ink(crate::text::trimmed(cell.text));
        crate::text::trimming_keeps_the_ink(cell.text);
    } else {
        assert(cell_texts(cells.map_values(finish)) =~= open_texts(cells));
    }
}

/// The cells of a line keep every character of its spans that is not white space, in the order of
/// the spans from left to right, and add none.
pub proof fn cells_keep_the_ink(line: crate::types::Line)
    ensures
        crate::text::all_ink(cell_texts(cells_in(line))) == crate::text::all_ink(
            span_texts(crate::sorting::sorted(line.spans)),
        ),
{
    let shown = |s: TextItem| !crate::text::is_blank(s.text@);
    let spans = text_spans(line.spans);
    crate::sorting::sorting_commutes_with_filtering(line.spans, shown);
    lemma_shown_ink(crate::sorting::sorted(line.spans));
    lemma_open_ink(spans, cell_gap(line));
    lemma_finished_ink(open_cells(spans, cell_gap(line)));
}

/// How many characters the texts of spans have.
pub open spec fn char_count(spans: Seq<TextItem>) -> nat
    decreases spans.len(),
{
    if spans.len() == 0 {
        0
    } else {
        char_count(spans.drop_last()) + spans.last().text@.len()
    }
}

/// The bold ones of the spans.
pub open spec fn bold_spans(spans: Seq<TextItem>) -> Seq<TextItem> {
    spans.filter(|s: TextItem| s.bold)
}

/// Whether a cell stands for spans: it starts where the first one does and ends where the last one
/// does, it shows what they show, and it is bold if more than half of their characters are. Where
/// their texts are tidy, it has a blank between two of them.
#[verifier::opaque]
pub open spec fn stands_for(cell: Cell, spans: Seq<TextItem>) -> bool {
    &&& spans.len() > 0
    &&& cell.start_x == spans[0].x
    &&& cell.end_x == spans.last().x.plus(spans.last().width.greater(F32 { bits: 0 }))
    &&& crate::text::ink(cell.text) == crate::text::all_ink(span_texts(spans))
    &&& cell.bold <==> 2 * char_count(bold_spans(spans)) > char_count(spans)
    &&& (forall|i: int| 0 <= i < spans.len() ==> crate::text::is_tidy((#[trigger] spans[i]).text@))
        ==> cell.text == crate::text::joined(span_texts(spans), seq![' '])
}

/// Whether a cell that may still grow stands for spans.
#[verifier::opaque]
spec fn is_open_for(cell: OpenCell, spans: Seq<TextItem>) -> bool {
    &&& spans.len() > 0
    &&& cell.start_x == spans[0].x
    &&& cell.end_x == right_edge(spans.last())
    &&& crate::text::ink(cell.text) == crate::text::all_ink(span_texts(spans))
    &&& cell.bold == char_count(bold_spans(spans))
    &&& cell.total == char_count(spans)
    &&& cell.bold <= cell.total
    &&& (forall|i: int| 0 <= i < spans.len() ==> crate::text::is_tidy((#[trigger] spans[i]).text@))
        ==> cell.text == crate::text::joined(span_texts(spans), seq![' ']) && crate::text::is_tidy(
        cell.text,
    )
}

proof fn lemma_opened_for(span: TextItem)
    ensures
        is_open_for(opened(span), seq![span]),
{
    reveal(is_open_for);
    reveal(Seq::filter);
    let one = seq![span];
    reveal_with_fuel(char_count, 2);
    assert(one.drop_last() =~= Seq::empty());
    assert(bold_spans(Seq::<TextItem>::empty()) =~= Seq::empty());
    assert(bold_spans(one) =~= if span.bold { one } else { Seq::empty() });
    assert(span_texts(one) =~= seq![span.text@]);
    assert(seq![span.text@].drop_last() =~= Seq::<Seq<char>>::empty());
    reveal_with_fuel(crate::text::all_ink, 2);
    assert(crate::text::all_ink(seq![span.text@]) =~= crate::text::ink(span.text@));
    if forall|i: int| 0 <= i < one.len() ==> crate::text::is_tidy((#[trigger] one[i]).text@) {
        assert(crate::text::is_tidy(one[0].text@));
    }
}

proof fn lemma_extended_ink(cell: OpenCell, span: TextItem)
    ensures
        crate::text::ink(extended(cell, span).text) == crate::text::ink(cell.text)
            + crate::text::ink(span.text@),
{
    let (text, blank) = (cell.text, seq![' ']);
    let head = if text.len() == 0 || text.last() == ' ' {
        text
    } else {
        text.push(' ')
    };
    crate::text::joining_joins_the_ink(head, span.text@);
    assert(text.push(' ') =~= text + blank);
    crate::text::joining_joins_the_ink(text, blank);
    crate::text::blank_texts_have_no_ink(blank);
    assert(crate::text::ink(text) + Seq::<char>::empty() =~= crate::text::ink(text));
}

proof fn lemma_extended_tidy(cell: OpenCell, span: TextItem)
    requires
        crate::text::is_tidy(cell.text),
        crate::text::is_tidy(span.text@),
    ensures
        extended(cell, span).text == cell.text + seq![' '] + span.text@,
        crate::text::is_tidy(extended(cell, span).text),
{
    crate::text::joining_keeps_tidy(cell.text, span.text@);
    assert(cell.text.last() != ' ');
    assert(cell.text.push(' ') + span.text@ =~= cell.text + seq![' '] + span.text@);
}

proof fn lemma_counts(spans: Seq<TextItem>, span: TextItem)
    ensures
        char_count(spans.push(span)) == char_count(spans) + span.text@.len(),
        char_count(bold_spans(spans.push(span))) == char_count(bold_spans(spans)) + bold_count(span),
{
    reveal(Seq::filter);
    let all = spans.push(span);
    assert(all.drop_last() =~= spans);
    let bold = bold_spans(spans);
    assert(bold.push(span).drop_last() =~= bold);
}

spec fn are_tidy(spans: Seq<TextItem>) -> bool {
    forall|i: int| 0 <= i < spans.len() ==> crate::text::is_tidy((#[trigger] spans[i]).text@)
}

proof fn lemma_extended_for(cell: OpenCell, spans: Seq<TextItem>, span: TextItem)
    requires
        is_open_for(cell, spans),
    ensures
        is_open_for(extended(cell, span), spans.push(span)),
{
    reveal(is_open_for);
    let all = spans.push(span);
    let (texts, more) = (span_texts(spans), span_texts(all));
    lemma_extended_ink(cell, span);
    lemma_counts(spans, span);
    assert(more =~= texts.push(span.text@));
    assert(more.drop_last() =~= texts);
    if are_tidy(all) {
        assert(are_tidy(spans)) by {
            assert forall|i: int| 0 <= i < spans.len() implies crate::text::is_tidy(
                (#[trigger] spans[i]).text@,
            ) by {
                assert(all[i] == spans[i]);
            }
        }
        assert(crate::text::is_tidy(all[spans.len() as int].text@));
        lemma_extended_tidy(cell, span);
    }
}

proof fn lemma_finished_for(cell: OpenCell, spans: Seq<TextItem>)
    requires
        is_open_for(cell, spans),
    ensures
        stands_for(finished(cell), spans),
{
    reveal(is_open_for);
    reveal(stands_for);
    crate::text::collapsing_keeps_the_ink(crate::text::trimmed(cell.text));
    crate::text::trimming_keeps_the_ink(cell.text);
    if crate::text::is_tidy(cell.text) {
        crate::text::tidy_texts_stay(cell.text);
    }
}

/// Whether the cuts part spans into cells: they ascend from the first span to the end.
pub open spec fn are_cuts(cuts: Seq<int>, cells: nat, spans: nat) -> bool {
    &&& cuts.len() == cells + 1
    &&& cuts[0] == 0
    &&& cuts.last() == spans
    &&& forall|j: int, k: int| 0 <= j < k < cuts.len() ==> (#[trigger] cuts[j]) < (#[trigger] cuts[k])
}

/// Whether a span is further from the one before it than a threshold.
pub open spec fn is_apart(spans: Seq<TextItem>, i: int, threshold: F32) -> bool {
    let before = spans[i - 1];
    threshold.less(
        spans[i].x.minus(before.x.plus(before.width.greater(F32 { bits: 0 }))),
    )
}

proof fn lemma_open_cuts(spans: Seq<TextItem>, threshold: F32) -> (cuts: Seq<int>)
    ensures
        are_cuts(cuts, open_cells(spans, threshold).len(), spans.len()),
        forall|j: int|
            0 <= j < open_cells(spans, threshold).len() ==> is_open_for(
                #[trigger] open_cells(spans, threshold)[j],
                spans.subrange(cuts[j], cuts[j + 1]),
            ),
        forall|i: int|
            0 < i < spans.len() ==> (cuts.contains(i) <==> #[trigger] is_apart(spans, i, threshold)),
        spans.len() > 0 ==> open_cells(spans, threshold).len() > 0 && open_cells(
            spans,
            threshold,
        ).last().end_x == right_edge(spans.last()),
    decreases spans.len(),
{
    if spans.len() == 0 {
        seq![0int]
    } else {
        let d = spans.drop_last();
        let n = spans.len() - 1;
        let span = spans[n];
        let (before, all) = (open_cells(d, threshold), open_cells(spans, threshold));
        let old = lemma_open_cuts(d, threshold);
        let m = before.len() as int;
        assert(old.len() == m + 1 && old[m] == n);
        let opens = m == 0 || threshold.less(span.x.minus(before.last().end_x));
        let now = if opens {
            old.push(n + 1)
        } else {
            old.drop_last().push(n + 1)
        };
        if n > 0 {
            assert(d.last() == spans[n - 1]);
            assert(opens <==> is_apart(spans, n, threshold));
        }
        if m == 0 && n > 0 {
            assert(false);
        }
        assert forall|j: int| 0 <= j < all.len() implies is_open_for(
            #[trigger] all[j],
            spans.subrange(now[j], now[j + 1]),
        ) by {
            if opens {
                if j < m {
                    assert(old[j] < old[j + 1] && (j + 1 < m ==> old[j + 1] < old[m]));
                    assert(spans.subrange(now[j], now[j + 1]) =~= d.subrange(old[j], old[j + 1]));
                    assert(is_open_for(before[j], d.subrange(old[j], old[j + 1])));
                } else {
                    lemma_opened_for(span);
                    assert(spans.subrange(n, n + 1) =~= seq![span]);
                }
            } else {
                assert(old[j] < old[j + 1] && (j + 1 < m ==> old[j + 1] < old[m]));
                assert(is_open_for(before[j], d.subrange(old[j], old[j + 1])));
                if j < m - 1 {
                    assert(spans.subrange(now[j], now[j + 1]) =~= d.subrange(old[j], old[j + 1]));
                } else {
                    lemma_extended_for(before[j], d.subrange(old[j], n), span);
                    assert(spans.subrange(now[j], n + 1) =~= d.subrange(old[j], n).push(span));
                }
            }
        }
        assert forall|j: int, k: int| 0 <= j < k < now.len() implies (#[trigger] now[j]) < (
        #[trigger] now[k]) by {
            if k < now.len() - 1 {
                assert(old[j] < old[k]);
            } else if j < m {
                assert(old[j] < old[m]);
            }
        }
        assert forall|i: int| 0 < i < spans.len() implies (now.contains(i) <==> #[trigger] is_apart(
            spans,
            i,
            threshold,
        )) by {
            if i < n {
                assert(is_apart(spans, i, threshold) == is_apart(d, i, threshold));
                assert(old.contains(i) <==> is_apart(d, i, threshold));
                if old.contains(i) {
                    let k = choose|k: int| 0 <= k < old.len() && old[k] == i;
                    assert(k != m);
                    assert(now[k] == i);
                }
                if now.contains(i) {
                    let k = choose|k: int| 0 <= k < now.len() && now[k] == i;
                    assert(old[k] == i);
                }
            } else {
                if opens {
                    assert(now[m] == n);
                }
                if now.contains(i) {
                    let k = choose|k: int| 0 <= k < now.len() && now[k] == i;
                    assert(old[k] == n);
                    if k < m {
                        assert(old[k] < old[m]);
                    }
                }
            }
        }
        now
    }
}

/// Whether the cells of a line stand for its spans: those that show something, from left to right,
/// are parted exactly where a span is further from the one before it than a threshold, and each
/// cell stands for the spans of its part.
pub open spec fn stand_for_spans(
    cells: Seq<Cell>,
    spans: Seq<TextItem>,
    threshold: F32,
    cuts: Seq<int>,
) -> bool {
    &&& are_cuts(cuts, cells.len(), spans.len())
    &&& forall|j: int|
        0 <= j < cells.len() ==> stands_for(
            #[trigger] cells[j],
            spans.subrange(cuts[j], cuts[j + 1]),
        )
    &&& forall|i: int|
        0 < i < spans.len() ==> (cuts.contains(i) <==> #[trigger] is_apart(spans, i, threshold))
}

/// The cells of a line stand for its spans, parted where the gap is wider than the font is high:
/// its dominant font size, or, where that is not known, the height of the line and at least a
/// point.
pub proof fn cells_stand_for_the_spans(line: crate::types::Line) -> (cuts: Seq<int>)
    ensures
        stand_for_spans(
            cells_in(line),
            crate::sorting::sorted(line.spans).filter(
                |s: TextItem| !crate::text::is_blank(s.text@),
            ),
            cell_gap(line),
            cuts,
        ),
{
    let shown = |s: TextItem| !crate::text::is_blank(s.text@);
    crate::sorting::sorting_commutes_with_filtering(line.spans, shown);
    let spans = text_spans(line.spans);
    let open = open_cells(spans, cell_gap(line));
    let cuts = lemma_open_cuts(spans, cell_gap(line));
    let cells = cells_in(line);
    assert forall|j: int| 0 <= j < cells.len() implies stands_for(
        #[trigger] cells[j],
        spans.subrange(cuts[j], cuts[j + 1]),
    ) by {
        assert(is_open_for(open[j], spans.subrange(cuts[j], cuts[j + 1])));
        lemma_finished_for(open[j], spans.subrange(cuts[j], cuts[j + 1]));
    }
    cuts
}

/// On whole points, the gap that parts two cells is the font size of the line, or, where that is
/// not known, its height and at least a point.
pub proof fn cells_are_parted_by_the_font_size(line: crate::types::Line, size: int, height: int)
    requires
        line.dominant_font_size.is_whole(size),
        line.bbox.height.is_whole(height),
        -4096 < size < 4096,
        -4096 < height < 4096,
    ensures
        cell_gap(line).is_whole(
            if size > 0 {
                size
            } else {
                crate::types::most(height, 1)
            },
        ),
{
    let zero = F32 { bits: 0 };
    let one = F32::from_nat(1);
    crate::float::exact::zero_is_whole();
    crate::float::exact::naturals_are_whole(1);
    crate::float::exact::measures_are_ordered(zero, line.dominant_font_size, 0, 256 * size);
    crate::float::exact::measured_extremes(line.bbox.height, one, 256 * height, 256);
    let chosen = if size > 0 { size } else { crate::types::most(height, 1) };
    let v = if size > 0 { line.dominant_font_size } else { line.bbox.height.greater(one) };
    crate::float::exact::whole_product(v, one, chosen, 1);
}

} // verus!
