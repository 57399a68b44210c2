//! Tables that only the alignment of their text shows.
use super::blocks::{Block, TableRun};
use super::cells::{split_cells, TableCell};
use super::recover::recover_merged_cell;
use crate::float::F32;
use crate::text::trim_end;
use crate::types::ProjectedLine;
use vstd::prelude::*;
use vstd::string::*;

verus! {

/// Minimum cells per row for a region to qualify as a table.
pub const TABLE_MIN_COLUMNS: usize = 3;

/// Minimum consecutive rows for a region to qualify as a table.
pub const TABLE_MIN_ROWS: usize = 2;

/// A row of a table: the line that it starts on, and its cells.
#[derive(Debug)]
pub struct TableRow {
    pub line: usize,
    pub cells: Vec<TableCell>,
}

/// What a row holds.
#[verifier::ext_equal]
pub struct Row {
    pub line: int,
    pub cells: Seq<super::cells::Cell>,
}

impl View for TableRow {
    type V = Row;

    open spec fn view(&self) -> Row {
        Row { line: self.line as int, cells: super::cells::cells_of(self.cells@) }
    }
}

/// What the rows hold.
pub open spec fn rows_of(rows: Seq<TableRow>) -> Seq<Row> {
    Seq::new(rows.len(), |i: int| rows[i]@)
}

/// Whether the vertical gap between two lines lets them be rows of one table.
pub open spec fn rows_adjacent(prev: crate::types::Line, cur: crate::types::Line) -> bool {
    let gap = cur.bbox.y.minus(prev.bbox.bottom());
    let height = prev.bbox.height.greater(cur.bbox.height).greater(F32::from_nat(1));
    height.negated().at_most(gap) && gap.at_most(height.times(F32::ratio(5, 2)))
}

/// How far a cell starts from a column track.
pub open spec fn track_distance(cell: super::cells::Cell, track: F32) -> F32 {
    cell.start_x.minus(track).absolute()
}

/// Whether a cell starts at a column track.
pub open spec fn on_track(cell: super::cells::Cell, track: F32) -> bool {
    track_distance(cell, track).at_most(F32::from_nat(6))
}

/// Whether a cell starts at one of the column tracks.
pub open spec fn aligned(cell: super::cells::Cell, tracks: Seq<F32>) -> bool {
    exists|i: int| 0 <= i < tracks.len() && on_track(cell, #[trigger] tracks[i])
}

/// Whether each cell starts at one of the column tracks.
pub open spec fn all_aligned(cells: Seq<super::cells::Cell>, tracks: Seq<F32>) -> bool {
    forall|i: int| 0 <= i < cells.len() ==> aligned(#[trigger] cells[i], tracks)
}

/// The first track that a cell starts at.
pub open spec fn first_track(cell: super::cells::Cell, tracks: Seq<F32>) -> Option<int>
    decreases tracks.len(),
{
    if tracks.len() == 0 {
        None
    } else {
        match first_track(cell, tracks.drop_last()) {
            Some(k) => Some(k),
            None => if on_track(cell, tracks.last()) {
                Some(tracks.len() - 1)
            } else {
                None
            },
        }
    }
}

/// The closest of the tracks that a cell starts at, the first of several.
pub open spec fn closest_track(cell: super::cells::Cell, tracks: Seq<F32>) -> Option<int>
    decreases tracks.len(),
{
    if tracks.len() == 0 {
        None
    } else {
        let before = closest_track(cell, tracks.drop_last());
        if !on_track(cell, tracks.last()) {
            before
        } else {
            match before {
                Some(k) if track_distance(cell, tracks[k]).rank() <= track_distance(
                    cell,
                    tracks.last(),
                ).rank() => before,
                _ => Some(tracks.len() - 1),
            }
        }
    }
}

/// A text with another one behind it, after a blank where neither is empty.
pub open spec fn appended(head: Seq<char>, tail: Seq<char>) -> Seq<char> {
    if head.len() > 0 && tail.len() > 0 {
        head.push(' ') + tail
    } else {
        head + tail
    }
}

/// The cells of a line, with merged cells split where that gives one cell for each track.
pub open spec fn row_cells(line: crate::types::Line, tracks: Seq<F32>) -> Seq<super::cells::Cell> {
    let cells = super::cells::cells_in(line);
    if TABLE_MIN_COLUMNS <= cells.len() < tracks.len() {
        match super::recover::recovered(cells, tracks) {
            Some(split) => split,
            None => cells,
        }
    } else {
        cells
    }
}

/// Whether the cells continue the row before: they are fewer than the tracks, their line is
/// close below the start of that row, and each starts at a track.
pub open spec fn continues_row(
    prev: crate::types::Line,
    cur: crate::types::Line,
    cells: Seq<super::cells::Cell>,
    tracks: Seq<F32>,
) -> bool {
    let height = cur.bbox.height.greater(F32::from_nat(1));
    &&& 0 < cells.len() < tracks.len()
    &&& cur.bbox.y.minus(prev.bbox.y).at_most(height.times(F32::ratio(3, 2)))
    &&& all_aligned(cells, tracks)
}

/// The cells with the text of each wrapped cell appended at its track.
pub open spec fn with_wrapped(
    cells: Seq<super::cells::Cell>,
    wrapped: Seq<super::cells::Cell>,
    tracks: Seq<F32>,
) -> Seq<super::cells::Cell>
    decreases wrapped.len(),
{
    if wrapped.len() == 0 {
        cells
    } else {
        let before = with_wrapped(cells, wrapped.drop_last(), tracks);
        match first_track(wrapped.last(), tracks) {
            Some(k) => before.update(
                k,
                super::cells::Cell {
                    text: appended(before[k].text, wrapped.last().text),
                    ..before[k]
                },
            ),
            None => before,
        }
    }
}

/// How many cells do not start at the track of their column.
pub open spec fn misaligned(cells: Seq<super::cells::Cell>, tracks: Seq<F32>) -> nat
    decreases cells.len(),
{
    if cells.len() == 0 {
        0
    } else {
        let k = cells.len() - 1;
        misaligned(cells.drop_last(), tracks) + if F32::from_nat(6).less(
            track_distance(cells[k], tracks[k]),
        ) {
            1nat
        } else {
            0nat
        }
    }
}

/// The rows with the `j`th line joined to them, as a continuation of the last row or as a row
/// of its own; none where the line ends the table.
pub open spec fn joined_rows(
    lines: Seq<crate::types::Line>,
    tracks: Seq<F32>,
    rows: Seq<Row>,
    j: int,
) -> Option<Seq<Row>> {
    let last = rows.last();
    let cells = row_cells(lines[j], tracks);
    if !rows_adjacent(lines[last.line], lines[j]) {
        None
    } else if continues_row(lines[last.line], lines[j], cells, tracks) {
        Some(
            rows.drop_last().push(
                Row { line: last.line, cells: with_wrapped(last.cells, cells, tracks) },
            ),
        )
    } else if cells.len() == tracks.len() && misaligned(cells, tracks) <= 1 {
        Some(rows.push(Row { line: j, cells }))
    } else {
        None
    }
}

/// The rows with as many lines joined to them as will, from the `j`th line on; and the line
/// after the last of them.
pub open spec fn grown_rows(
    lines: Seq<crate::types::Line>,
    tracks: Seq<F32>,
    rows: Seq<Row>,
    j: int,
) -> (Seq<Row>, int)
    decreases lines.len() - j,
{
    if j >= lines.len() {
        (rows, j)
    } else {
        match joined_rows(lines, tracks, rows, j) {
            Some(more) => grown_rows(lines, tracks, more, j + 1),
            None => (rows, j),
        }
    }
}

/// The sum, from the first to the last.
pub open spec fn total(s: Seq<F32>) -> F32
    decreases s.len(),
{
    if s.len() == 0 {
        F32 { bits: 0 }
    } else {
        total(s.drop_last()).plus(s.last())
    }
}

/// The distances between neighbours.
pub open spec fn gaps(ys: Seq<F32>) -> Seq<F32> {
    Seq::new((ys.len() - 1) as nat, |i: int| ys[i + 1].minus(ys[i]).absolute())
}

/// The squares of the deviations from the mean.
pub open spec fn square_deviations(s: Seq<F32>, mean: F32) -> Seq<F32> {
    Seq::new(s.len(), |i: int| s[i].minus(mean).times(s[i].minus(mean)))
}

/// The coefficient of variation of the distances between neighbours: the standard deviation
/// over the mean.
pub open spec fn spacing_variation(ys: Seq<F32>) -> F32 {
    if ys.len() < 3 {
        F32 { bits: 0 }
    } else {
        let n = F32::from_nat((ys.len() - 1) as nat);
        let mean = total(gaps(ys)).over(n);
        if mean.at_most(F32 { bits: 0 }) {
            F32 { bits: 0x7f80_0000 }
        } else {
            total(square_deviations(gaps(ys), mean)).over(n).root().over(mean)
        }
    }
}

/// Whether the line above the `j`th one is a header of the table with these tracks: it has two
/// cells or more, not more than there are tracks, each at a track.
pub open spec fn is_header_line(
    lines: Seq<crate::types::Line>,
    tracks: Seq<F32>,
    j: int,
) -> bool {
    let cells = super::cells::cells_in(lines[j - 1]);
    2 <= cells.len() <= tracks.len() && rows_adjacent(lines[j - 1], lines[j]) && all_aligned(
        cells,
        tracks,
    )
}

/// The first of the header lines right above the `j`th line, not above the floor.
pub open spec fn header_start(
    lines: Seq<crate::types::Line>,
    tracks: Seq<F32>,
    floor: int,
    j: int,
) -> int
    decreases j - floor,
{
    if j > floor && is_header_line(lines, tracks, j) {
        header_start(lines, tracks, floor, j - 1)
    } else {
        j
    }
}

/// The header texts with the text of each cell appended at its closest track.
pub open spec fn with_header_cells(
    header: Seq<Seq<char>>,
    cells: Seq<super::cells::Cell>,
    tracks: Seq<F32>,
) -> Seq<Seq<char>>
    decreases cells.len(),
{
    if cells.len() == 0 {
        header
    } else {
        let before = with_header_cells(header, cells.drop_last(), tracks);
        match closest_track(cells.last(), tracks) {
            Some(k) => before.update(k, appended(before[k], cells.last().text)),
            None => before,
        }
    }
}

/// The header texts of the lines from `top` up to `end`, one text for each track.
pub open spec fn header_texts(
    lines: Seq<crate::types::Line>,
    tracks: Seq<F32>,
    top: int,
    end: int,
) -> Seq<Seq<char>>
    decreases end - top,
{
    if end <= top {
        Seq::new(tracks.len(), |i: int| Seq::<char>::empty())
    } else {
        with_header_cells(
            header_texts(lines, tracks, top, end - 1),
            super::cells::cells_in(lines[end - 1]),
            tracks,
        )
    }
}

/// The texts of cells.
pub open spec fn cell_texts(cells: Seq<super::cells::Cell>) -> Seq<Seq<char>> {
    Seq::new(cells.len(), |i: int| cells[i].text)
}

/// The texts of rows.
pub open spec fn row_texts(rows: Seq<Row>) -> Seq<Seq<Seq<char>>> {
    Seq::new(rows.len(), |i: int| cell_texts(rows[i].cells))
}

/// The heights on the page that rows start at.
pub open spec fn row_tops(lines: Seq<crate::types::Line>, rows: Seq<Row>) -> Seq<F32> {
    Seq::new(rows.len(), |i: int| lines[rows[i].line].bbox.y)
}

/// The left edges of cells.
pub open spec fn starts(cells: Seq<super::cells::Cell>) -> Seq<F32> {
    Seq::new(cells.len(), |i: int| cells[i].start_x)
}

/// Whether all the cells are bold.
pub open spec fn all_bold(cells: Seq<super::cells::Cell>) -> bool {
    forall|i: int| 0 <= i < cells.len() ==> (#[trigger] cells[i]).bold
}

/// The block that the rows make up, with its first line.
pub open spec fn table_block(
    lines: Seq<crate::types::Line>,
    tracks: Seq<F32>,
    rows: Seq<Row>,
    start: int,
    floor: int,
) -> (int, super::blocks::Content) {
    let top = header_start(lines, tracks, floor, start);
    if F32::ratio(1, 2).less(spacing_variation(row_tops(lines, rows))) {
        (
            start,
            super::blocks::Content::GridFallback {
                lines: Seq::new(
                    rows.len(),
                    |i: int| crate::text::trimmed_end(lines[rows[i].line].text),
                ),
            },
        )
    } else if top < start {
        (
            top,
            super::blocks::Content::Table {
                header: Some(header_texts(lines, tracks, top, start)),
                rows: row_texts(rows),
            },
        )
    } else if all_bold(rows[0].cells) {
        (
            start,
            super::blocks::Content::Table {
                header: Some(cell_texts(rows[0].cells)),
                rows: row_texts(rows).skip(1),
            },
        )
    } else {
        (start, super::blocks::Content::Table { header: None, rows: row_texts(rows) })
    }
}

/// The table whose first row is the line at `start`.
#[verifier::opaque]
pub open spec fn table_at(
    lines: Seq<crate::types::Line>,
    start: int,
    floor: int,
) -> Option<super::blocks::Run> {
    let first = super::cells::cells_in(lines[start]);
    let tracks = starts(first);
    let (rows, end) = grown_rows(lines, tracks, seq![Row { line: start, cells: first }], start + 1);
    if first.len() < TABLE_MIN_COLUMNS || rows.len() < TABLE_MIN_ROWS {
        None
    } else {
        let (top, block) = table_block(lines, tracks, rows, start, floor);
        Some(super::blocks::Run { start: top, end, block })
    }
}

/// The tables from the `i`th line on, none of which reaches above the floor.
pub open spec fn tables_from(
    lines: Seq<crate::types::Line>,
    i: int,
    floor: int,
) -> Seq<super::blocks::Run>
    decreases lines.len() - i,
{
    if !(0 <= i < lines.len()) {
        Seq::empty()
    } else {
        match table_at(lines, i, floor) {
            Some(run) => {
                proof {
                    tables_end_after_their_first_row(lines, i, floor);
                }
                seq![run] + tables_from(lines, run.end, run.end)
            },
            None => tables_from(lines, i + 1, floor),
        }
    }
}

proof fn lemma_grown_rows(
    lines: Seq<crate::types::Line>,
    tracks: Seq<F32>,
    rows: Seq<Row>,
    j: int,
)
    requires
        rows.len() > 0,
        0 <= j,
    ensures
        grown_rows(lines, tracks, rows, j).0.len() >= rows.len(),
        grown_rows(lines, tracks, rows, j).1 >= j,
        j <= lines.len() ==> grown_rows(lines, tracks, rows, j).1 <= lines.len(),
    decreases lines.len() - j,
{
    if j < lines.len() {
        if let Some(more) = joined_rows(lines, tracks, rows, j) {
            lemma_grown_rows(lines, tracks, more, j + 1);
        }
    }
}

/// A table ends below its first row, within the lines.
pub proof fn tables_end_after_their_first_row(
    lines: Seq<crate::types::Line>,
    start: int,
    floor: int,
)
    requires
        0 <= start < lines.len(),
    ensures
        table_at(lines, start, floor) matches Some(run) ==> start < run.end <= lines.len(),
{
    reveal(table_at);
    let first = super::cells::cells_in(lines[start]);
    lemma_grown_rows(lines, starts(first), seq![Row { line: start, cells: first }], start + 1);
}

/// Vertical-gap check for table rows. Looser than paragraph continuation
/// because table rows often have extra padding between them.
fn table_rows_adjacent(prev: &ProjectedLine, cur: &ProjectedLine) -> (r: bool)
    ensures
        r == rows_adjacent(prev@, cur@),
{
    let one: F32 = F32::from_u32(1);
    let prev_bottom: F32 = prev.bbox.y.add(prev.bbox.height);
    let gap: F32 = cur.bbox.y.sub(prev_bottom);
    let line_height: F32 = prev.bbox.height.max(cur.bbox.height).max(one);
    gap.ge(line_height.neg()) && gap.le(line_height.mul(F32::fraction(5, 2)))
}

/// Whether a cell starts at a column track.
fn is_on_track(cell: &TableCell, track: F32) -> (r: bool)
    ensures
        r == on_track(cell@, track),
{
    cell.start_x.sub(track).abs().le(F32::from_u32(6))
}

/// Whether each cell starts at one of the column tracks.
fn cells_aligned(cells: &Vec<TableCell>, tracks: &Vec<F32>) -> (r: bool)
    ensures
        r == all_aligned(super::cells::cells_of(cells@), tracks@),
{
    let ghost all = super::cells::cells_of(cells@);
    let mut i: usize = 0;
    while i < cells.len()
        invariant
            i <= cells@.len(),
            all == super::cells::cells_of(cells@),
            forall|j: int| 0 <= j < i ==> aligned(#[trigger] all[j], tracks@),
        decreases cells@.len() - i,
    {
        let mut found: bool = false;
        let mut t: usize = 0;
        while t < tracks.len()
            invariant
                i < cells@.len(),
                t <= tracks@.len(),
                found == exists|k: int| 0 <= k < t && on_track(cells@[i as int]@, #[trigger] tracks@[k]),
            decreases tracks@.len() - t,
        {
            if is_on_track(&cells[i], tracks[t]) {
                found = true;
            }
            assert(on_track(cells@[i as int]@, tracks@[t as int]) ==> found);
            t = t + 1;
        }
        if !found {
            assert(!aligned(all[i as int], tracks@));
            return false;
        }
        assert(aligned(all[i as int], tracks@));
        i = i + 1;
    }
    true
}

proof fn lemma_first_track(cell: super::cells::Cell, tracks: Seq<F32>)
    ensures
        first_track(cell, tracks) matches Some(k) ==> 0 <= k < tracks.len(),
    decreases tracks.len(),
{
    if tracks.len() > 0 {
        lemma_first_track(cell, tracks.drop_last());
    }
}

/// The first track that a cell starts at.
fn find_first_track(cell: &TableCell, tracks: &Vec<F32>) -> (r: Option<usize>)
    ensures
        match r {
            Some(k) => k < tracks@.len() && first_track(cell@, tracks@) == Some(k as int),
            None => first_track(cell@, tracks@) is None,
        },
{
    let mut found: Option<usize> = None;
    let mut i: usize = 0;
    while i < tracks.len()
        invariant
            i <= tracks@.len(),
            match found {
                Some(k) => k < i && first_track(cell@, tracks@.take(i as int)) == Some(k as int),
                None => first_track(cell@, tracks@.take(i as int)) is None,
            },
        decreases tracks@.len() - i,
    {
        assert(tracks@.take(i + 1).drop_last() =~= tracks@.take(i as int));
        if found.is_none() && is_on_track(cell, tracks[i]) {
            found = Some(i);
        }
        i = i + 1;
    }
    assert(tracks@.take(i as int) =~= tracks@);
    found
}

/// The closest of the tracks that a cell starts at.
fn find_closest_track(cell: &TableCell, tracks: &Vec<F32>) -> (r: Option<usize>)
    ensures
        match r {
            Some(k) => k < tracks@.len() && closest_track(cell@, tracks@) == Some(k as int),
            None => closest_track(cell@, tracks@) is None,
        },
{
    let mut found: Option<usize> = None;
    let mut i: usize = 0;
    while i < tracks.len()
        invariant
            i <= tracks@.len(),
            match found {
                Some(k) => k < i && closest_track(cell@, tracks@.take(i as int)) == Some(k as int),
                None => closest_track(cell@, tracks@.take(i as int)) is None,
            },
        decreases tracks@.len() - i,
    {
        assert(tracks@.take(i + 1).drop_last() =~= tracks@.take(i as int));
        if is_on_track(cell, tracks[i]) {
            let closer: bool = match found {
                Some(k) => cell.start_x.sub(tracks[i]).abs().total_rank() < cell.start_x.sub(
                    tracks[k],
                ).abs().total_rank(),
                None => true,
            };
            if closer {
                found = Some(i);
            }
        }
        i = i + 1;
    }
    assert(tracks@.take(i as int) =~= tracks@);
    found
}

/// A text with another one behind it, after a blank where neither is empty.
fn append_text(head: &String, tail: &String) -> (r: String)
    ensures
        r@ == appended(head@, tail@),
{
    let mut r: String = head.clone();
    if !head.as_str().is_empty() && !tail.as_str().is_empty() {
        r.push(' ');
    }
    r.append(tail.as_str());
    r
}

/// The cells of a line, with merged cells split where that gives one cell for each track.
fn collect_row_cells(line: &ProjectedLine, tracks: &Vec<F32>) -> (r: Vec<TableCell>)
    ensures
        super::cells::cells_of(r@) == row_cells(line@, tracks@),
{
    let cells: Vec<TableCell> = split_cells(line);
    if cells.len() < tracks.len() && cells.len() >= TABLE_MIN_COLUMNS {
        let copy: Vec<TableCell> = cells.clone();
        assert(copy@ =~= cells@);
        match recover_merged_cell(copy, tracks) {
            Some(patched) => patched,
            None => cells,
        }
    } else {
        cells
    }
}

/// Whether the cells of a line continue the row before.
fn is_continuation(
    prev: &ProjectedLine,
    cur: &ProjectedLine,
    cells: &Vec<TableCell>,
    tracks: &Vec<F32>,
) -> (r: bool)
    ensures
        r == continues_row(prev@, cur@, super::cells::cells_of(cells@), tracks@),
{
    let line_height: F32 = cur.bbox.height.max(F32::from_u32(1));
    cells.len() > 0 && cells.len() < tracks.len() && cur.bbox.y.sub(prev.bbox.y).le(
        line_height.mul(F32::fraction(3, 2)),
    ) && cells_aligned(cells, tracks)
}

/// The cells with the text of each wrapped cell appended at its track.
fn merge_wrapped(cells: &Vec<TableCell>, wrapped: &Vec<TableCell>, tracks: &Vec<F32>) -> (r: Vec<
    TableCell,
>)
    requires
        cells@.len() == tracks@.len(),
    ensures
        super::cells::cells_of(r@) == with_wrapped(
            super::cells::cells_of(cells@),
            super::cells::cells_of(wrapped@),
            tracks@,
        ),
{
    let ghost first = super::cells::cells_of(cells@);
    let ghost others = super::cells::cells_of(wrapped@);
    let mut r: Vec<TableCell> = cells.clone();
    assert(r@ =~= cells@);
    assert(others.take(0) =~= Seq::empty());
    let mut i: usize = 0;
    while i < wrapped.len()
        invariant
            i <= wrapped@.len(),
            others == super::cells::cells_of(wrapped@),
            r@.len() == tracks@.len(),
            super::cells::cells_of(r@) == with_wrapped(first, others.take(i as int), tracks@),
        decreases wrapped@.len() - i,
    {
        assert(others.take(i + 1).drop_last() =~= others.take(i as int));
        let ghost before = super::cells::cells_of(r@);
        if let Some(k) = find_first_track(&wrapped[i], tracks) {
            let text: String = append_text(&r[k].text, &wrapped[i].text);
            r[k].text = text;
            assert(super::cells::cells_of(r@) =~= before.update(
                k as int,
                super::cells::Cell {
                    text: appended(before[k as int].text, others[i as int].text),
                    ..before[k as int]
                },
            ));
        }
        i = i + 1;
    }
    assert(others.take(i as int) =~= others);
    r
}

/// How many cells do not start at the track of their column.
fn count_misaligned(cells: &Vec<TableCell>, tracks: &Vec<F32>) -> (r: usize)
    requires
        cells@.len() == tracks@.len(),
    ensures
        r == misaligned(super::cells::cells_of(cells@), tracks@),
{
    let ghost all = super::cells::cells_of(cells@);
    let tolerance: F32 = F32::from_u32(6);
    let mut count: usize = 0;
    let mut i: usize = 0;
    while i < cells.len()
        invariant
            i <= cells@.len(),
            cells@.len() == tracks@.len(),
            all == super::cells::cells_of(cells@),
            tolerance == F32::from_nat(6),
            count <= i,
            count == misaligned(all.take(i as int), tracks@),
        decreases cells@.len() - i,
    {
        assert(all.take(i + 1).drop_last() =~= all.take(i as int));
        if cells[i].start_x.sub(tracks[i]).abs().gt(tolerance) {
            count = count + 1;
        }
        i = i + 1;
    }
    assert(all.take(i as int) =~= all);
    count
}

/// The sum, from the first to the last.
fn sum(s: &Vec<F32>) -> (r: F32)
    ensures
        r == total(s@),
{
    let mut r: F32 = F32::from_bits(0);
    let mut i: usize = 0;
    while i < s.len()
        invariant
            i <= s@.len(),
            r == total(s@.take(i as int)),
        decreases s@.len() - i,
    {
        assert(s@.take(i + 1).drop_last() =~= s@.take(i as int));
        r = r.add(s[i]);
        i = i + 1;
    }
    assert(s@.take(i as int) =~= s@);
    r
}

/// Coefficient of variation (std-dev / mean) of inter-row vertical gaps.
/// Returns zero for runs with fewer than two gaps (nothing to compare). Used to reject
/// runs whose row spacing is too irregular to be a real table.
fn row_spacing_cv(ys: &Vec<F32>) -> (r: F32)
    ensures
        r == spacing_variation(ys@),
{
    let zero: F32 = F32::from_bits(0);
    let n: usize = ys.len();
    if n < 3 {
        return zero;
    }
    let mut between: Vec<F32> = Vec::new();
    let mut i: usize = 0;
    while i < n - 1
        invariant
            n == ys@.len(),
            n >= 3,
            i <= n - 1,
            between@ == gaps(ys@).take(i as int),
        decreases n - i,
    {
        between.push(ys[i + 1].sub(ys[i]).abs());
        i = i + 1;
        assert(gaps(ys@).take(i as int) =~= gaps(ys@).take(i - 1).push(gaps(ys@)[i - 1]));
    }
    assert(between@ =~= gaps(ys@));
    let count: F32 = F32::from_usize(n - 1);
    let mean: F32 = sum(&between).div(count);
    if mean.le(zero) {
        return F32::from_bits(0x7f80_0000);
    }
    let mut squares: Vec<F32> = Vec::new();
    let mut k: usize = 0;
    while k < between.len()
        invariant
            k <= between@.len(),
            squares@ == square_deviations(between@, mean).take(k as int),
        decreases between@.len() - k,
    {
        let deviation: F32 = between[k].sub(mean);
        squares.push(deviation.mul(deviation));
        k = k + 1;
        assert(square_deviations(between@, mean).take(k as int) =~= square_deviations(
            between@,
            mean,
        ).take(k - 1).push(square_deviations(between@, mean)[k - 1]));
    }
    assert(squares@ =~= square_deviations(between@, mean));
    sum(&squares).div(count).sqrt().div(mean)
}

/// Whether the rows are rows of a table with these tracks among the lines before the `j`th.
pub open spec fn well_formed_rows(rows: Seq<Row>, tracks: Seq<F32>, j: int) -> bool {
    &&& rows.len() > 0
    &&& forall|i: int|
        0 <= i < rows.len() ==> 0 <= (#[trigger] rows[i]).line < j && rows[i].cells.len()
            == tracks.len()
}

proof fn lemma_with_wrapped_len(
    cells: Seq<super::cells::Cell>,
    wrapped: Seq<super::cells::Cell>,
    tracks: Seq<F32>,
)
    requires
        cells.len() == tracks.len(),
    ensures
        with_wrapped(cells, wrapped, tracks).len() == cells.len(),
    decreases wrapped.len(),
{
    if wrapped.len() > 0 {
        lemma_first_track(wrapped.last(), tracks);
        lemma_with_wrapped_len(cells, wrapped.drop_last(), tracks);
    }
}

proof fn lemma_joined_well_formed(
    lines: Seq<crate::types::Line>,
    tracks: Seq<F32>,
    rows: Seq<Row>,
    j: int,
)
    requires
        well_formed_rows(rows, tracks, j),
        j >= 0,
    ensures
        joined_rows(lines, tracks, rows, j) matches Some(more) ==> well_formed_rows(
            more,
            tracks,
            j + 1,
        ),
{
    let cells = row_cells(lines[j], tracks);
    assert(rows[rows.len() - 1].cells.len() == tracks.len());
    lemma_with_wrapped_len(rows.last().cells, cells, tracks);
}

/// The rows that start with the line at `start`, and the line after the last of them.
fn grow_rows(
    lines: &Vec<ProjectedLine>,
    tracks: &Vec<F32>,
    first_cells: Vec<TableCell>,
    start: usize,
) -> (r: (Vec<TableRow>, usize))
    requires
        start < lines@.len(),
        first_cells@.len() == tracks@.len(),
    ensures
        (rows_of(r.0@), r.1 as int) == grown_rows(
            crate::types::lines_of(lines@),
            tracks@,
            seq![Row { line: start as int, cells: super::cells::cells_of(first_cells@) }],
            start + 1,
        ),
        well_formed_rows(rows_of(r.0@), tracks@, r.1 as int),
        start < r.1 <= lines@.len(),
{
    let ghost all = crate::types::lines_of(lines@);
    let ghost goal = grown_rows(
        all,
        tracks@,
        seq![Row { line: start as int, cells: super::cells::cells_of(first_cells@) }],
        start + 1,
    );
    let n: usize = lines.len();
    let mut rows: Vec<TableRow> = Vec::new();
    rows.push(TableRow { line: start, cells: first_cells });
    assert(rows_of(rows@) =~= seq![
        Row { line: start as int, cells: super::cells::cells_of(first_cells@) },
    ]);
    let mut j: usize = start + 1;
    let mut open: bool = true;
    while open && j < n
        invariant
            n == lines@.len(),
            start < j <= n,
            all == crate::types::lines_of(lines@),
            well_formed_rows(rows_of(rows@), tracks@, j as int),
            open ==> grown_rows(all, tracks@, rows_of(rows@), j as int) == goal,
            !open ==> goal == (rows_of(rows@), j as int),
        decreases n - j + (if open { 1int } else { 0 }),
    {
        let ghost now = rows_of(rows@);
        proof {
            lemma_joined_well_formed(all, tracks@, now, j as int);
            assert(now[now.len() - 1].line < j);
        }
        let last: usize = rows.len() - 1;
        let prev: usize = rows[last].line;
        let cells: Vec<TableCell> = collect_row_cells(&lines[j], tracks);
        if !table_rows_adjacent(&lines[prev], &lines[j]) {
            open = false;
        } else if is_continuation(&lines[prev], &lines[j], &cells, tracks) {
            assert(now[last as int].cells.len() == tracks@.len());
            let merged: Vec<TableCell> = merge_wrapped(&rows[last].cells, &cells, tracks);
            rows[last].cells = merged;
            assert(rows_of(rows@) =~= now.drop_last().push(
                Row {
                    line: now.last().line,
                    cells: with_wrapped(
                        now.last().cells,
                        super::cells::cells_of(cells@),
                        tracks@,
                    ),
                },
            ));
            j = j + 1;
        } else if cells.len() == tracks.len() && count_misaligned(&cells, tracks) <= 1 {
            let ghost row = Row { line: j as int, cells: super::cells::cells_of(cells@) };
            rows.push(TableRow { line: j, cells });
            assert(rows_of(rows@) =~= now.push(row));
            j = j + 1;
        } else {
            open = false;
        }
    }
    (rows, j)
}

/// The texts of cells.
fn collect_texts(cells: &Vec<TableCell>) -> (r: Vec<String>)
    ensures
        crate::text::texts(r@) == cell_texts(super::cells::cells_of(cells@)),
{
    let mut r: Vec<String> = Vec::new();
    let mut i: usize = 0;
    while i < cells.len()
        invariant
            i <= cells@.len(),
            r@.len() == i,
            forall|j: int| 0 <= j < i ==> (#[trigger] r@[j])@ == cells@[j].text@,
        decreases cells@.len() - i,
    {
        r.push(cells[i].text.clone());
        i = i + 1;
    }
    assert(crate::text::texts(r@) =~= cell_texts(super::cells::cells_of(cells@)));
    r
}

/// The texts of the rows from the `k`th on.
fn collect_row_texts(rows: &Vec<TableRow>, k: usize) -> (r: Vec<Vec<String>>)
    requires
        k <= rows@.len(),
    ensures
        crate::text::text_rows(r@) == row_texts(rows_of(rows@)).skip(k as int),
{
    let mut r: Vec<Vec<String>> = Vec::new();
    let mut i: usize = k;
    while i < rows.len()
        invariant
            k <= i <= rows@.len(),
            r@.len() == i - k,
            forall|j: int|
                0 <= j < i - k ==> crate::text::texts((#[trigger] r@[j])@) == cell_texts(
                    super::cells::cells_of(rows@[j + k].cells@),
                ),
        decreases rows@.len() - i,
    {
        r.push(collect_texts(&rows[i].cells));
        i = i + 1;
    }
    assert(crate::text::text_rows(r@) =~= row_texts(rows_of(rows@)).skip(k as int));
    r
}

/// The header texts with the text of each cell appended at its closest track.
fn add_header_cells(header: Vec<String>, cells: &Vec<TableCell>, tracks: &Vec<F32>) -> (r: Vec<
    String,
>)
    requires
        header@.len() == tracks@.len(),
    ensures
        r@.len() == tracks@.len(),
        crate::text::texts(r@) == with_header_cells(
            crate::text::texts(header@),
            super::cells::cells_of(cells@),
            tracks@,
        ),
{
    let ghost all = super::cells::cells_of(cells@);
    let ghost first = crate::text::texts(header@);
    let mut r: Vec<String> = header;
    assert(all.take(0) =~= Seq::empty());
    let mut i: usize = 0;
    while i < cells.len()
        invariant
            i <= cells@.len(),
            all == super::cells::cells_of(cells@),
            r@.len() == tracks@.len(),
            crate::text::texts(r@) == with_header_cells(first, all.take(i as int), tracks@),
        decreases cells@.len() - i,
    {
        assert(all.take(i + 1).drop_last() =~= all.take(i as int));
        let ghost before = crate::text::texts(r@);
        if let Some(k) = find_closest_track(&cells[i], tracks) {
            let text: String = append_text(&r[k], &cells[i].text);
            r.set(k, text);
            assert(crate::text::texts(r@) =~= before.update(
                k as int,
                appended(before[k as int], all[i as int].text),
            ));
        }
        i = i + 1;
    }
    assert(all.take(i as int) =~= all);
    r
}

/// Walk backward from `start_idx` (not below `floor`), pulling in lines whose
/// cells all align to the table's `tracks` as header rows. Returns the new
/// start index and a single merged header row (one column for each track) with
/// each absorbed line's text appended into its nearest column track.
fn absorb_header_lines(
    lines: &Vec<ProjectedLine>,
    start_idx: usize,
    tracks: &Vec<F32>,
    floor: usize,
) -> (r: Option<(usize, Vec<String>)>)
    requires
        start_idx < lines@.len(),
    ensures
        match r {
            Some((top, header)) => {
                &&& top == header_start(
                    crate::types::lines_of(lines@),
                    tracks@,
                    floor as int,
                    start_idx as int,
                )
                &&& top < start_idx
                &&& crate::text::texts(header@) == header_texts(
                    crate::types::lines_of(lines@),
                    tracks@,
                    top as int,
                    start_idx as int,
                )
            },
            None => header_start(
                crate::types::lines_of(lines@),
                tracks@,
                floor as int,
                start_idx as int,
            ) == start_idx,
        },
{
    let ghost all = crate::types::lines_of(lines@);
    let ghost goal = header_start(all, tracks@, floor as int, start_idx as int);
    let mut top: usize = start_idx;
    let mut open: bool = true;
    while open && top > floor
        invariant
            all == crate::types::lines_of(lines@),
            top <= start_idx < lines@.len(),
            open ==> goal == header_start(all, tracks@, floor as int, top as int),
            !open ==> goal == top,
        decreases top + (if open { 1int } else { 0 }),
    {
        let cells: Vec<TableCell> = split_cells(&lines[top - 1]);
        if cells.len() < 2 || cells.len() > tracks.len() || !table_rows_adjacent(
            &lines[top - 1],
            &lines[top],
        ) || !cells_aligned(&cells, tracks) {
            open = false;
        } else {
            top = top - 1;
        }
    }
    if top == start_idx {
        return None;
    }
    let mut header: Vec<String> = Vec::new();
    let mut k: usize = 0;
    while k < tracks.len()
        invariant
            k <= tracks@.len(),
            header@.len() == k,
            forall|j: int| 0 <= j < k ==> (#[trigger] header@[j])@ == Seq::<char>::empty(),
        decreases tracks@.len() - k,
    {
        header.push(String::new());
        k = k + 1;
    }
    assert(crate::text::texts(header@) =~= header_texts(all, tracks@, top as int, top as int));
    let mut i: usize = top;
    while i < start_idx
        invariant
            all == crate::types::lines_of(lines@),
            top <= i <= start_idx < lines@.len(),
            header@.len() == tracks@.len(),
            crate::text::texts(header@) == header_texts(all, tracks@, top as int, i as int),
        decreases start_idx - i,
    {
        let cells: Vec<TableCell> = split_cells(&lines[i]);
        header = add_header_cells(header, &cells, tracks);
        i = i + 1;
    }
    Some((top, header))
}

/// Whether all the cells are bold.
fn cells_bold(cells: &Vec<TableCell>) -> (r: bool)
    ensures
        r == all_bold(super::cells::cells_of(cells@)),
{
    let ghost all = super::cells::cells_of(cells@);
    let mut i: usize = 0;
    while i < cells.len()
        invariant
            i <= cells@.len(),
            all == super::cells::cells_of(cells@),
            forall|j: int| 0 <= j < i ==> (#[trigger] all[j]).bold,
        decreases cells@.len() - i,
    {
        if !cells[i].bold {
            assert(!all[i as int].bold);
            return false;
        }
        i = i + 1;
    }
    true
}

/// The left edges of cells.
fn collect_starts(cells: &Vec<TableCell>) -> (r: Vec<F32>)
    ensures
        r@ == starts(super::cells::cells_of(cells@)),
{
    let mut r: Vec<F32> = Vec::new();
    let mut i: usize = 0;
    while i < cells.len()
        invariant
            i <= cells@.len(),
            r@.len() == i,
            forall|j: int| 0 <= j < i ==> #[trigger] r@[j] == cells@[j].start_x,
        decreases cells@.len() - i,
    {
        r.push(cells[i].start_x);
        i = i + 1;
    }
    assert(r@ =~= starts(super::cells::cells_of(cells@)));
    r
}

/// Try to extend a candidate table starting at `start_idx`. On success returns
/// a `TableRun` with `Block::Table` or `Block::GridFallback`; on failure
/// returns `None` (and the caller should fall through to per-line
/// classification).
pub fn try_detect_table(lines: &Vec<ProjectedLine>, start_idx: usize, floor: usize) -> (r: Option<
    TableRun,
>)
    requires
        start_idx < lines@.len(),
    ensures
        match r {
            Some(run) => table_at(
                crate::types::lines_of(lines@),
                start_idx as int,
                floor as int,
            ) == Some(run@),
            None => table_at(
                crate::types::lines_of(lines@),
                start_idx as int,
                floor as int,
            ) is None,
        },
{
    reveal(table_at);
    let ghost all = crate::types::lines_of(lines@);
    let first_cells: Vec<TableCell> = split_cells(&lines[start_idx]);
    if first_cells.len() < TABLE_MIN_COLUMNS {
        return None;
    }
    let tracks: Vec<F32> = collect_starts(&first_cells);
    let (rows, end) = grow_rows(lines, &tracks, first_cells, start_idx);
    let ghost model = rows_of(rows@);
    if rows.len() < TABLE_MIN_ROWS {
        return None;
    }
    let mut tops: Vec<F32> = Vec::new();
    let mut raw: Vec<String> = Vec::new();
    let mut i: usize = 0;
    while i < rows.len()
        invariant
            i <= rows@.len(),
            all == crate::types::lines_of(lines@),
            model == rows_of(rows@),
            well_formed_rows(model, tracks@, end as int),
            end <= lines@.len(),
            tops@ == row_tops(all, model).take(i as int),
            raw@.len() == i,
            forall|j: int|
                0 <= j < i ==> (#[trigger] raw@[j])@ == crate::text::trimmed_end(
                    all[model[j].line].text,
                ),
        decreases rows@.len() - i,
    {
        assert(model[i as int].line < end);
        let line: &ProjectedLine = &lines[rows[i].line];
        tops.push(line.bbox.y);
        raw.push(trim_end(line.text.as_str()));
        i = i + 1;
        assert(row_tops(all, model).take(i as int) =~= row_tops(all, model).take(i - 1).push(
            row_tops(all, model)[i - 1],
        ));
    }
    assert(tops@ =~= row_tops(all, model));
    let cv: F32 = row_spacing_cv(&tops);
    if cv.gt(F32::fraction(1, 2)) {
        assert(crate::text::texts(raw@) =~= Seq::new(
            model.len(),
            |i: int| crate::text::trimmed_end(all[model[i].line].text),
        ));
        return Some(TableRun { start: start_idx, end, block: Block::GridFallback { lines: raw } });
    }
    assert(row_texts(model).skip(0) =~= row_texts(model));
    match absorb_header_lines(lines, start_idx, &tracks, floor) {
        Some((top, header)) => {
            let body: Vec<Vec<String>> = collect_row_texts(&rows, 0);
            Some(
                TableRun {
                    start: top,
                    end,
                    block: Block::Table { header: Some(header), rows: body },
                },
            )
        },
        None => {
            if cells_bold(&rows[0].cells) {
                let header: Vec<String> = collect_texts(&rows[0].cells);
                let body: Vec<Vec<String>> = collect_row_texts(&rows, 1);
                Some(
                    TableRun {
                        start: start_idx,
                        end,
                        block: Block::Table { header: Some(header), rows: body },
                    },
                )
            } else {
                let body: Vec<Vec<String>> = collect_row_texts(&rows, 0);
                Some(
                    TableRun {
                        start: start_idx,
                        end,
                        block: Block::Table { header: None, rows: body },
                    },
                )
            }
        },
    }
}

/// Scan `lines` once and return all detected tabular regions (sorted by
/// `start`). Caller uses these as cut-points so the per-line classifier never
/// sees lines inside a table.
pub fn detect_tables(lines: &Vec<ProjectedLine>) -> (r: Vec<TableRun>)
    ensures
        super::blocks::runs_of(r@) == tables_from(crate::types::lines_of(lines@), 0, 0),
{
    let ghost all = crate::types::lines_of(lines@);
    let n: usize = lines.len();
    let mut out: Vec<TableRun> = Vec::new();
    let mut i: usize = 0;
    let mut floor: usize = 0;
    assert(super::blocks::runs_of(out@) =~= Seq::empty());
    assert(Seq::<super::blocks::Run>::empty() + tables_from(all, 0, 0) =~= tables_from(all, 0, 0));
    while i < n
        invariant
            n == lines@.len(),
            i <= n,
            all == crate::types::lines_of(lines@),
            super::blocks::runs_of(out@) + tables_from(all, i as int, floor as int) == tables_from(
                all,
                0,
                0,
            ),
        decreases n - i,
    {
        proof {
            tables_end_after_their_first_row(all, i as int, floor as int);
        }
        match try_detect_table(lines, i, floor) {
            Some(run) => {
                let ghost before = super::blocks::runs_of(out@);
                let ghost rest = tables_from(all, run.end as int, run.end as int);
                floor = run.end;
                i = run.end;
                let ghost model = run@;
                out.push(run);
                assert(super::blocks::runs_of(out@) =~= before.push(model));
                assert(before.push(model) + rest =~= before + (seq![model] + rest));
            },
            None => {
                i = i + 1;
            },
        }
    }
    assert(super::blocks::runs_of(out@) + Seq::<super::blocks::Run>::empty()
        =~= super::blocks::runs_of(out@));
    out
}

proof fn lemma_header_start(
    lines: Seq<crate::types::Line>,
    tracks: Seq<F32>,
    floor: int,
    j: int,
)
    requires
        floor <= j,
    ensures
        floor <= header_start(lines, tracks, floor, j) <= j,
    decreases j - floor,
{
    if j > floor && is_header_line(lines, tracks, j) {
        lemma_header_start(lines, tracks, floor, j - 1);
    }
}

/// The tables lie within the lines from the floor on, in order, and do not overlap.
pub proof fn detected_tables_are_in_order(
    lines: Seq<crate::types::Line>,
    i: int,
    floor: int,
)
    requires
        0 <= floor <= i,
    ensures
        forall|k: int|
            0 <= k < tables_from(lines, i, floor).len() ==> floor <= (#[trigger] tables_from(
                lines,
                i,
                floor,
            )[k]).start < tables_from(lines, i, floor)[k].end <= lines.len(),
        forall|k: int, l: int|
            0 <= k < l < tables_from(lines, i, floor).len() ==> (#[trigger] tables_from(
                lines,
                i,
                floor,
            )[k]).end <= (#[trigger] tables_from(lines, i, floor)[l]).start,
    decreases lines.len() - i,
{
    if i < lines.len() {
        tables_end_after_their_first_row(lines, i, floor);
        match table_at(lines, i, floor) {
            Some(run) => {
                detected_tables_are_in_order(lines, run.end, run.end);
                let rest = tables_from(lines, run.end, run.end);
                let all = tables_from(lines, i, floor);
                assert(floor <= run.start <= i) by {
                    reveal(table_at);
                    let first = super::cells::cells_in(lines[i]);
                    lemma_header_start(lines, starts(first), floor, i);
                }
                assert(all =~= seq![run] + rest);
                assert forall|k: int| 0 <= k < all.len() implies floor <= (#[trigger] all[k]).start
                    < all[k].end <= lines.len() by {
                    if k > 0 {
                        assert(all[k] == rest[k - 1]);
                    }
                }
                assert forall|k: int, l: int| 0 <= k < l < all.len() implies (#[trigger] all[k]).end
                    <= (#[trigger] all[l]).start by {
                    assert(all[l] == rest[l - 1]);
                    if k > 0 {
                        assert(all[k] == rest[k - 1]);
                    }
                }
            },
            None => {
                detected_tables_are_in_order(lines, i + 1, floor);
            },
        }
    }
}

proof fn lemma_grown_well_formed(
    lines: Seq<crate::types::Line>,
    tracks: Seq<F32>,
    rows: Seq<Row>,
    j: int,
)
    requires
        well_formed_rows(rows, tracks, j),
        j >= 0,
    ensures
        well_formed_rows(
            grown_rows(lines, tracks, rows, j).0,
            tracks,
            grown_rows(lines, tracks, rows, j).1,
        ),
    decreases lines.len() - j,
{
    if j < lines.len() {
        lemma_joined_well_formed(lines, tracks, rows, j);
        if let Some(more) = joined_rows(lines, tracks, rows, j) {
            lemma_grown_well_formed(lines, tracks, more, j + 1);
        }
    }
}

proof fn lemma_closest_track(cell: super::cells::Cell, tracks: Seq<F32>)
    ensures
        closest_track(cell, tracks) matches Some(k) ==> 0 <= k < tracks.len(),
    decreases tracks.len(),
{
    if tracks.len() > 0 {
        lemma_closest_track(cell, tracks.drop_last());
    }
}

proof fn lemma_header_cells_len(
    header: Seq<Seq<char>>,
    cells: Seq<super::cells::Cell>,
    tracks: Seq<F32>,
)
    requires
        header.len() == tracks.len(),
    ensures
        with_header_cells(header, cells, tracks).len() == tracks.len(),
    decreases cells.len(),
{
    if cells.len() > 0 {
        lemma_closest_track(cells.last(), tracks);
        lemma_header_cells_len(header, cells.drop_last(), tracks);
    }
}

proof fn lemma_header_texts_len(
    lines: Seq<crate::types::Line>,
    tracks: Seq<F32>,
    top: int,
    end: int,
)
    ensures
        header_texts(lines, tracks, top, end).len() == tracks.len(),
    decreases end - top,
{
    if end > top {
        lemma_header_texts_len(lines, tracks, top, end - 1);
        lemma_header_cells_len(
            header_texts(lines, tracks, top, end - 1),
            super::cells::cells_in(lines[end - 1]),
            tracks,
        );
    }
}

/// The header and every row of a table have one text for each cell of the line that the table
/// was found at, which are at least three; and there is a row.
pub proof fn detected_tables_are_rectangular(
    lines: Seq<crate::types::Line>,
    start: int,
    floor: int,
)
    requires
        0 <= start < lines.len(),
    ensures
        table_at(lines, start, floor) matches Some(run) ==> (run.block matches super::blocks::Content::Table {
            header,
            rows,
        } ==> {
            &&& super::cells::cells_in(lines[start]).len() >= TABLE_MIN_COLUMNS
            &&& rows.len() > 0
            &&& header matches Some(h) ==> h.len() == super::cells::cells_in(lines[start]).len()
            &&& forall|i: int|
                0 <= i < rows.len() ==> (#[trigger] rows[i]).len() == super::cells::cells_in(
                    lines[start],
                ).len()
        }),
{
    reveal(table_at);
    let first = super::cells::cells_in(lines[start]);
    let tracks = starts(first);
    let row = Row { line: start, cells: first };
    lemma_grown_well_formed(lines, tracks, seq![row], start + 1);
    let top = header_start(lines, tracks, floor, start);
    lemma_header_texts_len(lines, tracks, top, start);
    let (rows, end) = grown_rows(lines, tracks, seq![row], start + 1);
    assert forall|i: int| 0 <= i < rows.len() implies (#[trigger] row_texts(rows)[i]).len()
        == first.len() by {
        assert(rows[i].cells.len() == tracks.len());
    }
    if rows.len() > 0 {
        assert(rows[0].cells.len() == tracks.len());
    }
}

/// Whether a cell starts within six points of a track.
pub open spec fn is_near(cell: super::cells::Cell, track: F32) -> bool {
    cell.start_x.minus(track).absolute().at_most(F32::from_nat(6))
}

/// Whether a cell starts near one of the tracks.
pub open spec fn is_near_one(cell: super::cells::Cell, tracks: Seq<F32>) -> bool {
    exists|k: int| 0 <= k < tracks.len() && is_near(cell, #[trigger] tracks[k])
}

/// Whether the `c`th track is the first one that a cell starts near.
pub open spec fn starts_at(cell: super::cells::Cell, tracks: Seq<F32>, c: int) -> bool {
    &&& 0 <= c < tracks.len()
    &&& is_near(cell, tracks[c])
    &&& forall|i: int| 0 <= i < c ==> !is_near(cell, #[trigger] tracks[i])
}

/// Whether the `c`th track is, of those that a cell starts near, the closest, and the first one
/// that is as close.
pub open spec fn starts_closest_to(cell: super::cells::Cell, tracks: Seq<F32>, c: int) -> bool {
    &&& 0 <= c < tracks.len()
    &&& is_near(cell, tracks[c])
    &&& forall|i: int|
        0 <= i < tracks.len() && is_near(cell, #[trigger] tracks[i]) ==> {
            let distance = cell.start_x.minus(tracks[c]).absolute();
            let other = cell.start_x.minus(tracks[i]).absolute();
            distance.at_most(other) && (i < c ==> distance.less(other))
        }
}

/// A wrapped cell goes to the first track that it starts near, and to none where there is no such
/// track.
pub proof fn wrapped_cells_go_to_their_track(cell: super::cells::Cell, tracks: Seq<F32>)
    ensures
        forall|c: int| first_track(cell, tracks) == Some(c) <==> #[trigger] starts_at(cell, tracks, c),
        first_track(cell, tracks) is Some <==> exists|c: int|
            0 <= c < tracks.len() && is_near(cell, #[trigger] tracks[c]),
    decreases tracks.len(),
{
    lemma_first_track(cell, tracks);
    if tracks.len() > 0 {
        let before = tracks.drop_last();
        wrapped_cells_go_to_their_track(cell, before);
        match first_track(cell, before) {
            Some(k) => {
                assert(starts_at(cell, before, k));
                assert(before[k] == tracks[k]);
                assert(starts_at(cell, tracks, k)) by {
                    assert forall|i: int| 0 <= i < k implies !is_near(cell, #[trigger] tracks[i]) by {
                        assert(before[i] == tracks[i]);
                    }
                }
            },
            None => {
                assert forall|i: int| 0 <= i < tracks.len() - 1 implies !is_near(
                    cell,
                    #[trigger] tracks[i],
                ) by {
                    assert(before[i] == tracks[i]);
                }
            },
        }
    }
    assert forall|c: int| first_track(cell, tracks) == Some(c) <==> #[trigger] starts_at(
        cell,
        tracks,
        c,
    ) by {
        if let Some(k) = first_track(cell, tracks) {
            assert(starts_at(cell, tracks, k));
            if starts_at(cell, tracks, c) {
                assert(is_near(cell, tracks[c]));
                assert(is_near(cell, tracks[k]));
            }
        }
    }
}

/// A header cell goes to the closest of the tracks that it starts near, and to none where there
/// is no such track.
pub proof fn header_cells_go_to_the_closest_track(cell: super::cells::Cell, tracks: Seq<F32>)
    ensures
        forall|c: int|
            closest_track(cell, tracks) == Some(c) <==> #[trigger] starts_closest_to(
                cell,
                tracks,
                c,
            ),
        closest_track(cell, tracks) is Some <==> exists|c: int|
            0 <= c < tracks.len() && is_near(cell, #[trigger] tracks[c]),
    decreases tracks.len(),
{
    lemma_closest_track(cell, tracks);
    if tracks.len() > 0 {
        let before = tracks.drop_last();
        let n = tracks.len() - 1;
        header_cells_go_to_the_closest_track(cell, before);
        assert forall|i: int| 0 <= i < n implies #[trigger] before[i] == tracks[i] by {}
        match closest_track(cell, before) {
            Some(k) => {
                assert(starts_closest_to(cell, before, k));
                let best = closest_track(cell, tracks)->0;
                assert forall|i: int| 0 <= i < tracks.len() && is_near(
                    cell,
                    #[trigger] tracks[i],
                ) implies {
                    let distance = cell.start_x.minus(tracks[best]).absolute();
                    let other = cell.start_x.minus(tracks[i]).absolute();
                    distance.at_most(other) && (i < best ==> distance.less(other))
                } by {
                    if i < n {
                        assert(before[i] == tracks[i]);
                        assert(is_near(cell, before[i]));
                    }
                }
                assert(starts_closest_to(cell, tracks, best));
            },
            None => {
                assert forall|i: int| 0 <= i < n implies !is_near(cell, #[trigger] tracks[i]) by {
                    assert(before[i] == tracks[i]);
                }
                if on_track(cell, tracks.last()) {
                    assert(starts_closest_to(cell, tracks, n));
                }
            },
        }
    }
    assert forall|c: int| closest_track(cell, tracks) == Some(c) <==> #[trigger] starts_closest_to(
        cell,
        tracks,
        c,
    ) by {
        if let Some(k) = closest_track(cell, tracks) {
            assert(starts_closest_to(cell, tracks, k));
            if starts_closest_to(cell, tracks, c) {
                assert(is_near(cell, tracks[c]));
                assert(is_near(cell, tracks[k]));
            }
        }
    }
}

/// The texts of those of the cells that start at the `c`th track, in order.
pub open spec fn texts_at(cells: Seq<super::cells::Cell>, tracks: Seq<F32>, c: int) -> Seq<
    Seq<char>,
> {
    super::cells::cell_texts(cells.filter(|cell: super::cells::Cell| starts_at(cell, tracks, c)))
}

/// The texts of those of the cells that start closest to the `c`th track, in order.
pub open spec fn texts_closest_to(cells: Seq<super::cells::Cell>, tracks: Seq<F32>, c: int) -> Seq<
    Seq<char>,
> {
    super::cells::cell_texts(
        cells.filter(|cell: super::cells::Cell| starts_closest_to(cell, tracks, c)),
    )
}

/// The texts of the `c`th column of a row that takes up the lines from `from` up to `end`: that of
/// the `c`th cell of its first line, and behind it those of the cells of the other lines that
/// start at the `c`th track, line by line.
pub open spec fn column_texts(
    lines: Seq<crate::types::Line>,
    tracks: Seq<F32>,
    c: int,
    from: int,
    end: int,
) -> Seq<Seq<char>>
    decreases end - from,
{
    if end <= from + 1 {
        seq![row_cells(lines[from], tracks)[c].text]
    } else {
        column_texts(lines, tracks, c, from, end - 1) + texts_at(
            row_cells(lines[end - 1], tracks),
            tracks,
            c,
        )
    }
}

/// The texts of the cells of the header lines from `from` up to `end` that start closest to the
/// `c`th track, line by line.
pub open spec fn header_column_texts(
    lines: Seq<crate::types::Line>,
    tracks: Seq<F32>,
    c: int,
    from: int,
    end: int,
) -> Seq<Seq<char>>
    decreases end - from,
{
    if end <= from {
        Seq::empty()
    } else {
        header_column_texts(lines, tracks, c, from, end - 1) + texts_closest_to(
            super::cells::cells_in(lines[end - 1]),
            tracks,
            c,
        )
    }
}

proof fn lemma_wrapped_texts(
    cells: Seq<super::cells::Cell>,
    wrapped: Seq<super::cells::Cell>,
    tracks: Seq<F32>,
    c: int,
    parts: Seq<Seq<char>>,
)
    requires
        cells.len() == tracks.len(),
        0 <= c < cells.len(),
        cells[c].text == crate::text::joined_shown(parts),
    ensures
        with_wrapped(cells, wrapped, tracks)[c].text == crate::text::joined_shown(
            parts + texts_at(wrapped, tracks, c),
        ),
    decreases wrapped.len(),
{
    reveal(Seq::filter);
    let there = texts_at(wrapped, tracks, c);
    if wrapped.len() == 0 {
        assert(parts + there =~= parts);
    } else {
        let cell = wrapped.last();
        let before = texts_at(wrapped.drop_last(), tracks, c);
        let now = with_wrapped(cells, wrapped.drop_last(), tracks);
        lemma_wrapped_texts(cells, wrapped.drop_last(), tracks, c, parts);
        lemma_with_wrapped_len(cells, wrapped.drop_last(), tracks);
        wrapped_cells_go_to_their_track(cell, tracks);
        lemma_first_track(cell, tracks);
        if starts_at(cell, tracks, c) {
            assert(there =~= before.push(cell.text));
            assert(parts + there =~= (parts + before).push(cell.text));
            crate::text::joining_one_more(parts + before, cell.text);
            assert(now[c].text.push(' ') =~= now[c].text + seq![' ']);
        } else {
            assert(there =~= before);
        }
    }
}

proof fn lemma_header_cell_texts(
    header: Seq<Seq<char>>,
    cells: Seq<super::cells::Cell>,
    tracks: Seq<F32>,
    c: int,
    parts: Seq<Seq<char>>,
)
    requires
        header.len() == tracks.len(),
        0 <= c < header.len(),
        header[c] == crate::text::joined_shown(parts),
    ensures
        with_header_cells(header, cells, tracks)[c] == crate::text::joined_shown(
            parts + texts_closest_to(cells, tracks, c),
        ),
    decreases cells.len(),
{
    reveal(Seq::filter);
    let there = texts_closest_to(cells, tracks, c);
    if cells.len() == 0 {
        assert(parts + there =~= parts);
    } else {
        let cell = cells.last();
        let before = texts_closest_to(cells.drop_last(), tracks, c);
        let now = with_header_cells(header, cells.drop_last(), tracks);
        lemma_header_cell_texts(header, cells.drop_last(), tracks, c, parts);
        lemma_header_cells_len(header, cells.drop_last(), tracks);
        header_cells_go_to_the_closest_track(cell, tracks);
        lemma_closest_track(cell, tracks);
        if starts_closest_to(cell, tracks, c) {
            assert(there =~= before.push(cell.text));
            assert(parts + there =~= (parts + before).push(cell.text));
            crate::text::joining_one_more(parts + before, cell.text);
            assert(now[c].push(' ') =~= now[c] + seq![' ']);
        } else {
            assert(there =~= before);
        }
    }
}

/// Each text of an absorbed header joins the texts of the cells of the header lines that start
/// closest to its track, line by line.
pub proof fn headers_join_the_closest_cells(
    lines: Seq<crate::types::Line>,
    tracks: Seq<F32>,
    top: int,
    end: int,
    c: int,
)
    requires
        0 <= c < tracks.len(),
    ensures
        header_texts(lines, tracks, top, end).len() == tracks.len(),
        header_texts(lines, tracks, top, end)[c] == crate::text::joined_shown(
            header_column_texts(lines, tracks, c, top, end),
        ),
    decreases end - top,
{
    lemma_header_texts_len(lines, tracks, top, end);
    if end <= top {
        reveal(Seq::filter);
        let none = Seq::<Seq<char>>::empty();
        assert(none.filter(|t: Seq<char>| t.len() > 0) =~= none);
    } else {
        headers_join_the_closest_cells(lines, tracks, top, end - 1, c);
        lemma_header_cell_texts(
            header_texts(lines, tracks, top, end - 1),
            super::cells::cells_in(lines[end - 1]),
            tracks,
            c,
            header_column_texts(lines, tracks, c, top, end - 1),
        );
    }
}

/// The line after the last one of the `i`th row, of those that start on the given lines; the rows
/// end before `end`.
pub open spec fn row_end(firsts: Seq<int>, i: int, end: int) -> int {
    if i + 1 < firsts.len() {
        firsts[i + 1]
    } else {
        end
    }
}

/// Whether the rows take up the lines from the first row's start up to `end`, one row after the
/// other: each starts on a line that has one cell for each track, and the text of each of its
/// columns joins what its lines hold there, where each cell of its further lines starts near a
/// track.
pub open spec fn rows_take_up(
    texts: Seq<Seq<Seq<char>>>,
    firsts: Seq<int>,
    lines: Seq<crate::types::Line>,
    tracks: Seq<F32>,
    end: int,
) -> bool {
    &&& texts.len() == firsts.len()
    &&& forall|i: int| 0 <= i < firsts.len() ==> firsts[i] < #[trigger] row_end(firsts, i, end)
    &&& forall|i: int|
        0 <= i < firsts.len() ==> (#[trigger] texts[i]).len() == tracks.len() && row_cells(
            lines[firsts[i]],
            tracks,
        ).len() == tracks.len()
    &&& forall|i: int, c: int|
        #![trigger texts[i][c]]
        0 <= i < firsts.len() && 0 <= c < tracks.len() ==> texts[i][c]
            == crate::text::joined_shown(
            column_texts(lines, tracks, c, firsts[i], row_end(firsts, i, end)),
        )
    &&& forall|i: int, j: int, k: int|
        #![trigger firsts[i], row_cells(lines[j], tracks)[k]]
        0 <= i < firsts.len() && firsts[i] < j < row_end(firsts, i, end) && 0 <= k < row_cells(
            lines[j],
            tracks,
        ).len() ==> is_near_one(row_cells(lines[j], tracks)[k], tracks)
}

spec fn first_lines(rows: Seq<Row>) -> Seq<int> {
    Seq::new(rows.len(), |i: int| rows[i].line)
}

#[verifier::rlimit(30)]
proof fn lemma_continued_take_up(
    lines: Seq<crate::types::Line>,
    tracks: Seq<F32>,
    rows: Seq<Row>,
    j: int,
    more: Seq<Row>,
)
    requires
        well_formed_rows(rows, tracks, j),
        rows_take_up(row_texts(rows), first_lines(rows), lines, tracks, j),
        all_aligned(row_cells(lines[j], tracks), tracks),
        more == rows.drop_last().push(
            Row {
                line: rows.last().line,
                cells: with_wrapped(rows.last().cells, row_cells(lines[j], tracks), tracks),
            },
        ),
    ensures
        rows_take_up(row_texts(more), first_lines(more), lines, tracks, j + 1),
{
    let n = rows.len() as int;
    let cells = row_cells(lines[j], tracks);
    let last = rows.last();
    let firsts = first_lines(rows);
    let (was, now) = (row_texts(rows), row_texts(more));
    assert(rows[n - 1].cells.len() == tracks.len());
    lemma_with_wrapped_len(last.cells, cells, tracks);
    assert(first_lines(more) =~= firsts);
    assert forall|i: int| 0 <= i < n - 1 implies #[trigger] row_end(firsts, i, j + 1) == row_end(
        firsts,
        i,
        j,
    ) by {}
    assert(row_end(firsts, n - 1, j) == j);
    assert(row_end(firsts, n - 1, j + 1) == j + 1);
    assert forall|i: int| 0 <= i < n - 1 implies #[trigger] now[i] == was[i] by {}
    assert forall|i: int| 0 <= i < n implies firsts[i] < #[trigger] row_end(firsts, i, j + 1) by {
        assert(firsts[i] < row_end(firsts, i, j));
    }
    assert forall|i: int| 0 <= i < n implies (#[trigger] now[i]).len() == tracks.len()
        && row_cells(lines[firsts[i]], tracks).len() == tracks.len() by {
        assert(was[i].len() == tracks.len());
    }
    assert forall|i: int, c: int|
        #![trigger now[i][c]]
        0 <= i < n && 0 <= c < tracks.len() implies now[i][c] == crate::text::joined_shown(
        column_texts(lines, tracks, c, firsts[i], row_end(firsts, i, j + 1)),
    ) by {
        assert(was[i][c] == crate::text::joined_shown(
            column_texts(lines, tracks, c, firsts[i], row_end(firsts, i, j)),
        ));
        if i == n - 1 {
            assert(firsts[i] < row_end(firsts, i, j));
            lemma_wrapped_texts(
                last.cells,
                cells,
                tracks,
                c,
                column_texts(lines, tracks, c, last.line, j),
            );
        }
    }
    assert forall|i: int, m: int, k: int|
        #![trigger firsts[i], row_cells(lines[m], tracks)[k]]
        0 <= i < n && firsts[i] < m < row_end(firsts, i, j + 1) && 0 <= k < row_cells(
            lines[m],
            tracks,
        ).len() implies is_near_one(row_cells(lines[m], tracks)[k], tracks) by {
        if m == j {
            assert(aligned(cells[k], tracks));
            let c = choose|c: int| 0 <= c < tracks.len() && on_track(cells[k], #[trigger] tracks[c]);
            assert(is_near(cells[k], tracks[c]));
        } else {
            assert(firsts[i] < m < row_end(firsts, i, j));
        }
    }
}

#[verifier::rlimit(30)]
proof fn lemma_started_take_up(
    lines: Seq<crate::types::Line>,
    tracks: Seq<F32>,
    rows: Seq<Row>,
    j: int,
)
    requires
        well_formed_rows(rows, tracks, j),
        rows_take_up(row_texts(rows), first_lines(rows), lines, tracks, j),
        row_cells(lines[j], tracks).len() == tracks.len(),
    ensures
        ({
            let more = rows.push(Row { line: j, cells: row_cells(lines[j], tracks) });
            rows_take_up(row_texts(more), first_lines(more), lines, tracks, j + 1)
        }),
{
    let n = rows.len() as int;
    let cells = row_cells(lines[j], tracks);
    let more = rows.push(Row { line: j, cells });
    let (old, new) = (first_lines(rows), first_lines(more));
    let (was, now) = (row_texts(rows), row_texts(more));
    assert forall|i: int| 0 <= i < n implies #[trigger] new[i] == old[i] by {}
    assert forall|i: int| 0 <= i < n implies #[trigger] row_end(new, i, j + 1) == row_end(
        old,
        i,
        j,
    ) by {}
    assert(row_end(new, n, j + 1) == j + 1);
    assert forall|i: int| 0 <= i < n implies #[trigger] now[i] == was[i] by {}
    assert forall|i: int| 0 <= i < n + 1 implies new[i] < #[trigger] row_end(new, i, j + 1) by {
        if i < n {
            assert(old[i] < row_end(old, i, j));
        }
    }
    assert forall|i: int| 0 <= i < n + 1 implies (#[trigger] now[i]).len() == tracks.len()
        && row_cells(lines[new[i]], tracks).len() == tracks.len() by {
        if i < n {
            assert(was[i].len() == tracks.len());
        }
    }
    assert forall|i: int, c: int|
        #![trigger now[i][c]]
        0 <= i < n + 1 && 0 <= c < tracks.len() implies now[i][c] == crate::text::joined_shown(
        column_texts(lines, tracks, c, new[i], row_end(new, i, j + 1)),
    ) by {
        if i < n {
            assert(was[i][c] == crate::text::joined_shown(
                column_texts(lines, tracks, c, old[i], row_end(old, i, j)),
            ));
        } else {
            crate::text::joining_one_more(Seq::empty(), cells[c].text);
        }
    }
    assert forall|i: int, m: int, k: int|
        #![trigger new[i], row_cells(lines[m], tracks)[k]]
        0 <= i < n + 1 && new[i] < m < row_end(new, i, j + 1) && 0 <= k < row_cells(
            lines[m],
            tracks,
        ).len() implies is_near_one(row_cells(lines[m], tracks)[k], tracks) by {
        assert(i < n);
        assert(old[i] < m < row_end(old, i, j));
    }
}

proof fn lemma_grown_take_up(
    lines: Seq<crate::types::Line>,
    tracks: Seq<F32>,
    rows: Seq<Row>,
    j: int,
)
    requires
        j >= 0,
        well_formed_rows(rows, tracks, j),
        rows_take_up(row_texts(rows), first_lines(rows), lines, tracks, j),
    ensures
        ({
            let (grown, end) = grown_rows(lines, tracks, rows, j);
            rows_take_up(row_texts(grown), first_lines(grown), lines, tracks, end) && first_lines(
                grown,
            )[0] == first_lines(rows)[0]
        }),
    decreases lines.len() - j,
{
    if j < lines.len() {
        lemma_joined_well_formed(lines, tracks, rows, j);
        if let Some(more) = joined_rows(lines, tracks, rows, j) {
            let cells = row_cells(lines[j], tracks);
            if continues_row(lines[rows.last().line], lines[j], cells, tracks) {
                lemma_continued_take_up(lines, tracks, rows, j, more);
            } else {
                lemma_started_take_up(lines, tracks, rows, j);
            }
            lemma_grown_take_up(lines, tracks, more, j + 1);
        }
    }
}

proof fn lemma_table_rows(lines: Seq<crate::types::Line>, start: int)
    requires
        0 <= start < lines.len(),
    ensures
        ({
            let first = super::cells::cells_in(lines[start]);
            let tracks = starts(first);
            let row = Row { line: start, cells: first };
            let (rows, end) = grown_rows(lines, tracks, seq![row], start + 1);
            &&& rows_take_up(row_texts(rows), first_lines(rows), lines, tracks, end)
            &&& first_lines(rows)[0] == start
            &&& well_formed_rows(rows, tracks, end)
        }),
{
    let first = super::cells::cells_in(lines[start]);
    let tracks = starts(first);
    let rows = seq![Row { line: start, cells: first }];
    assert(row_cells(lines[start], tracks) == first);
    let texts = row_texts(rows);
    assert forall|i: int, c: int|
        #![trigger texts[i][c]]
        0 <= i < 1 && 0 <= c < tracks.len() implies texts[i][c] == crate::text::joined_shown(
        column_texts(lines, tracks, c, first_lines(rows)[i], row_end(first_lines(rows), i, start + 1)),
    ) by {
        crate::text::joining_one_more(Seq::empty(), first[c].text);
    }
    lemma_grown_take_up(lines, tracks, rows, start + 1);
    lemma_grown_well_formed(lines, tracks, rows, start + 1);
}

/// A table takes up its lines. The column tracks are where the cells of the line that it was
/// found at start. From this line to the end of the run, each line starts a row or belongs to the
/// row before, and the text of each cell joins what these lines hold in its column: the text of
/// the row's first line there, and behind it those of the wrapped cells. The lines above make up
/// the header, where the run has such lines; each of its texts joins those of the cells that start
/// closest to its track. Else the first row is the header, if all of its cells are bold.
pub proof fn detected_tables_take_up_their_lines(
    lines: Seq<crate::types::Line>,
    start: int,
    floor: int,
)
    requires
        0 <= floor <= start < lines.len(),
    ensures
        table_at(lines, start, floor) matches Some(run) ==> (run.block matches super::blocks::Content::Table {
            header,
            rows,
        } ==> {
            let tracks = starts(super::cells::cells_in(lines[start]));
            let all = super::blocks::rows_with_header(run.block);
            let body = if run.start < start {
                all.skip(1)
            } else {
                all
            };
            &&& floor <= run.start <= start
            &&& run.start < start ==> {
                &&& header is Some && header->0.len() == tracks.len()
                &&& forall|c: int|
                    0 <= c < tracks.len() ==> #[trigger] header->0[c] == crate::text::joined_shown(
                        header_column_texts(lines, tracks, c, run.start, start),
                    )
            }
            &&& exists|firsts: Seq<int>|
                firsts.len() > 0 && firsts[0] == start && rows_take_up(
                    body,
                    firsts,
                    lines,
                    tracks,
                    run.end,
                )
        }),
{
    reveal(table_at);
    let first = super::cells::cells_in(lines[start]);
    let tracks = starts(first);
    let row = Row { line: start, cells: first };
    let (grown, end) = grown_rows(lines, tracks, seq![row], start + 1);
    let top = header_start(lines, tracks, floor, start);
    lemma_header_start(lines, tracks, floor, start);
    lemma_table_rows(lines, start);
    if let Some(run) = table_at(lines, start, floor) {
        if let super::blocks::Content::Table { header, rows } = run.block {
            let all = super::blocks::rows_with_header(run.block);
            let texts = row_texts(grown);
            if top < start {
                lemma_header_texts_len(lines, tracks, top, start);
                assert forall|c: int| 0 <= c < tracks.len() implies #[trigger] header->0[c]
                    == crate::text::joined_shown(
                    header_column_texts(lines, tracks, c, run.start, start),
                ) by {
                    headers_join_the_closest_cells(lines, tracks, top, start, c);
                }
                assert(all.skip(1) =~= texts);
            } else {
                assert(all =~= texts);
            }
            let firsts = first_lines(grown);
            assert(firsts.len() > 0 && firsts[0] == start);
        }
    }
}

/// The text of a cell begins with what the first line of its row holds there.
pub proof fn cells_begin_with_their_first_line(
    lines: Seq<crate::types::Line>,
    tracks: Seq<F32>,
    c: int,
    from: int,
    end: int,
)
    ensures
        row_cells(lines[from], tracks)[c].text.is_prefix_of(
            crate::text::joined_shown(column_texts(lines, tracks, c, from, end)),
        ),
    decreases end - from,
{
    if end <= from + 1 {
        crate::text::joining_one_more(Seq::empty(), row_cells(lines[from], tracks)[c].text);
    } else {
        let before = column_texts(lines, tracks, c, from, end - 1);
        cells_begin_with_their_first_line(lines, tracks, c, from, end - 1);
        lemma_prefix_of_more(before, texts_at(row_cells(lines[end - 1], tracks), tracks, c));
    }
}

proof fn lemma_prefix_of_more(parts: Seq<Seq<char>>, more: Seq<Seq<char>>)
    ensures
        crate::text::joined_shown(parts).is_prefix_of(crate::text::joined_shown(parts + more)),
    decreases more.len(),
{
    if more.len() == 0 {
        assert(parts + more =~= parts);
    } else {
        lemma_prefix_of_more(parts, more.drop_last());
        assert(parts + more =~= (parts + more.drop_last()).push(more.last()));
        crate::text::joining_one_more(parts + more.drop_last(), more.last());
    }
}

/// The texts of the spans of the lines from `from` up to `end`, line by line and from left to
/// right.
pub open spec fn line_texts(lines: Seq<crate::types::Line>, from: int, end: int) -> Seq<
    Seq<Seq<char>>,
> {
    Seq::new(
        (end - from) as nat,
        |k: int| super::cells::span_texts(crate::sorting::sorted(lines[from + k].spans)),
    )
}

/// Whether the cells of the lines are short enough to be counted.
pub open spec fn are_countable_lines(lines: Seq<crate::types::Line>) -> bool {
    forall|k: int|
        0 <= k < lines.len() ==> super::recover::are_countable(
            super::cells::cells_in(#[trigger] lines[k]),
        )
}

proof fn lemma_line_amounts(
    lines: Seq<crate::types::Line>,
    tracks: Seq<F32>,
    from: int,
    j: int,
)
    requires
        are_countable_lines(lines),
        0 <= from <= j < lines.len(),
    ensures
        crate::text::row_amounts(line_texts(lines, from, j + 1)) == crate::text::row_amounts(
            line_texts(lines, from, j),
        ).add(crate::text::ink_amounts(cell_texts(row_cells(lines[j], tracks)))),
        crate::text::ink_amounts(cell_texts(row_cells(lines[j], tracks)))
            == crate::text::ink_amounts(cell_texts(super::cells::cells_in(lines[j]))),
{
    let cells = super::cells::cells_in(lines[j]);
    let more = line_texts(lines, from, j + 1);
    assert(more.drop_last() =~= line_texts(lines, from, j));
    assert(more.last() == super::cells::span_texts(crate::sorting::sorted(lines[j].spans)));
    super::cells::cells_keep_the_ink(lines[j]);
    super::recover::recovery_keeps_the_ink(cells, tracks);
    assert(cell_texts(cells) =~= super::cells::cell_texts(cells));
    let split = row_cells(lines[j], tracks);
    assert(cell_texts(split) =~= super::cells::cell_texts(split));
}

proof fn lemma_appended_amounts(parts: Seq<Seq<char>>, k: int, text: Seq<char>)
    requires
        0 <= k < parts.len(),
    ensures
        crate::text::ink_amounts(parts.update(k, appended(parts[k], text)))
            == crate::text::ink_amounts(parts).add(crate::text::ink_amounts(seq![text])),
{
    let head = parts[k];
    let none = Seq::<char>::empty();
    assert(head.push(' ') + text =~= head + seq![' '] + text);
    assert(head + text =~= head + none + text);
    crate::text::appending_adds_the_ink(parts, k, seq![' '], text);
    crate::text::appending_adds_the_ink(parts, k, none, text);
}

proof fn lemma_wrapped_amounts(
    cells: Seq<super::cells::Cell>,
    wrapped: Seq<super::cells::Cell>,
    tracks: Seq<F32>,
)
    requires
        cells.len() == tracks.len(),
        all_aligned(wrapped, tracks),
    ensures
        crate::text::ink_amounts(cell_texts(with_wrapped(cells, wrapped, tracks)))
            == crate::text::ink_amounts(cell_texts(cells)).add(
            crate::text::ink_amounts(cell_texts(wrapped)),
        ),
    decreases wrapped.len(),
{
    if wrapped.len() == 0 {
        assert(cell_texts(wrapped) =~= Seq::empty());
        assert(crate::text::ink_amounts(cell_texts(wrapped)) =~= vstd::multiset::Multiset::empty())
            by {
            broadcast use vstd::seq_lib::group_to_multiset_ensures;
        }
    } else {
        let (before, cell) = (wrapped.drop_last(), wrapped.last());
        assert(all_aligned(before, tracks)) by {
            assert forall|i: int| 0 <= i < before.len() implies aligned(
                #[trigger] before[i],
                tracks,
            ) by {
                assert(aligned(wrapped[i], tracks));
            }
        }
        lemma_wrapped_amounts(cells, before, tracks);
        let now = with_wrapped(cells, before, tracks);
        lemma_with_wrapped_len(cells, before, tracks);
        wrapped_cells_go_to_their_track(cell, tracks);
        lemma_first_track(cell, tracks);
        assert(aligned(wrapped[wrapped.len() - 1], tracks));
        let c = choose|c: int| 0 <= c < tracks.len() && on_track(cell, #[trigger] tracks[c]);
        assert(is_near(cell, tracks[c]));
        let k = first_track(cell, tracks)->0;
        lemma_appended_amounts(cell_texts(now), k, cell.text);
        assert(cell_texts(with_wrapped(cells, wrapped, tracks)) =~= cell_texts(now).update(
            k,
            appended(cell_texts(now)[k], cell.text),
        ));
        assert(cell_texts(wrapped) =~= cell_texts(before) + seq![cell.text]);
        crate::text::amounts_add_up(cell_texts(before), seq![cell.text]);
        assert(crate::text::ink_amounts(cell_texts(with_wrapped(cells, wrapped, tracks)))
            =~= crate::text::ink_amounts(cell_texts(cells)).add(
            crate::text::ink_amounts(cell_texts(wrapped)),
        ));
    }
}

proof fn lemma_header_amounts(
    header: Seq<Seq<char>>,
    cells: Seq<super::cells::Cell>,
    tracks: Seq<F32>,
)
    requires
        header.len() == tracks.len(),
        all_aligned(cells, tracks),
    ensures
        crate::text::ink_amounts(with_header_cells(header, cells, tracks))
            == crate::text::ink_amounts(header).add(
            crate::text::ink_amounts(cell_texts(cells)),
        ),
    decreases cells.len(),
{
    if cells.len() == 0 {
        assert(cell_texts(cells) =~= Seq::empty());
        assert(crate::text::ink_amounts(cell_texts(cells)) =~= vstd::multiset::Multiset::empty())
            by {
            broadcast use vstd::seq_lib::group_to_multiset_ensures;
        }
    } else {
        let (before, cell) = (cells.drop_last(), cells.last());
        assert(all_aligned(before, tracks)) by {
            assert forall|i: int| 0 <= i < before.len() implies aligned(
                #[trigger] before[i],
                tracks,
            ) by {
                assert(aligned(cells[i], tracks));
            }
        }
        lemma_header_amounts(header, before, tracks);
        let now = with_header_cells(header, before, tracks);
        lemma_header_cells_len(header, before, tracks);
        header_cells_go_to_the_closest_track(cell, tracks);
        lemma_closest_track(cell, tracks);
        assert(aligned(cells[cells.len() - 1], tracks));
        let c = choose|c: int| 0 <= c < tracks.len() && on_track(cell, #[trigger] tracks[c]);
        assert(is_near(cell, tracks[c]));
        let k = closest_track(cell, tracks)->0;
        lemma_appended_amounts(now, k, cell.text);
        assert(cell_texts(cells) =~= cell_texts(before) + seq![cell.text]);
        crate::text::amounts_add_up(cell_texts(before), seq![cell.text]);
        assert(crate::text::ink_amounts(with_header_cells(header, cells, tracks))
            =~= crate::text::ink_amounts(header).add(
            crate::text::ink_amounts(cell_texts(cells)),
        ));
    }
}

proof fn lemma_grown_amounts(
    lines: Seq<crate::types::Line>,
    tracks: Seq<F32>,
    rows: Seq<Row>,
    from: int,
    j: int,
)
    requires
        0 <= from <= j <= lines.len(),
        are_countable_lines(lines),
        well_formed_rows(rows, tracks, j),
        crate::text::row_amounts(row_texts(rows)) == crate::text::row_amounts(
            line_texts(lines, from, j),
        ),
    ensures
        ({
            let (grown, end) = grown_rows(lines, tracks, rows, j);
            crate::text::row_amounts(row_texts(grown)) == crate::text::row_amounts(
                line_texts(lines, from, end),
            )
        }),
    decreases lines.len() - j,
{
    if j < lines.len() {
        lemma_joined_well_formed(lines, tracks, rows, j);
        lemma_line_amounts(lines, tracks, from, j);
        if let Some(more) = joined_rows(lines, tracks, rows, j) {
            let cells = row_cells(lines[j], tracks);
            let last = rows.last();
            let texts = row_texts(rows);
            assert(rows[rows.len() - 1].cells.len() == tracks.len());
            if continues_row(lines[last.line], lines[j], cells, tracks) {
                lemma_wrapped_amounts(last.cells, cells, tracks);
                assert(row_texts(more).drop_last() =~= texts.drop_last());
                assert(crate::text::row_amounts(row_texts(more)) =~= crate::text::row_amounts(
                    texts,
                ).add(crate::text::ink_amounts(cell_texts(cells))));
            } else {
                assert(row_texts(more).drop_last() =~= texts);
            }
            lemma_grown_amounts(lines, tracks, more, from, j + 1);
        }
    }
}

proof fn lemma_header_lines_amounts(
    lines: Seq<crate::types::Line>,
    tracks: Seq<F32>,
    top: int,
    end: int,
)
    requires
        0 <= top <= end < lines.len(),
        are_countable_lines(lines),
        forall|j: int|
            top <= j < end ==> all_aligned(super::cells::cells_in(#[trigger] lines[j]), tracks),
    ensures
        crate::text::ink_amounts(header_texts(lines, tracks, top, end))
            == crate::text::row_amounts(line_texts(lines, top, end)),
    decreases end - top,
{
    if end == top {
        let none = header_texts(lines, tracks, top, end);
        lemma_no_ink(none);
        assert(line_texts(lines, top, end) =~= Seq::empty());
        assert(crate::text::ink_amounts(none) =~= vstd::multiset::Multiset::empty()) by {
            broadcast use vstd::seq_lib::group_to_multiset_ensures;
        }
    } else {
        lemma_header_lines_amounts(lines, tracks, top, end - 1);
        lemma_header_texts_len(lines, tracks, top, end - 1);
        assert(all_aligned(super::cells::cells_in(lines[end - 1]), tracks));
        lemma_header_amounts(
            header_texts(lines, tracks, top, end - 1),
            super::cells::cells_in(lines[end - 1]),
            tracks,
        );
        lemma_line_amounts(lines, tracks, top, end - 1);
    }
}

proof fn lemma_no_ink(parts: Seq<Seq<char>>)
    requires
        forall|i: int| 0 <= i < parts.len() ==> (#[trigger] parts[i]).len() == 0,
    ensures
        crate::text::all_ink(parts) == Seq::<char>::empty(),
    decreases parts.len(),
{
    if parts.len() > 0 {
        let before = parts.drop_last();
        assert forall|i: int| 0 <= i < before.len() implies (#[trigger] before[i]).len() == 0 by {
            assert(parts[i].len() == 0);
        }
        lemma_no_ink(before);
        assert(parts[parts.len() - 1].len() == 0);
        crate::text::blank_texts_have_no_ink(parts.last());
        assert(crate::text::all_ink(parts) =~= Seq::<char>::empty());
    }
}

proof fn lemma_header_start_aligned(
    lines: Seq<crate::types::Line>,
    tracks: Seq<F32>,
    floor: int,
    j: int,
)
    requires
        floor <= j,
    ensures
        forall|k: int|
            header_start(lines, tracks, floor, j) <= k < j ==> all_aligned(
                super::cells::cells_in(#[trigger] lines[k]),
                tracks,
            ),
    decreases j - floor,
{
    if j > floor && is_header_line(lines, tracks, j) {
        lemma_header_start_aligned(lines, tracks, floor, j - 1);
    }
}

proof fn lemma_body_amounts(lines: Seq<crate::types::Line>, start: int)
    requires
        0 <= start < lines.len(),
        are_countable_lines(lines),
    ensures
        ({
            let first = super::cells::cells_in(lines[start]);
            let row = Row { line: start, cells: first };
            let (grown, end) = grown_rows(lines, starts(first), seq![row], start + 1);
            crate::text::row_amounts(row_texts(grown)) == crate::text::row_amounts(
                line_texts(lines, start, end),
            )
        }),
{
    let first = super::cells::cells_in(lines[start]);
    let tracks = starts(first);
    let rows = seq![Row { line: start, cells: first }];
    lemma_line_amounts(lines, tracks, start, start);
    assert(row_texts(rows) =~= seq![cell_texts(first)]);
    crate::text::single_row_amounts(cell_texts(first));
    assert(line_texts(lines, start, start) =~= Seq::empty());
    assert(crate::text::row_amounts(row_texts(rows)) =~= crate::text::row_amounts(
        line_texts(lines, start, start + 1),
    ));
    lemma_grown_amounts(lines, tracks, rows, start, start + 1);
}

proof fn lemma_headed_amounts(
    lines: Seq<crate::types::Line>,
    tracks: Seq<F32>,
    texts: Seq<Seq<Seq<char>>>,
    top: int,
    start: int,
    end: int,
)
    requires
        0 <= top <= start < lines.len(),
        start <= end,
        are_countable_lines(lines),
        forall|j: int|
            top <= j < start ==> all_aligned(super::cells::cells_in(#[trigger] lines[j]), tracks),
        crate::text::row_amounts(texts) == crate::text::row_amounts(line_texts(lines, start, end)),
    ensures
        crate::text::row_amounts(seq![header_texts(lines, tracks, top, start)] + texts)
            == crate::text::row_amounts(line_texts(lines, top, end)),
{
    let header = header_texts(lines, tracks, top, start);
    crate::text::row_amounts_add_up(seq![header], texts);
    crate::text::single_row_amounts(header);
    lemma_header_lines_amounts(lines, tracks, top, start);
    crate::text::row_amounts_add_up(line_texts(lines, top, start), line_texts(lines, start, end));
    assert(line_texts(lines, top, end) =~= line_texts(lines, top, start) + line_texts(
        lines,
        start,
        end,
    ));
}

/// A table keeps all that its lines show: the header and the rows together hold, apart from white
/// space, exactly the characters of the lines from the start of the run to its end, each as often.
pub proof fn detected_tables_keep_the_ink(
    lines: Seq<crate::types::Line>,
    start: int,
    floor: int,
)
    requires
        0 <= floor <= start < lines.len(),
        are_countable_lines(lines),
    ensures
        table_at(lines, start, floor) matches Some(run) ==> (run.block is Table
            ==> crate::text::row_amounts(super::blocks::rows_with_header(run.block))
            == crate::text::row_amounts(line_texts(lines, run.start, run.end))),
{
    reveal(table_at);
    let first = super::cells::cells_in(lines[start]);
    let tracks = starts(first);
    let rows = seq![Row { line: start, cells: first }];
    let (grown, end) = grown_rows(lines, tracks, rows, start + 1);
    let top = header_start(lines, tracks, floor, start);
    lemma_header_start(lines, tracks, floor, start);
    lemma_header_start_aligned(lines, tracks, floor, start);
    lemma_grown_rows(lines, tracks, rows, start + 1);
    lemma_body_amounts(lines, start);
    lemma_headed_amounts(lines, tracks, row_texts(grown), top, start, end);
    if let Some(run) = table_at(lines, start, floor) {
        if run.block is Table {
            let all = super::blocks::rows_with_header(run.block);
            if top < start {
                let header = header_texts(lines, tracks, top, start);
                assert(all =~= seq![header] + row_texts(grown));
            } else {
                assert(all =~= row_texts(grown));
            }
        }
    }
}

/// On whole points, two lines can be rows of one table if the gap between them is at most two and a
/// half times as high as the higher of them, and they overlap at most by that height, which counts
/// as one point at least.
pub proof fn adjacent_rows_are_close(
    prev: crate::types::Line,
    cur: crate::types::Line,
    g: crate::types::Frame,
    h: crate::types::Frame,
)
    requires
        prev.bbox.is_framed(g),
        cur.bbox.is_framed(h),
    ensures
        ({
            let height = crate::types::most(
                crate::types::most(g.bottom - g.top, h.bottom - h.top),
                1,
            );
            rows_adjacent(prev, cur) <==> -height <= h.top - g.bottom && 2 * (h.top - g.bottom) <= 5
                * height
        }),
{
    let one = F32::from_nat(1);
    let (a, b) = (g.bottom - g.top, h.bottom - h.top);
    let n = crate::types::most(crate::types::most(a, b), 1);
    let d = h.top - g.bottom;
    crate::types::framed_edges(prev.bbox, g);
    crate::float::exact::naturals_are_whole(1);
    crate::float::exact::halves_are_exact();
    let gap = cur.bbox.y.minus(prev.bbox.bottom());
    crate::float::exact::whole_difference(cur.bbox.y, prev.bbox.bottom(), h.top, g.bottom);
    crate::float::exact::measured_extremes(prev.bbox.height, cur.bbox.height, 256 * a, 256 * b);
    let higher = prev.bbox.height.greater(cur.bbox.height);
    crate::float::exact::measured_extremes(higher, one, 256 * crate::types::most(a, b), 256);
    let height = higher.greater(one);
    crate::float::exact::measured_negation(height, 256 * n);
    crate::float::exact::measured_product(height, F32::ratio(5, 2), 256 * n, 640, 640 * n);
    crate::float::exact::measures_are_ordered(height.negated(), gap, -(256 * n), 256 * d);
    crate::float::exact::measures_are_ordered(gap, height.times(F32::ratio(5, 2)), 256 * d, 640 * n);
}

/// On whole points, cells continue the row before if there are some, but fewer than tracks, their
/// line starts at most one and a half of its height below the start of that row, and each cell
/// starts near a track.
pub proof fn continued_rows_are_close(
    prev: crate::types::Line,
    cur: crate::types::Line,
    cells: Seq<super::cells::Cell>,
    tracks: Seq<F32>,
    g: crate::types::Frame,
    h: crate::types::Frame,
)
    requires
        prev.bbox.is_framed(g),
        cur.bbox.is_framed(h),
    ensures
        continues_row(prev, cur, cells, tracks) <==> {
            &&& 0 < cells.len() < tracks.len()
            &&& 2 * (h.top - g.top) <= 3 * crate::types::most(h.bottom - h.top, 1)
            &&& forall|i: int| 0 <= i < cells.len() ==> is_near_one(#[trigger] cells[i], tracks)
        },
{
    let one = F32::from_nat(1);
    let b = h.bottom - h.top;
    let n = crate::types::most(b, 1);
    let d = h.top - g.top;
    crate::float::exact::naturals_are_whole(1);
    crate::float::exact::halves_are_exact();
    let drop = cur.bbox.y.minus(prev.bbox.y);
    crate::float::exact::whole_difference(cur.bbox.y, prev.bbox.y, h.top, g.top);
    crate::float::exact::measured_extremes(cur.bbox.height, one, 256 * b, 256);
    let height = cur.bbox.height.greater(one);
    crate::float::exact::measured_product(height, F32::ratio(3, 2), 256 * n, 384, 384 * n);
    crate::float::exact::measures_are_ordered(drop, height.times(F32::ratio(3, 2)), 256 * d, 384 * n);
    assert forall|i: int| 0 <= i < cells.len() implies aligned(#[trigger] cells[i], tracks)
        == is_near_one(cells[i], tracks) by {
        if aligned(cells[i], tracks) {
            let k = choose|k: int| 0 <= k < tracks.len() && on_track(cells[i], #[trigger] tracks[k]);
            assert(is_near(cells[i], tracks[k]));
        }
        if is_near_one(cells[i], tracks) {
            let k = choose|k: int| 0 <= k < tracks.len() && is_near(cells[i], #[trigger] tracks[k]);
            assert(on_track(cells[i], tracks[k]));
        }
    }
}

/// On whole points, a cell starts near a track if it starts at most six points from it.
pub proof fn near_cells_start_within_six_points(
    cell: super::cells::Cell,
    track: F32,
    v: int,
    w: int,
)
    requires
        cell.start_x.is_whole(v),
        track.is_whole(w),
        -4096 < v < 4096,
        -4096 < w < 4096,
    ensures
        is_near(cell, track) <==> -6 <= v - w <= 6,
        on_track(cell, track) <==> -6 <= v - w <= 6,
{
    let d = cell.start_x.minus(track);
    crate::float::exact::whole_difference(cell.start_x, track, v, w);
    crate::float::exact::measured_negation(d, 256 * (v - w));
    crate::float::exact::naturals_are_whole(6);
    let m = if v - w < 0 { w - v } else { v - w };
    crate::float::exact::measures_are_ordered(d.absolute(), F32::from_nat(6), 256 * m, 1536);
}

proof fn lemma_misaligned(cells: Seq<super::cells::Cell>, tracks: Seq<F32>)
    requires
        cells.len() <= tracks.len(),
        forall|i: int| 0 <= i < cells.len() ==> !track_distance(#[trigger] cells[i], tracks[i]).nan(),
    ensures
        misaligned(cells, tracks) == 0 <==> forall|i: int|
            0 <= i < cells.len() ==> is_near(#[trigger] cells[i], tracks[i]),
        misaligned(cells, tracks) <= 1 <==> forall|i: int, j: int|
            0 <= i < j < cells.len() ==> is_near(#[trigger] cells[i], tracks[i]) || is_near(
                #[trigger] cells[j],
                tracks[j],
            ),
    decreases cells.len(),
{
    if cells.len() > 0 {
        let d = cells.drop_last();
        let n = cells.len() - 1;
        assert forall|i: int| 0 <= i < d.len() implies !track_distance(
            #[trigger] d[i],
            tracks[i],
        ).nan() by {
            assert(d[i] == cells[i]);
        }
        lemma_misaligned(d, tracks);
        crate::float::bounds::small_naturals_are_exact(6);
        assert(!track_distance(cells[n], tracks[n]).nan());
        let off = F32::from_nat(6).less(track_distance(cells[n], tracks[n]));
        assert(off <==> !is_near(cells[n], tracks[n]));
        assert forall|i: int| 0 <= i < n implies #[trigger] d[i] == cells[i] by {}
        if misaligned(cells, tracks) <= 1 {
            assert forall|i: int, j: int| 0 <= i < j < cells.len() implies is_near(
                #[trigger] cells[i],
                tracks[i],
            ) || is_near(#[trigger] cells[j], tracks[j]) by {
                assert(d[i] == cells[i]);
                if j < n {
                    assert(d[j] == cells[j]);
                }
            }
        } else if off {
            let i = choose|i: int| 0 <= i < d.len() && !is_near(#[trigger] d[i], tracks[i]);
            assert(!is_near(cells[i], tracks[i]) && !is_near(cells[n], tracks[n]));
        } else {
            let (i, j) = choose|i: int, j: int|
                0 <= i < j < d.len() && !(is_near(#[trigger] d[i], tracks[i]) || is_near(
                    #[trigger] d[j],
                    tracks[j],
                ));
            assert(!is_near(cells[i], tracks[i]) && !is_near(cells[j], tracks[j]));
        }
        if misaligned(cells, tracks) == 0 {
            assert forall|i: int| 0 <= i < cells.len() implies is_near(
                #[trigger] cells[i],
                tracks[i],
            ) by {
                if i < n {
                    assert(d[i] == cells[i]);
                }
            }
        } else if !off {
            let i = choose|i: int| 0 <= i < d.len() && !is_near(#[trigger] d[i], tracks[i]);
            assert(!is_near(cells[i], tracks[i]));
        }
    }
}

/// A line that can be a row starts a row of its own if it has a cell for each track, of which all
/// but one at most start near their track; where it does not continue the row before.
pub proof fn rows_are_aligned_but_for_one_cell(cells: Seq<super::cells::Cell>, tracks: Seq<F32>)
    requires
        cells.len() == tracks.len(),
        forall|i: int| 0 <= i < cells.len() ==> !track_distance(#[trigger] cells[i], tracks[i]).nan(),
    ensures
        misaligned(cells, tracks) <= 1 <==> forall|i: int, j: int|
            0 <= i < j < cells.len() ==> is_near(#[trigger] cells[i], tracks[i]) || is_near(
                #[trigger] cells[j],
                tracks[j],
            ),
{
    lemma_misaligned(cells, tracks);
}

/// The header lines of a table are all those right above it, up to the floor, that have two cells
/// or more, not more than there are tracks, lie close to the line below, and whose cells all start
/// near tracks.
pub proof fn headers_reach_up_as_far_as_they_fit(
    lines: Seq<crate::types::Line>,
    tracks: Seq<F32>,
    floor: int,
    start: int,
)
    requires
        floor <= start,
    ensures
        ({
            let top = header_start(lines, tracks, floor, start);
            &&& floor <= top <= start
            &&& forall|j: int| top <= j < start ==> fits_above(lines, tracks, j)
            &&& top > floor ==> !fits_above(lines, tracks, top - 1)
        }),
    decreases start - floor,
{
    lemma_header_start(lines, tracks, floor, start);
    if start > floor {
        assert(fits_above(lines, tracks, start - 1) <==> is_header_line(lines, tracks, start));
        if is_header_line(lines, tracks, start) {
            headers_reach_up_as_far_as_they_fit(lines, tracks, floor, start - 1);
        }
    }
}

/// Whether a line fits above the next one as a line of the header.
pub open spec fn fits_above(lines: Seq<crate::types::Line>, tracks: Seq<F32>, j: int) -> bool {
    let cells = super::cells::cells_in(lines[j]);
    &&& cells.len() >= 2
    &&& cells.len() <= tracks.len()
    &&& rows_adjacent(lines[j], lines[j + 1])
    &&& all_aligned(cells, tracks)
}

/// Whether a line fits below the row that starts on another line: close to it, and either as a
/// continuation of it or as a row of its own.
pub open spec fn fits_below(
    lines: Seq<crate::types::Line>,
    tracks: Seq<F32>,
    first: int,
    j: int,
) -> bool {
    let cells = row_cells(lines[j], tracks);
    &&& rows_adjacent(lines[first], lines[j])
    &&& continues_row(lines[first], lines[j], cells, tracks) || (cells.len() == tracks.len()
        && misaligned(cells, tracks) <= 1)
}

/// The rows of a table go on as long as the lines fit: the line behind the last one does not.
pub proof fn tables_go_on_while_lines_fit(
    lines: Seq<crate::types::Line>,
    tracks: Seq<F32>,
    rows: Seq<Row>,
    j: int,
)
    requires
        rows.len() > 0,
        0 <= j <= lines.len(),
    ensures
        ({
            let (grown, end) = grown_rows(lines, tracks, rows, j);
            &&& grown.len() > 0 && j <= end <= lines.len()
            &&& end < lines.len() ==> !fits_below(lines, tracks, grown.last().line, end)
            &&& j < lines.len() && fits_below(lines, tracks, rows.last().line, j) ==> j < end
        }),
    decreases lines.len() - j,
{
    if j < lines.len() {
        lemma_grown_rows(lines, tracks, rows, j);
        if let Some(more) = joined_rows(lines, tracks, rows, j) {
            tables_go_on_while_lines_fit(lines, tracks, more, j + 1);
        }
    }
}

/// A table is found at a line exactly if the line has three cells or more and a second row follows.
/// It falls back to the lines that its rows start on, without the white space at their ends, where
/// the spacing of these lines varies by more than a half; the header lines above are then left out.
pub proof fn tables_have_three_columns_and_two_rows(
    lines: Seq<crate::types::Line>,
    start: int,
    floor: int,
)
    ensures
        ({
            let first = super::cells::cells_in(lines[start]);
            let row = Row { line: start, cells: first };
            let (rows, end) = grown_rows(lines, starts(first), seq![row], start + 1);
            &&& table_at(lines, start, floor) is Some <==> first.len() >= 3 && rows.len() >= 2
            &&& table_at(lines, start, floor) matches Some(run) ==> {
                &&& run.end == end
                &&& run.block is GridFallback <==> F32::ratio(1, 2).less(
                    spacing_variation(row_tops(lines, rows)),
                )
                &&& run.block is GridFallback || run.block is Table
                &&& run.block matches super::blocks::Content::GridFallback { lines: texts } ==> {
                    &&& run.start == start
                    &&& texts.len() == rows.len()
                    &&& forall|i: int|
                        0 <= i < rows.len() ==> #[trigger] texts[i] == crate::text::trimmed_end(
                            lines[rows[i].line].text,
                        )
                }
            }
        }),
{
    reveal(table_at);
}

proof fn lemma_wrapped_bold(
    cells: Seq<super::cells::Cell>,
    wrapped: Seq<super::cells::Cell>,
    tracks: Seq<F32>,
)
    requires
        cells.len() == tracks.len(),
    ensures
        all_bold(with_wrapped(cells, wrapped, tracks)) == all_bold(cells),
        with_wrapped(cells, wrapped, tracks).len() == cells.len(),
        forall|i: int|
            0 <= i < cells.len() ==> (#[trigger] with_wrapped(cells, wrapped, tracks)[i]).bold
                == cells[i].bold,
    decreases wrapped.len(),
{
    if wrapped.len() > 0 {
        lemma_wrapped_bold(cells, wrapped.drop_last(), tracks);
        lemma_first_track(wrapped.last(), tracks);
    }
    let all = with_wrapped(cells, wrapped, tracks);
    if all_bold(all) {
        assert forall|i: int| 0 <= i < cells.len() implies (#[trigger] cells[i]).bold by {
            assert(all[i].bold);
        }
    }
    if all_bold(cells) {
        assert forall|i: int| 0 <= i < all.len() implies (#[trigger] all[i]).bold by {
            assert(cells[i].bold);
        }
    }
}

proof fn lemma_grown_bold(
    lines: Seq<crate::types::Line>,
    tracks: Seq<F32>,
    rows: Seq<Row>,
    j: int,
)
    requires
        j >= 0,
        well_formed_rows(rows, tracks, j),
    ensures
        all_bold(grown_rows(lines, tracks, rows, j).0[0].cells) == all_bold(rows[0].cells),
    decreases lines.len() - j,
{
    if j < lines.len() {
        lemma_joined_well_formed(lines, tracks, rows, j);
        if let Some(more) = joined_rows(lines, tracks, rows, j) {
            assert(rows[rows.len() - 1].cells.len() == tracks.len());
            lemma_wrapped_bold(rows.last().cells, row_cells(lines[j], tracks), tracks);
            lemma_grown_bold(lines, tracks, more, j + 1);
        }
    }
}

/// A table without header lines above it has its first row as the header exactly if all the cells
/// of the line that it was found at are bold.
pub proof fn bold_first_rows_are_headers(lines: Seq<crate::types::Line>, start: int, floor: int)
    requires
        0 <= floor <= start < lines.len(),
    ensures
        table_at(lines, start, floor) matches Some(run) ==> (run.block matches super::blocks::Content::Table {
            header,
            ..
        } ==> (run.start == start ==> (header is Some <==> forall|i: int|
            0 <= i < super::cells::cells_in(lines[start]).len() ==> (
            #[trigger] super::cells::cells_in(lines[start])[i]).bold))),
{
    reveal(table_at);
    let first = super::cells::cells_in(lines[start]);
    let rows = seq![Row { line: start, cells: first }];
    lemma_header_start(lines, starts(first), floor, start);
    lemma_grown_bold(lines, starts(first), rows, start + 1);
}

/// The tables from a line on start with the first one that is found there or below, and go on below
/// its end; there are none where none is found.
pub proof fn every_table_is_found(lines: Seq<crate::types::Line>, i: int, m: int, floor: int)
    requires
        0 <= i <= m <= lines.len(),
        forall|j: int| i <= j < m ==> (#[trigger] table_at(lines, j, floor)) is None,
    ensures
        m == lines.len() ==> tables_from(lines, i, floor) == Seq::<super::blocks::Run>::empty(),
        m < lines.len() ==> (table_at(lines, m, floor) matches Some(run) ==> tables_from(
            lines,
            i,
            floor,
        ) == seq![run] + tables_from(lines, run.end, run.end)),
    decreases m - i,
{
    if i < m {
        assert(table_at(lines, i, floor) is None);
        every_table_is_found(lines, i + 1, m, floor);
    }
}

proof fn lemma_two_gaps(x: F32, y: F32, z: F32, p: int, q: int, r: int) -> (g: (int, int))
    requires
        x.is_whole(p),
        y.is_whole(q),
        z.is_whole(r),
        0 <= p < 2048,
        0 <= q < 2048,
        0 <= r < 2048,
    ensures
        g.0 == crate::types::most(q - p, p - q),
        g.1 == crate::types::most(r - q, q - r),
        gaps(seq![x, y, z]).len() == 2,
        gaps(seq![x, y, z])[0].is_whole(g.0),
        gaps(seq![x, y, z])[1].is_whole(g.1),
        total(gaps(seq![x, y, z])).is_whole(g.0 + g.1),
{
    let s = gaps(seq![x, y, z]);
    crate::float::exact::whole_difference(y, x, q, p);
    crate::float::exact::measured_negation(y.minus(x), 256 * (q - p));
    crate::float::exact::whole_difference(z, y, r, q);
    crate::float::exact::measured_negation(z.minus(y), 256 * (r - q));
    let (a, b) = (crate::types::most(q - p, p - q), crate::types::most(r - q, q - r));
    crate::float::exact::zero_is_whole();
    lemma_total_of_two(s);
    crate::float::exact::whole_sum(F32 { bits: 0 }, s[0], 0, a);
    crate::float::exact::whole_sum((F32 { bits: 0 }).plus(s[0]), s[1], a, b);
    (a, b)
}

proof fn lemma_total_of_two(s: Seq<F32>)
    requires
        s.len() == 2,
    ensures
        total(s) == (F32 { bits: 0 }).plus(s[0]).plus(s[1]),
{
    let d = s.drop_last();
    assert(d.drop_last() =~= Seq::empty());
    assert(d.last() == s[0]);
    reveal_with_fuel(total, 3);
}

proof fn lemma_deviation(gap: F32, mean: F32, a: int, s: int, d: int)
    requires
        gap.is_whole(a),
        mean.measures(128 * s),
        2 * a - s == d,
        -360 < d < 360,
        0 <= a < 2048,
        0 <= s < 4096,
    ensures
        gap.minus(mean).times(gap.minus(mean)).measures(64 * (d * d)),
        0 <= d * d < 0x2_0000,
{
    crate::float::exact::measured_difference(gap, mean, 256 * a, 128 * s);
    assert(0 <= d * d < 0x2_0000) by (nonlinear_arith)
        requires -360 < d < 360;
    assert((128 * d) * (128 * d) == (64 * (d * d)) * 256) by (nonlinear_arith);
    let v = gap.minus(mean);
    crate::float::exact::measured_product(v, v, 128 * d, 128 * d, 64 * (d * d));
}

/// The spacing of three rows on whole points varies by more than a half exactly if one of the two
/// gaps between them is more than three times as wide as the other.
pub proof fn three_rows_vary_by_their_gaps(x: F32, y: F32, z: F32, p: int, q: int, r: int)
    requires
        x.is_whole(p),
        y.is_whole(q),
        z.is_whole(r),
        0 <= p < 2048,
        0 <= q < 2048,
        0 <= r < 2048,
        ({
            let (a, b) = (crate::types::most(q - p, p - q), crate::types::most(r - q, q - r));
            a + b > 0 && -360 < a - b < 360
        }),
    ensures
        ({
            let (a, b) = (crate::types::most(q - p, p - q), crate::types::most(r - q, q - r));
            F32::ratio(1, 2).less(spacing_variation(seq![x, y, z])) <==> a > 3 * b || b > 3 * a
        }),
{
    let ys = seq![x, y, z];
    let s = gaps(ys);
    let (a, b) = lemma_two_gaps(x, y, z, p, q, r);
    let (sum, d) = (a + b, a - b);
    let n = F32::from_nat(2);
    let mean = total(s).over(n);
    crate::float::exact::measured_half(total(s), 128 * sum);
    let zero = F32 { bits: 0 };
    crate::float::exact::zero_is_whole();
    crate::float::exact::measures_are_ordered(mean, zero, 128 * sum, 0);
    lemma_deviation(s[0], mean, a, sum, d);
    lemma_deviation(s[1], mean, b, sum, -d);
    assert((-d) * (-d) == d * d) by (nonlinear_arith);
    let sq = square_deviations(s, mean);
    let e = 64 * (d * d);
    lemma_total_of_two(sq);
    crate::float::exact::measured_sum(zero, sq[0], 0, e);
    crate::float::exact::measured_sum(zero.plus(sq[0]), sq[1], e, e);
    crate::float::exact::measured_half(total(sq), e);
    let variance = total(sq).over(n);
    assert(spacing_variation(ys) == variance.root().over(mean));
    lemma_variation(variance, mean, crate::types::most(d, -d), sum);
    assert(crate::types::most(d, -d) * crate::types::most(d, -d) == d * d) by (nonlinear_arith);
}

proof fn lemma_variation(variance: F32, mean: F32, d: int, s: int)
    requires
        variance.measures(64 * (d * d)),
        mean.measures(128 * s),
        0 <= d < 360,
        0 < s < 4096,
    ensures
        F32::ratio(1, 2).less(variance.root().over(mean)) <==> 2 * d > s,
{
    let half = F32::ratio(1, 2);
    let zero = F32 { bits: 0 };
    let p = vstd::arithmetic::power2::pow2(141) as int;
    let one = vstd::arithmetic::power2::pow2(149) as int;
    vstd::arithmetic::power2::lemma_pow2_pos(141);
    vstd::arithmetic::power2::lemma2_to64();
    vstd::arithmetic::power2::lemma_pow2_adds(141, 8);
    crate::float::exact::half_is_exact();
    crate::float::bounds::lemma_zero_units(zero);
    assert((128 * s) * p > 0) by (nonlinear_arith)
        requires s > 0, p > 0;
    assert(128 * p > 0);
    assert(mean.units() == (128 * s) * p && !mean.negative());
    assert(half.units() == 128 * p && !half.negative());
    crate::float::exact::zero_is_whole();
    crate::float::exact::measures_are_ordered(zero, half, 0, 128);
    let e = 64 * (d * d);
    assert(d * d >= 0) by (nonlinear_arith);
    assert(d > 0 ==> d * d > 0) by (nonlinear_arith);
    assert(e * p >= 0) by (nonlinear_arith)
        requires e >= 0, p > 0;
    if d == 0 {
        assert(d * d == 0) by (nonlinear_arith)
            requires d == 0;
        assert(e * p == 0) by (nonlinear_arith)
            requires e == 0;
        assert(variance.units() == 0);
        crate::float::order::magnitude_orders_units(variance, zero);
        crate::float::order::magnitude_orders_units(mean, zero);
        assert(variance.zero());
        assert(variance.root() == variance) by {
            reveal(F32::root);
        }
        assert(variance.over(mean).zero()) by {
            reveal(F32::over);
        }
    } else {
        assert(e * p > 0) by (nonlinear_arith)
            requires e > 0, p > 0;
        assert(!variance.negative() && variance.units() == e * p);
        crate::float::order::magnitude_orders_units(variance, zero);
        vstd::arithmetic::power2::lemma_pow2_adds(141, 7);
        let w = vstd::arithmetic::power2::pow2(148) as int;
        assert(w == p * 128);
        assert((e * p) * one == (d * w) * (d * w)) by (nonlinear_arith)
            requires e == 64 * (d * d), one == p * 256, w == p * 128;
        crate::float::root::squares_have_exact_roots(variance, d as nat, 148);
        let root = variance.root();
        assert(root.units() == d * w);
        crate::float::exact::quotient_bounds(root, mean, half);
        if 2 * d <= s {
            assert((d * w) * one <= (128 * p) * ((128 * s) * p)) by (nonlinear_arith)
                requires 2 * d <= s, w == p * 128, one == p * 256, p > 0;
        } else {
            let f = crate::float::exact::exactly(4097, 136);
            crate::float::exact::short_numbers_are_exact(4097, 136);
            vstd::arithmetic::power2::lemma_pow2_adds(136, 5);
            let t = vstd::arithmetic::power2::pow2(136) as int;
            vstd::arithmetic::power2::lemma_pow2_pos(136);
            assert(p == t * 32);
            crate::float::exact::quotient_bounds(root, mean, f);
            assert((d * w) * one >= (4097 * t) * ((128 * s) * p)) by (nonlinear_arith)
                requires
                    2 * d >= s + 1,
                    s < 4096,
                    s > 0,
                    w == p * 128,
                    one == p * 256,
                    p == t * 32,
                    t > 0,
            ;
            crate::float::order::comparison_compares_values(half, f);
            assert(128 * p < 4097 * t);
        }
    }
}

/// A line with three cells or more, but fewer than there are tracks, has a cell for each track where
/// splitting its merged cells gives that; every other line has its cells as they are.
pub proof fn merged_cells_are_split(line: crate::types::Line, tracks: Seq<F32>)
    ensures
        ({
            let cells = super::cells::cells_in(line);
            let split = super::recover::recovered(cells, tracks);
            if 3 <= cells.len() < tracks.len() && split is Some {
                row_cells(line, tracks) == split->0 && row_cells(line, tracks).len() == tracks.len()
            } else {
                row_cells(line, tracks) == cells
            }
        }),
{
    super::recover::recovery_fills_every_track(super::cells::cells_in(line), tracks);
}

} // verus!
