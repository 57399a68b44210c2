//! Tables drawn with explicit horizontal and vertical rules.
//!
//! Strokes are clustered into grid lines, and crossing lines are grouped into table regions. For
//! each region the distinct row and column boundaries form a cell grid; text lines are assigned
//! to cells by their centre.
use super::blocks::{Block, TableRun};
use super::components::find_grid_components;
use super::rules::{
    cluster_h_segments, cluster_v_segments, collect_boundaries, extract_h_v_segments, find_bucket,
    HSeg, VSeg,
};
use crate::float::F32;
use crate::sorting::{sort, Key, Keyed, KeyedValue};
use crate::text::{blank, trim};
use crate::types::{GraphicPrimitive, ProjectedLine};
use vstd::arithmetic::power2::{lemma2_to64, lemma_pow2_adds, lemma_pow2_pos, pow2};
use vstd::prelude::*;
use vstd::string::*;

verus! {

/// A place in a grid: the row and the column.
pub type Slot = Option<(usize, usize)>;

/// The cell that a line of text stands in, if it shows something and stands in the grid.
pub open spec fn slot_of(line: crate::types::Line, ys: Seq<F32>, xs: Seq<F32>) -> Slot {
    let half = F32::ratio(1, 2);
    let row = super::rules::bucket(ys, line.bbox.y.plus(line.bbox.height.times(half)));
    let column = super::rules::bucket(xs, line.bbox.x.plus(line.bbox.width.times(half)));
    match (row, column) {
        (Some(r), Some(c)) if !crate::text::is_blank(line.text) => Some((r as usize, c as usize)),
        _ => None,
    }
}

/// The cells that the lines stand in.
pub open spec fn slots_of(lines: Seq<crate::types::Line>, ys: Seq<F32>, xs: Seq<F32>) -> Seq<Slot> {
    Seq::new(lines.len(), |k: int| slot_of(lines[k], ys, xs))
}

/// Whether some line stands in a cell.
pub open spec fn filled(slots: Seq<Slot>, r: usize, c: usize) -> bool {
    slots.contains(Some((r, c)))
}

/// Whether all the lines in a cell are bold.
pub open spec fn bold_cell(
    lines: Seq<crate::types::Line>,
    slots: Seq<Slot>,
    r: usize,
    c: usize,
) -> bool {
    forall|k: int| 0 <= k < slots.len() && #[trigger] slots[k] == Some((r, c)) ==> lines[k].all_bold
}

/// The texts of those of the first `n` lines that stand in a cell, with blanks between them.
pub open spec fn cell_text(
    lines: Seq<crate::types::Line>,
    slots: Seq<Slot>,
    r: usize,
    c: usize,
    n: nat,
) -> Seq<char>
    decreases n,
{
    if n == 0 {
        Seq::empty()
    } else {
        let before = cell_text(lines, slots, r, c, (n - 1) as nat);
        if slots[n - 1] == Some((r, c)) {
            super::borderless::appended(before, crate::text::trimmed(lines[n - 1].text))
        } else {
            before
        }
    }
}

/// Whether some cell of a row is filled.
pub open spec fn row_filled(slots: Seq<Slot>, r: int) -> bool {
    exists|k: int| 0 <= k < slots.len() && ((#[trigger] slots[k]) matches Some(s) && s.0 == r)
}

/// Whether some cell of a column is filled.
pub open spec fn column_filled(slots: Seq<Slot>, c: int) -> bool {
    exists|k: int| 0 <= k < slots.len() && ((#[trigger] slots[k]) matches Some(s) && s.1 == c)
}

/// The distances between neighbouring boundaries.
pub open spec fn extents(b: Seq<F32>) -> Seq<F32> {
    Seq::new((b.len() - 1) as nat, |i: int| b[i + 1].minus(b[i]))
}

/// The extents of the rows or columns with the given indices.
pub open spec fn picked(s: Seq<F32>, indices: Seq<usize>) -> Seq<F32> {
    Seq::new(indices.len(), |i: int| s[indices[i] as int])
}

/// The middle value, the upper one of two.
pub open spec fn median(s: Seq<F32>) -> F32 {
    crate::sorting::sorted(s)[(s.len() / 2) as int]
}

/// The median of the extents of the filled rows or columns, or of all where none is filled.
pub open spec fn typical_extent(all: Seq<F32>, is_filled: spec_fn(int) -> bool) -> F32 {
    let indices = super::components::indices_where(all.len(), is_filled);
    if indices.len() > 0 {
        median(picked(all, indices))
    } else {
        median(all)
    }
}

/// The rows or columns that are filled, or that reach a share of the typical extent.
pub open spec fn kept(all: Seq<F32>, is_filled: spec_fn(int) -> bool, share: F32) -> Seq<usize> {
    let least = typical_extent(all, is_filled).times(share);
    super::components::indices_where(
        all.len(),
        |i: int| is_filled(i) || least.at_most(all[i]),
    )
}

/// The rows that the table keeps: those with text, and the empty ones that are at least half as
/// high as a typical row with text, as in a form to be filled in.
pub open spec fn kept_rows(slots: Seq<Slot>, ys: Seq<F32>) -> Seq<usize> {
    kept(extents(ys), |r: int| row_filled(slots, r), F32::ratio(1, 2))
}

/// The columns that the table keeps.
pub open spec fn kept_columns(slots: Seq<Slot>, xs: Seq<F32>) -> Seq<usize> {
    kept(extents(xs), |c: int| column_filled(slots, c), F32::ratio(3, 10))
}

/// How many of the cells of a row, in the given columns, are empty.
pub open spec fn empty_in_row(slots: Seq<Slot>, r: usize, columns: Seq<usize>) -> nat
    decreases columns.len(),
{
    if columns.len() == 0 {
        0
    } else {
        empty_in_row(slots, r, columns.drop_last()) + if filled(slots, r, columns.last()) {
            0nat
        } else {
            1nat
        }
    }
}

/// How many of the cells, in the given rows and columns, are empty.
pub open spec fn empty_cells(slots: Seq<Slot>, rows: Seq<usize>, columns: Seq<usize>) -> nat
    decreases rows.len(),
{
    if rows.len() == 0 {
        0
    } else {
        empty_cells(slots, rows.drop_last(), columns) + empty_in_row(slots, rows.last(), columns)
    }
}

/// Whether more than three cells in ten are empty.
pub open spec fn mostly_empty(slots: Seq<Slot>, rows: Seq<usize>, columns: Seq<usize>) -> bool {
    F32::ratio(3, 10).less(
        F32::from_nat(empty_cells(slots, rows, columns)).over(
            F32::from_nat(rows.len() * columns.len()),
        ),
    )
}

/// Whether a row is a header: some cell is filled, and those that are filled are bold.
pub open spec fn is_header_row(
    lines: Seq<crate::types::Line>,
    slots: Seq<Slot>,
    r: usize,
    columns: Seq<usize>,
) -> bool {
    &&& forall|i: int|
        0 <= i < columns.len() ==> (filled(slots, r, #[trigger] columns[i]) ==> bold_cell(
            lines,
            slots,
            r,
            columns[i],
        ))
    &&& exists|i: int| 0 <= i < columns.len() && filled(slots, r, #[trigger] columns[i])
}

/// The texts of a row in the given columns.
pub open spec fn grid_row(
    lines: Seq<crate::types::Line>,
    slots: Seq<Slot>,
    r: usize,
    columns: Seq<usize>,
) -> Seq<Seq<char>> {
    Seq::new(columns.len(), |i: int| cell_text(lines, slots, r, columns[i], lines.len()))
}

/// The texts of the given rows in the given columns.
pub open spec fn grid_texts(
    lines: Seq<crate::types::Line>,
    slots: Seq<Slot>,
    rows: Seq<usize>,
    columns: Seq<usize>,
) -> Seq<Seq<Seq<char>>> {
    Seq::new(rows.len(), |i: int| grid_row(lines, slots, rows[i], columns))
}

/// The first line that stands in the grid, or the number of lines.
pub open spec fn first_filled(slots: Seq<Slot>) -> int
    decreases slots.len(),
{
    if slots.len() == 0 {
        0
    } else {
        let before = first_filled(slots.drop_last());
        if before < slots.len() - 1 || slots.last() is Some {
            before
        } else {
            slots.len() as int
        }
    }
}

/// The line after the last one that stands in the grid, or zero.
pub open spec fn after_filled(slots: Seq<Slot>) -> int
    decreases slots.len(),
{
    if slots.len() == 0 {
        0
    } else if slots.last() is Some {
        slots.len() as int
    } else {
        after_filled(slots.drop_last())
    }
}

/// Whether a grid covers nearly the whole page.
pub open spec fn covers_page(ys: Seq<F32>, xs: Seq<F32>, page_width: F32, page_height: F32) -> bool {
    let zero = F32 { bits: 0 };
    let width = xs.last().minus(xs[0]).over(page_width);
    let height = ys.last().minus(ys[0]).over(page_height);
    zero.less(page_width) && zero.less(page_height) && F32::ratio(19, 20).less(width.times(height))
}

/// The table that the lines make up in a grid with the given boundaries.
pub open spec fn table_in_grid(
    lines: Seq<crate::types::Line>,
    ys: Seq<F32>,
    xs: Seq<F32>,
) -> Option<super::blocks::Run> {
    let slots = slots_of(lines, ys, xs);
    let rows = kept_rows(slots, ys);
    let columns = kept_columns(slots, xs);
    let texts = grid_texts(lines, slots, rows, columns);
    if after_filled(slots) == 0 || rows.len() < 2 || columns.len() == 0 || (columns.len() == 1
        && rows.len() < 3) || mostly_empty(slots, rows, columns) {
        None
    } else {
        let block = if is_header_row(lines, slots, rows[0], columns) {
            super::blocks::Content::Table { header: Some(texts[0]), rows: texts.skip(1) }
        } else {
            super::blocks::Content::Table { header: None, rows: texts }
        };
        Some(super::blocks::Run { start: first_filled(slots), end: after_filled(slots), block })
    }
}

/// The table of a component of rules, given by the indices of its rules.
pub open spec fn ruled_table(
    hs: Seq<HSeg>,
    vs: Seq<VSeg>,
    component: (Seq<usize>, Seq<usize>),
    lines: Seq<crate::types::Line>,
    page_width: F32,
    page_height: F32,
) -> Option<super::blocks::Run> {
    let ys = super::rules::boundaries(
        Seq::new(component.0.len(), |i: int| hs[component.0[i] as int].y),
    );
    let xs = super::rules::boundaries(
        Seq::new(component.1.len(), |i: int| vs[component.1[i] as int].x),
    );
    if ys.len() < 3 || xs.len() < 2 || covers_page(ys, xs, page_width, page_height) {
        None
    } else {
        table_in_grid(lines, ys, xs)
    }
}

/// The cell that a line of text stands in.
fn find_slot(line: &ProjectedLine, ys: &Vec<F32>, xs: &Vec<F32>) -> (r: Slot)
    ensures
        r == slot_of(line@, ys@, xs@),
        r matches Some(s) ==> s.0 + 1 < ys@.len() && s.1 + 1 < xs@.len(),
{
    let half: F32 = F32::fraction(1, 2);
    let cx: F32 = line.bbox.x.add(line.bbox.width.mul(half));
    let cy: F32 = line.bbox.y.add(line.bbox.height.mul(half));
    if blank(line.text.as_str()) {
        return None;
    }
    match (find_bucket(ys, cy), find_bucket(xs, cx)) {
        (Some(r), Some(c)) => Some((r, c)),
        _ => None,
    }
}

/// The cells that the lines stand in.
fn collect_slots(lines: &Vec<ProjectedLine>, ys: &Vec<F32>, xs: &Vec<F32>) -> (r: Vec<Slot>)
    ensures
        r@ == slots_of(crate::types::lines_of(lines@), ys@, xs@),
{
    let mut r: Vec<Slot> = Vec::new();
    let mut i: usize = 0;
    while i < lines.len()
        invariant
            i <= lines@.len(),
            r@.len() == i,
            forall|k: int| 0 <= k < i ==> #[trigger] r@[k] == slot_of(lines@[k]@, ys@, xs@),
        decreases lines@.len() - i,
    {
        r.push(find_slot(&lines[i], ys, xs));
        i = i + 1;
    }
    assert(r@ =~= slots_of(crate::types::lines_of(lines@), ys@, xs@));
    r
}

/// Whether a slot is a given cell.
fn is_slot(slot: Slot, r: usize, c: usize) -> (b: bool)
    ensures
        b == (slot == Some((r, c))),
{
    match slot {
        Some((row, column)) => row == r && column == c,
        None => false,
    }
}

/// Whether some line stands in a cell.
fn is_filled(slots: &Vec<Slot>, r: usize, c: usize) -> (b: bool)
    ensures
        b == filled(slots@, r, c),
{
    let mut k: usize = 0;
    while k < slots.len()
        invariant
            k <= slots@.len(),
            forall|j: int| 0 <= j < k ==> slots@[j] != Some((r, c)),
        decreases slots@.len() - k,
    {
        if is_slot(slots[k], r, c) {
            assert(slots@[k as int] == Some((r, c)));
            return true;
        }
        k = k + 1;
    }
    false
}

/// Whether all the lines in a cell are bold.
fn is_bold_cell(lines: &Vec<ProjectedLine>, slots: &Vec<Slot>, r: usize, c: usize) -> (b: bool)
    requires
        slots@.len() == lines@.len(),
    ensures
        b == bold_cell(crate::types::lines_of(lines@), slots@, r, c),
{
    let ghost all = crate::types::lines_of(lines@);
    let mut k: usize = 0;
    while k < slots.len()
        invariant
            k <= slots@.len(),
            slots@.len() == lines@.len(),
            all == crate::types::lines_of(lines@),
            forall|j: int| 0 <= j < k && #[trigger] slots@[j] == Some((r, c)) ==> all[j].all_bold,
        decreases slots@.len() - k,
    {
        if is_slot(slots[k], r, c) && !lines[k].all_bold {
            assert(slots@[k as int] == Some((r, c)) && !all[k as int].all_bold);
            return false;
        }
        k = k + 1;
    }
    true
}

/// The text of a cell.
fn collect_cell_text(lines: &Vec<ProjectedLine>, slots: &Vec<Slot>, r: usize, c: usize) -> (t: String)
    requires
        slots@.len() == lines@.len(),
    ensures
        t@ == cell_text(crate::types::lines_of(lines@), slots@, r, c, lines@.len()),
{
    let ghost all = crate::types::lines_of(lines@);
    let mut t: String = String::new();
    let mut k: usize = 0;
    while k < lines.len()
        invariant
            k <= lines@.len(),
            slots@.len() == lines@.len(),
            all == crate::types::lines_of(lines@),
            t@ == cell_text(all, slots@, r, c, k as nat),
        decreases lines@.len() - k,
    {
        if is_slot(slots[k], r, c) {
            let txt: String = trim(lines[k].text.as_str());
            if !t.as_str().is_empty() && !txt.as_str().is_empty() {
                t.push(' ');
            }
            t.append(txt.as_str());
        }
        k = k + 1;
    }
    t
}

/// Whether some cell of a row is filled.
fn is_row_filled(slots: &Vec<Slot>, r: usize) -> (b: bool)
    ensures
        b == row_filled(slots@, r as int),
{
    let mut k: usize = 0;
    while k < slots.len()
        invariant
            k <= slots@.len(),
            forall|j: int| 0 <= j < k ==> !((#[trigger] slots@[j]) matches Some(s) && s.0 == r),
        decreases slots@.len() - k,
    {
        if let Some((row, _)) = slots[k] {
            if row == r {
                assert(slots@[k as int] matches Some(s) && s.0 == r);
                return true;
            }
        }
        k = k + 1;
    }
    false
}

/// Whether some cell of a column is filled.
fn is_column_filled(slots: &Vec<Slot>, c: usize) -> (b: bool)
    ensures
        b == column_filled(slots@, c as int),
{
    let mut k: usize = 0;
    while k < slots.len()
        invariant
            k <= slots@.len(),
            forall|j: int| 0 <= j < k ==> !((#[trigger] slots@[j]) matches Some(s) && s.1 == c),
        decreases slots@.len() - k,
    {
        if let Some((_, column)) = slots[k] {
            if column == c {
                assert(slots@[k as int] matches Some(s) && s.1 == c);
                return true;
            }
        }
        k = k + 1;
    }
    false
}

/// The distances between neighbouring boundaries.
fn collect_extents(b: &Vec<F32>) -> (r: Vec<F32>)
    requires
        b@.len() >= 1,
    ensures
        r@ == extents(b@),
{
    let n: usize = b.len();
    let mut r: Vec<F32> = Vec::new();
    let mut i: usize = 0;
    while i < n - 1
        invariant
            n == b@.len(),
            1 <= n,
            i <= n - 1,
            r@.len() == i,
            forall|k: int| 0 <= k < i ==> #[trigger] r@[k] == b@[k + 1].minus(b@[k]),
        decreases n - i,
    {
        r.push(b[i + 1].sub(b[i]));
        i = i + 1;
    }
    assert(r@ =~= extents(b@));
    r
}

/// The middle value, the upper one of two.
fn find_median(s: Vec<F32>) -> (r: F32)
    requires
        s@.len() > 0,
    ensures
        r == median(s@),
{
    proof {
        crate::sorting::sorting_permutes_into_order(s@);
    }
    let ordered: Vec<F32> = sort(s);
    ordered[ordered.len() / 2]
}

/// The rows or columns that are filled, or that reach a share of the typical extent.
fn find_kept(all: &Vec<F32>, flags: &Vec<bool>, share: F32, Ghost(is_filled): Ghost<
    spec_fn(int) -> bool,
>) -> (r: Vec<usize>)
    requires
        all@.len() > 0,
        flags@.len() == all@.len(),
        forall|i: int| 0 <= i < flags@.len() ==> #[trigger] flags@[i] == is_filled(i),
    ensures
        r@ == kept(all@, is_filled, share),
        forall|i: int| 0 <= i < r@.len() ==> (#[trigger] r@[i]) < all@.len(),
{
    let ghost indices = super::components::indices_where(all@.len(), is_filled);
    let mut chosen: Vec<F32> = Vec::new();
    let mut i: usize = 0;
    while i < all.len()
        invariant
            i <= all@.len(),
            flags@.len() == all@.len(),
            forall|i: int| 0 <= i < flags@.len() ==> #[trigger] flags@[i] == is_filled(i),
            chosen@ == picked(all@, super::components::indices_where(i as nat, is_filled)),
        decreases all@.len() - i,
    {
        let ghost before = super::components::indices_where(i as nat, is_filled);
        if flags[i] {
            chosen.push(all[i]);
            assert(picked(all@, before.push(i)) =~= picked(all@, before).push(all@[i as int]));
        }
        i = i + 1;
    }
    let typical: F32 = if chosen.len() > 0 {
        find_median(chosen)
    } else {
        let copy: Vec<F32> = all.clone();
        assert(copy@ =~= all@);
        find_median(copy)
    };
    let least: F32 = typical.mul(share);
    let ghost keep = |i: int| is_filled(i) || least.at_most(all@[i]);
    let mut r: Vec<usize> = Vec::new();
    let mut k: usize = 0;
    while k < all.len()
        invariant
            k <= all@.len(),
            flags@.len() == all@.len(),
            forall|i: int| 0 <= i < flags@.len() ==> #[trigger] flags@[i] == is_filled(i),
            keep == (|i: int| is_filled(i) || least.at_most(all@[i])),
            r@ == super::components::indices_where(k as nat, keep),
            forall|i: int| 0 <= i < r@.len() ==> (#[trigger] r@[i]) < k,
        decreases all@.len() - k,
    {
        if flags[k] || all[k].ge(least) {
            r.push(k);
        }
        k = k + 1;
    }
    r
}

/// The rows that the table keeps.
fn find_kept_rows(slots: &Vec<Slot>, ys: &Vec<F32>) -> (r: Vec<usize>)
    requires
        ys@.len() >= 2,
    ensures
        r@ == kept_rows(slots@, ys@),
{
    let heights: Vec<F32> = collect_extents(ys);
    let mut flags: Vec<bool> = Vec::new();
    let mut i: usize = 0;
    while i < heights.len()
        invariant
            i <= heights@.len(),
            flags@.len() == i,
            forall|k: int| 0 <= k < i ==> #[trigger] flags@[k] == row_filled(slots@, k),
        decreases heights@.len() - i,
    {
        flags.push(is_row_filled(slots, i));
        i = i + 1;
    }
    find_kept(&heights, &flags, F32::fraction(1, 2), Ghost(|r: int| row_filled(slots@, r)))
}

/// The columns that the table keeps.
fn find_kept_columns(slots: &Vec<Slot>, xs: &Vec<F32>) -> (r: Vec<usize>)
    requires
        xs@.len() >= 2,
    ensures
        r@ == kept_columns(slots@, xs@),
{
    let widths: Vec<F32> = collect_extents(xs);
    let mut flags: Vec<bool> = Vec::new();
    let mut i: usize = 0;
    while i < widths.len()
        invariant
            i <= widths@.len(),
            flags@.len() == i,
            forall|k: int| 0 <= k < i ==> #[trigger] flags@[k] == column_filled(slots@, k),
        decreases widths@.len() - i,
    {
        flags.push(is_column_filled(slots, i));
        i = i + 1;
    }
    find_kept(&widths, &flags, F32::fraction(3, 10), Ghost(|c: int| column_filled(slots@, c)))
}

/// Whether more than three cells in ten are empty.
fn is_mostly_empty(slots: &Vec<Slot>, rows: &Vec<usize>, columns: &Vec<usize>) -> (b: bool)
    ensures
        b == mostly_empty(slots@, rows@, columns@),
{
    let mut cells: Vec<bool> = Vec::new();
    let mut empty: usize = 0;
    let mut i: usize = 0;
    while i < rows.len()
        invariant
            i <= rows@.len(),
            cells@.len() == i * columns@.len(),
            empty <= cells@.len(),
            empty == empty_cells(slots@, rows@.take(i as int), columns@),
        decreases rows@.len() - i,
    {
        let ghost before = empty;
        assert(rows@.take(i + 1).drop_last() =~= rows@.take(i as int));
        let mut j: usize = 0;
        while j < columns.len()
            invariant
                i < rows@.len(),
                j <= columns@.len(),
                cells@.len() == i * columns@.len() + j,
                empty <= cells@.len(),
                empty == before + empty_in_row(slots@, rows@[i as int], columns@.take(j as int)),
            decreases columns@.len() - j,
        {
            assert(columns@.take(j + 1).drop_last() =~= columns@.take(j as int));
            let full: bool = is_filled(slots, rows[i], columns[j]);
            cells.push(full);
            let n: usize = cells.len();
            if !full {
                empty = empty + 1;
            }
            j = j + 1;
        }
        assert(columns@.take(j as int) =~= columns@);
        assert((i + 1) * columns@.len() == i * columns@.len() + columns@.len()) by (nonlinear_arith);
        i = i + 1;
    }
    assert(rows@.take(i as int) =~= rows@);
    F32::from_usize(empty).div(F32::from_usize(cells.len())).gt(F32::fraction(3, 10))
}

/// Whether a row is a header.
fn is_header(lines: &Vec<ProjectedLine>, slots: &Vec<Slot>, r: usize, columns: &Vec<usize>) -> (b:
    bool)
    requires
        slots@.len() == lines@.len(),
    ensures
        b == is_header_row(crate::types::lines_of(lines@), slots@, r, columns@),
{
    let ghost all = crate::types::lines_of(lines@);
    let mut some: bool = false;
    let mut i: usize = 0;
    while i < columns.len()
        invariant
            i <= columns@.len(),
            slots@.len() == lines@.len(),
            all == crate::types::lines_of(lines@),
            forall|k: int|
                0 <= k < i ==> (filled(slots@, r, #[trigger] columns@[k]) ==> bold_cell(
                    all,
                    slots@,
                    r,
                    columns@[k],
                )),
            some == exists|k: int| 0 <= k < i && filled(slots@, r, #[trigger] columns@[k]),
        decreases columns@.len() - i,
    {
        if is_filled(slots, r, columns[i]) {
            assert(filled(slots@, r, columns@[i as int]));
            some = true;
            if !is_bold_cell(lines, slots, r, columns[i]) {
                return false;
            }
        }
        i = i + 1;
    }
    some
}

/// The texts of a row in the given columns.
fn collect_grid_row(lines: &Vec<ProjectedLine>, slots: &Vec<Slot>, r: usize, columns: &Vec<usize>) -> (t:
    Vec<String>)
    requires
        slots@.len() == lines@.len(),
    ensures
        crate::text::texts(t@) == grid_row(crate::types::lines_of(lines@), slots@, r, columns@),
{
    let ghost all = crate::types::lines_of(lines@);
    let mut t: Vec<String> = Vec::new();
    let mut i: usize = 0;
    while i < columns.len()
        invariant
            i <= columns@.len(),
            slots@.len() == lines@.len(),
            all == crate::types::lines_of(lines@),
            t@.len() == i,
            forall|k: int|
                0 <= k < i ==> (#[trigger] t@[k])@ == cell_text(
                    all,
                    slots@,
                    r,
                    columns@[k],
                    all.len(),
                ),
        decreases columns@.len() - i,
    {
        t.push(collect_cell_text(lines, slots, r, columns[i]));
        i = i + 1;
    }
    assert(crate::text::texts(t@) =~= grid_row(all, slots@, r, columns@));
    t
}

/// The texts of the rows from the `k`th on, in the given columns.
fn collect_grid(
    lines: &Vec<ProjectedLine>,
    slots: &Vec<Slot>,
    rows: &Vec<usize>,
    k: usize,
    columns: &Vec<usize>,
) -> (t: Vec<Vec<String>>)
    requires
        slots@.len() == lines@.len(),
        k <= rows@.len(),
    ensures
        crate::text::text_rows(t@) == grid_texts(
            crate::types::lines_of(lines@),
            slots@,
            rows@,
            columns@,
        ).skip(k as int),
{
    let ghost all = crate::types::lines_of(lines@);
    let mut t: Vec<Vec<String>> = Vec::new();
    let mut i: usize = k;
    while i < rows.len()
        invariant
            k <= i <= rows@.len(),
            slots@.len() == lines@.len(),
            all == crate::types::lines_of(lines@),
            t@.len() == i - k,
            forall|j: int|
                0 <= j < i - k ==> crate::text::texts((#[trigger] t@[j])@) == grid_row(
                    all,
                    slots@,
                    rows@[k + j],
                    columns@,
                ),
        decreases rows@.len() - i,
    {
        t.push(collect_grid_row(lines, slots, rows[i], columns));
        i = i + 1;
    }
    assert(crate::text::text_rows(t@) =~= grid_texts(all, slots@, rows@, columns@).skip(k as int));
    t
}

/// The first line that stands in the grid, and the line after the last one.
fn find_filled(slots: &Vec<Slot>) -> (r: (usize, usize))
    ensures
        r.0 == first_filled(slots@),
        r.1 == after_filled(slots@),
{
    let mut first: usize = 0;
    let mut after: usize = 0;
    let mut i: usize = 0;
    while i < slots.len()
        invariant
            i <= slots@.len(),
            first <= i,
            first == first_filled(slots@.take(i as int)),
            after == after_filled(slots@.take(i as int)),
        decreases slots@.len() - i,
    {
        assert(slots@.take(i + 1).drop_last() =~= slots@.take(i as int));
        if slots[i].is_some() {
            after = i + 1;
        } else if first == i {
            first = i + 1;
        }
        i = i + 1;
    }
    assert(slots@.take(i as int) =~= slots@);
    (first, after)
}

/// The table that the lines make up in a grid with the given boundaries.
fn build_table_in_grid(lines: &Vec<ProjectedLine>, ys: &Vec<F32>, xs: &Vec<F32>) -> (r: Option<
    TableRun,
>)
    requires
        ys@.len() >= 2,
        xs@.len() >= 2,
    ensures
        match r {
            Some(run) => table_in_grid(crate::types::lines_of(lines@), ys@, xs@) == Some(run@),
            None => table_in_grid(crate::types::lines_of(lines@), ys@, xs@) is None,
        },
{
    let ghost all = crate::types::lines_of(lines@);
    let slots: Vec<Slot> = collect_slots(lines, ys, xs);
    let (start, end) = find_filled(&slots);
    if end == 0 {
        return None;
    }
    let rows: Vec<usize> = find_kept_rows(&slots, ys);
    if rows.len() < 2 {
        return None;
    }
    let columns: Vec<usize> = find_kept_columns(&slots, xs);
    if columns.len() == 0 || (columns.len() == 1 && rows.len() < 3) {
        return None;
    }
    if is_mostly_empty(&slots, &rows, &columns) {
        return None;
    }
    let ghost texts = grid_texts(all, slots@, rows@, columns@);
    assert(texts.skip(0) =~= texts);
    if is_header(lines, &slots, rows[0], &columns) {
        let header: Vec<String> = collect_grid_row(lines, &slots, rows[0], &columns);
        let body: Vec<Vec<String>> = collect_grid(lines, &slots, &rows, 1, &columns);
        Some(TableRun { start, end, block: Block::Table { header: Some(header), rows: body } })
    } else {
        let body: Vec<Vec<String>> = collect_grid(lines, &slots, &rows, 0, &columns);
        Some(TableRun { start, end, block: Block::Table { header: None, rows: body } })
    }
}

/// Build a `TableRun` for one ruled-grid component. Returns `None` if the
/// resulting grid is too small (fewer than two rows, or a single column with fewer than three),
/// covers nearly the whole page (likely the page border), or is mostly empty cells.
pub fn build_ruled_table(
    hs: &Vec<HSeg>,
    vs: &Vec<VSeg>,
    h_indices: &Vec<usize>,
    v_indices: &Vec<usize>,
    lines: &Vec<ProjectedLine>,
    page_width: F32,
    page_height: F32,
) -> (r: Option<TableRun>)
    requires
        forall|i: int| 0 <= i < h_indices@.len() ==> (#[trigger] h_indices@[i]) < hs@.len(),
        forall|i: int| 0 <= i < v_indices@.len() ==> (#[trigger] v_indices@[i]) < vs@.len(),
    ensures
        match r {
            Some(run) => ruled_table(
                hs@,
                vs@,
                (h_indices@, v_indices@),
                crate::types::lines_of(lines@),
                page_width,
                page_height,
            ) == Some(run@),
            None => ruled_table(
                hs@,
                vs@,
                (h_indices@, v_indices@),
                crate::types::lines_of(lines@),
                page_width,
                page_height,
            ) is None,
        },
{
    let mut raw_ys: Vec<F32> = Vec::new();
    let mut i: usize = 0;
    while i < h_indices.len()
        invariant
            i <= h_indices@.len(),
            forall|i: int| 0 <= i < h_indices@.len() ==> (#[trigger] h_indices@[i]) < hs@.len(),
            raw_ys@.len() == i,
            forall|k: int| 0 <= k < i ==> #[trigger] raw_ys@[k] == hs@[h_indices@[k] as int].y,
        decreases h_indices@.len() - i,
    {
        raw_ys.push(hs[h_indices[i]].y);
        i = i + 1;
    }
    assert(raw_ys@ =~= Seq::new(h_indices@.len(), |i: int| hs@[h_indices@[i] as int].y));
    let mut raw_xs: Vec<F32> = Vec::new();
    let mut j: usize = 0;
    while j < v_indices.len()
        invariant
            j <= v_indices@.len(),
            forall|i: int| 0 <= i < v_indices@.len() ==> (#[trigger] v_indices@[i]) < vs@.len(),
            raw_xs@.len() == j,
            forall|k: int| 0 <= k < j ==> #[trigger] raw_xs@[k] == vs@[v_indices@[k] as int].x,
        decreases v_indices@.len() - j,
    {
        raw_xs.push(vs[v_indices[j]].x);
        j = j + 1;
    }
    assert(raw_xs@ =~= Seq::new(v_indices@.len(), |i: int| vs@[v_indices@[i] as int].x));
    let ys: Vec<F32> = collect_boundaries(raw_ys);
    let xs: Vec<F32> = collect_boundaries(raw_xs);
    if ys.len() < 3 || xs.len() < 2 {
        return None;
    }
    let zero: F32 = F32::from_bits(0);
    if page_width.gt(zero) && page_height.gt(zero) {
        let width: F32 = xs[xs.len() - 1].sub(xs[0]);
        let height: F32 = ys[ys.len() - 1].sub(ys[0]);
        let coverage: F32 = width.div(page_width).mul(height.div(page_height));
        if coverage.gt(F32::fraction(19, 20)) {
            return None;
        }
    }
    build_table_in_grid(lines, &ys, &xs)
}

/// Runs are ordered by their first line.
impl Keyed for super::blocks::Run {
    open spec fn key(self) -> Key {
        Key { first: 0, second: 0, third: self.start as u64 }
    }
}

impl Keyed for TableRun {
    open spec fn key(self) -> Key {
        Key { first: 0, second: 0, third: self.start as u64 }
    }
}

impl KeyedValue for TableRun {
    fn key_of(&self) -> (k: Key) {
        Key { first: 0, second: 0, third: self.start as u64 }
    }
}

/// Sorts runs by their first line.
pub fn sort_runs(runs: Vec<TableRun>) -> (r: Vec<TableRun>)
    ensures
        super::blocks::runs_of(r@) == crate::sorting::sorted(super::blocks::runs_of(runs@)),
{
    let ghost before = runs@;
    let r: Vec<TableRun> = sort(runs);
    proof {
        let f = |run: TableRun| run@;
        crate::sorting::lemma_sorted_map(before, f);
        assert(before.map_values(f) =~= super::blocks::runs_of(before));
        assert(r@.map_values(f) =~= super::blocks::runs_of(r@));
    }
    r
}

/// The tables of the components, in their order.
pub open spec fn component_tables(
    hs: Seq<HSeg>,
    vs: Seq<VSeg>,
    components: Seq<(Seq<usize>, Seq<usize>)>,
    lines: Seq<crate::types::Line>,
    page_width: F32,
    page_height: F32,
) -> Seq<super::blocks::Run>
    decreases components.len(),
{
    if components.len() == 0 {
        Seq::empty()
    } else {
        let before = component_tables(
            hs,
            vs,
            components.drop_last(),
            lines,
            page_width,
            page_height,
        );
        match ruled_table(hs, vs, components.last(), lines, page_width, page_height) {
            Some(run) => before.push(run),
            None => before,
        }
    }
}

/// The ruled tables of a page, in the order of their first lines.
pub open spec fn ruled_tables(
    lines: Seq<crate::types::Line>,
    graphics: Seq<GraphicPrimitive>,
    page_width: F32,
    page_height: F32,
) -> Seq<super::blocks::Run> {
    let hs = super::rules::clustered_h(super::rules::h_segments(graphics));
    let vs = super::rules::clustered_v(super::rules::v_segments(graphics));
    let components = super::components::grids(hs, vs, hs.len());
    crate::sorting::sorted(
        component_tables(hs, vs, components, lines, page_width, page_height),
    )
}

proof fn lemma_grid_bounds(hs: Seq<HSeg>, vs: Seq<VSeg>, n: nat, i: int)
    requires
        0 <= i < super::components::grids(hs, vs, n).len(),
        hs.len() <= usize::MAX,
        vs.len() <= usize::MAX,
    ensures
        forall|k: int|
            0 <= k < super::components::grids(hs, vs, n)[i].0.len() ==> (
            #[trigger] super::components::grids(hs, vs, n)[i].0[k]) < hs.len(),
        forall|k: int|
            0 <= k < super::components::grids(hs, vs, n)[i].1.len() ==> (
            #[trigger] super::components::grids(hs, vs, n)[i].1[k]) < vs.len(),
    decreases n,
{
    if n > 0 {
        let before = super::components::grids(hs, vs, (n - 1) as nat);
        if i < before.len() {
            lemma_grid_bounds(hs, vs, (n - 1) as nat, i);
        } else {
            super::components::lemma_indices_below(
                hs.len(),
                |k: int| super::components::in_one_grid(hs, vs, n - 1, k),
            );
            super::components::lemma_indices_below(
                vs.len(),
                |k: int| super::components::in_one_grid(hs, vs, n - 1, hs.len() + k),
            );
        }
    }
}

/// Detect ruled-grid tables on a page from its vector graphics. Returns runs
/// in document order (sorted by `start`).
pub fn detect_ruled_tables(
    lines: &Vec<ProjectedLine>,
    graphics: &Vec<GraphicPrimitive>,
    page_width: F32,
    page_height: F32,
) -> (r: Vec<TableRun>)
    ensures
        super::blocks::runs_of(r@) == ruled_tables(
            crate::types::lines_of(lines@),
            graphics@,
            page_width,
            page_height,
        ),
{
    let ghost all = crate::types::lines_of(lines@);
    let (raw_hs, raw_vs) = extract_h_v_segments(graphics);
    let hs: Vec<HSeg> = cluster_h_segments(raw_hs);
    let vs: Vec<VSeg> = cluster_v_segments(raw_vs);
    let n_h: usize = hs.len();
    let n_v: usize = vs.len();
    let components: Vec<(Vec<usize>, Vec<usize>)> = find_grid_components(&hs, &vs);
    let ghost grids = super::components::components_of(components@);
    let mut out: Vec<TableRun> = Vec::new();
    let mut i: usize = 0;
    assert(super::blocks::runs_of(out@) =~= Seq::empty());
    while i < components.len()
        invariant
            i <= components@.len(),
            n_h == hs@.len(),
            n_v == vs@.len(),
            all == crate::types::lines_of(lines@),
            grids == super::components::components_of(components@),
            grids == super::components::grids(hs@, vs@, hs@.len()),
            super::blocks::runs_of(out@) == component_tables(
                hs@,
                vs@,
                grids.take(i as int),
                all,
                page_width,
                page_height,
            ),
        decreases components@.len() - i,
    {
        assert(grids.take(i + 1).drop_last() =~= grids.take(i as int));
        proof {
            lemma_grid_bounds(hs@, vs@, hs@.len(), i as int);
            assert(grids[i as int].0 == components@[i as int].0@);
            assert(grids[i as int].1 == components@[i as int].1@);
        }
        match build_ruled_table(
            &hs,
            &vs,
            &components[i].0,
            &components[i].1,
            lines,
            page_width,
            page_height,
        ) {
            Some(run) => {
                let ghost before = super::blocks::runs_of(out@);
                let ghost model = run@;
                out.push(run);
                assert(super::blocks::runs_of(out@) =~= before.push(model));
            },
            None => {},
        }
        i = i + 1;
    }
    assert(grids.take(i as int) =~= grids);
    sort_runs(out)
}

proof fn lemma_filled_bounds(slots: Seq<Slot>)
    ensures
        0 <= first_filled(slots) <= slots.len(),
        0 <= after_filled(slots) <= slots.len(),
        after_filled(slots) > 0 ==> first_filled(slots) < after_filled(slots),
        after_filled(slots) == 0 ==> first_filled(slots) == slots.len(),
    decreases slots.len(),
{
    if slots.len() > 0 {
        lemma_filled_bounds(slots.drop_last());
    }
}

/// A table in a grid takes up lines that there are; its header and its rows have the same
/// number of columns, and there is a row.
pub proof fn ruled_tables_are_rectangular(
    lines: Seq<crate::types::Line>,
    ys: Seq<F32>,
    xs: Seq<F32>,
)
    ensures
        table_in_grid(lines, ys, xs) matches Some(run) ==> {
            &&& 0 <= run.start < run.end <= lines.len()
            &&& run.block matches super::blocks::Content::Table { header, rows } && {
                &&& rows.len() > 0
                &&& header matches Some(h) ==> h.len() == rows[0].len()
                &&& forall|i: int| 0 <= i < rows.len() ==> (#[trigger] rows[i]).len() == rows[0].len()
            }
        },
{
    lemma_filled_bounds(slots_of(lines, ys, xs));
}

proof fn lemma_component_tables(
    hs: Seq<HSeg>,
    vs: Seq<VSeg>,
    components: Seq<(Seq<usize>, Seq<usize>)>,
    lines: Seq<crate::types::Line>,
    page_width: F32,
    page_height: F32,
)
    ensures
        forall|i: int|
            0 <= i < component_tables(hs, vs, components, lines, page_width, page_height).len() ==> 0
                <= (#[trigger] component_tables(
                hs,
                vs,
                components,
                lines,
                page_width,
                page_height,
            )[i]).start < component_tables(
                hs,
                vs,
                components,
                lines,
                page_width,
                page_height,
            )[i].end <= lines.len(),
    decreases components.len(),
{
    if components.len() > 0 {
        lemma_component_tables(hs, vs, components.drop_last(), lines, page_width, page_height);
        let component = components.last();
        let ys = super::rules::boundaries(
            Seq::new(component.0.len(), |i: int| hs[component.0[i] as int].y),
        );
        let xs = super::rules::boundaries(
            Seq::new(component.1.len(), |i: int| vs[component.1[i] as int].x),
        );
        ruled_tables_are_rectangular(lines, ys, xs);
    }
}

/// Each ruled table of a page takes up lines that there are, and they are in the order of their
/// first lines.
pub proof fn ruled_tables_lie_within_the_lines(
    lines: Seq<crate::types::Line>,
    graphics: Seq<GraphicPrimitive>,
    page_width: F32,
    page_height: F32,
)
    ensures
        crate::sorting::in_key_order(ruled_tables(lines, graphics, page_width, page_height)),
        forall|i: int|
            0 <= i < ruled_tables(lines, graphics, page_width, page_height).len() ==> 0 <= (
            #[trigger] ruled_tables(lines, graphics, page_width, page_height)[i]).start
                < ruled_tables(lines, graphics, page_width, page_height)[i].end <= lines.len(),
{
    broadcast use vstd::seq_lib::group_to_multiset_ensures;

    let hs = super::rules::clustered_h(super::rules::h_segments(graphics));
    let vs = super::rules::clustered_v(super::rules::v_segments(graphics));
    let components = super::components::grids(hs, vs, hs.len());
    let raw = component_tables(hs, vs, components, lines, page_width, page_height);
    let out = ruled_tables(lines, graphics, page_width, page_height);
    lemma_component_tables(hs, vs, components, lines, page_width, page_height);
    crate::sorting::sorting_permutes_into_order(raw);
    assert forall|i: int| 0 <= i < out.len() implies 0 <= (#[trigger] out[i]).start < out[i].end
        <= lines.len() by {
        assert(out.contains(out[i]));
        assert(raw.to_multiset().count(out[i]) > 0);
        assert(raw.contains(out[i]));
        let k = choose|k: int| 0 <= k < raw.len() && raw[k] == out[i];
        assert(raw[k].start < raw[k].end);
    }
}

/// Whether the centre of a line lies in the `r`th row and the `c`th column between the boundaries.
pub open spec fn centre_lies_in(
    line: crate::types::Line,
    ys: Seq<F32>,
    xs: Seq<F32>,
    r: int,
    c: int,
) -> bool {
    let half = F32::ratio(1, 2);
    &&& super::rules::lies_between(ys, line.bbox.y.plus(line.bbox.height.times(half)), r)
    &&& super::rules::lies_between(xs, line.bbox.x.plus(line.bbox.width.times(half)), c)
}

/// The lines that show something and whose centre lies in a cell, in their order.
pub open spec fn lines_in_cell(
    lines: Seq<crate::types::Line>,
    ys: Seq<F32>,
    xs: Seq<F32>,
    r: int,
    c: int,
) -> Seq<crate::types::Line> {
    lines.filter(
        |line: crate::types::Line| !crate::text::is_blank(line.text) && centre_lies_in(
            line,
            ys,
            xs,
            r,
            c,
        ),
    )
}

/// The texts of lines.
pub open spec fn texts_of(lines: Seq<crate::types::Line>) -> Seq<Seq<char>> {
    lines.map_values(|line: crate::types::Line| line.text)
}

/// The texts of lines without the white space around them.
pub open spec fn trimmed_texts_of(lines: Seq<crate::types::Line>) -> Seq<Seq<char>> {
    lines.map_values(|line: crate::types::Line| crate::text::trimmed(line.text))
}

/// Whether there are rows or columns between the boundaries, which ascend.
pub open spec fn are_boundaries(boundaries: Seq<F32>) -> bool {
    2 <= boundaries.len() <= usize::MAX && super::rules::are_ascending(boundaries)
}

/// A line that shows something is in the cell where its centre lies, and one that does not is in
/// none.
pub proof fn lines_are_where_their_centre_lies(
    line: crate::types::Line,
    ys: Seq<F32>,
    xs: Seq<F32>,
    r: usize,
    c: usize,
)
    requires
        are_boundaries(ys),
        are_boundaries(xs),
    ensures
        slot_of(line, ys, xs) == Some((r, c)) <==> !crate::text::is_blank(line.text)
            && centre_lies_in(line, ys, xs, r as int, c as int),
{
    let half = F32::ratio(1, 2);
    let cy = line.bbox.y.plus(line.bbox.height.times(half));
    let cx = line.bbox.x.plus(line.bbox.width.times(half));
    super::rules::values_lie_in_their_bucket(ys, cy, r as int);
    super::rules::values_lie_in_their_bucket(xs, cx, c as int);
    if let Some(i) = super::rules::bucket(ys, cy) {
        super::rules::values_lie_in_their_bucket(ys, cy, i);
    }
    if let Some(i) = super::rules::bucket(xs, cx) {
        super::rules::values_lie_in_their_bucket(xs, cx, i);
    }
}

proof fn lemma_cell_text(
    lines: Seq<crate::types::Line>,
    ys: Seq<F32>,
    xs: Seq<F32>,
    r: usize,
    c: usize,
    n: nat,
)
    requires
        are_boundaries(ys),
        are_boundaries(xs),
        n <= lines.len(),
    ensures
        cell_text(lines, slots_of(lines, ys, xs), r, c, n) == crate::text::joined(
            trimmed_texts_of(lines_in_cell(lines.take(n as int), ys, xs, r as int, c as int)),
            seq![' '],
        ),
        lines_in_cell(lines.take(n as int), ys, xs, r as int, c as int).len() > 0 ==> cell_text(
            lines,
            slots_of(lines, ys, xs),
            r,
            c,
            n,
        ).len() > 0,
    decreases n,
{
    reveal(Seq::filter);
    let now = lines_in_cell(lines.take(n as int), ys, xs, r as int, c as int);
    if n == 0 {
        assert(now =~= Seq::empty());
        assert(trimmed_texts_of(now) =~= Seq::empty());
    } else {
        let line = lines[n - 1];
        let before = lines_in_cell(lines.take(n - 1), ys, xs, r as int, c as int);
        assert(lines.take(n as int).drop_last() =~= lines.take(n - 1));
        assert(lines.take(n as int).last() == line);
        lemma_cell_text(lines, ys, xs, r, c, (n - 1) as nat);
        lines_are_where_their_centre_lies(line, ys, xs, r, c);
        assert(slots_of(lines, ys, xs)[n - 1] == slot_of(line, ys, xs));
        if slot_of(line, ys, xs) == Some((r, c)) {
            assert(now == before.push(line));
            let (s, t) = (trimmed_texts_of(now), trimmed_texts_of(before));
            assert(s =~= t.push(crate::text::trimmed(line.text)));
            assert(s.drop_last() =~= t);
            crate::text::trimming_empties_blank_texts(line.text);
            let text = cell_text(lines, slots_of(lines, ys, xs), r, c, (n - 1) as nat);
            if t.len() == 0 {
                assert(text =~= Seq::empty());
                assert(text + s[0] =~= s[0]);
            } else {
                assert(text.push(' ') =~= text + seq![' ']);
            }
        }
    }
}

proof fn lemma_trimmed_texts(lines: Seq<crate::types::Line>)
    ensures
        crate::text::all_ink(trimmed_texts_of(lines)) == crate::text::all_ink(texts_of(lines)),
    decreases lines.len(),
{
    if lines.len() > 0 {
        let before = lines.drop_last();
        lemma_trimmed_texts(before);
        assert(trimmed_texts_of(lines).drop_last() =~= trimmed_texts_of(before));
        assert(texts_of(lines).drop_last() =~= texts_of(before));
        crate::text::trimming_keeps_the_ink(lines.last().text);
    }
}

/// The text of a cell is that of the lines whose centre lies in it: their texts, without the white
/// space around them, in their order and with a blank between two. So it holds all that these
/// lines show.
pub proof fn cells_hold_the_lines_in_them(
    lines: Seq<crate::types::Line>,
    ys: Seq<F32>,
    xs: Seq<F32>,
    r: usize,
    c: usize,
)
    requires
        are_boundaries(ys),
        are_boundaries(xs),
    ensures
        ({
            let text = cell_text(lines, slots_of(lines, ys, xs), r, c, lines.len());
            let there = lines_in_cell(lines, ys, xs, r as int, c as int);
            &&& text == crate::text::joined(trimmed_texts_of(there), seq![' '])
            &&& crate::text::ink(text) == crate::text::all_ink(texts_of(there))
        }),
{
    let there = lines_in_cell(lines, ys, xs, r as int, c as int);
    assert(lines.take(lines.len() as int) =~= lines);
    lemma_cell_text(lines, ys, xs, r, c, lines.len());
    crate::text::joining_adds_no_ink(trimmed_texts_of(there), seq![' ']);
    lemma_trimmed_texts(there);
}

/// Whether the places ascend and lie between the boundaries.
pub open spec fn are_places(places: Seq<int>, boundaries: Seq<F32>) -> bool {
    &&& forall|i: int| 0 <= i < places.len() ==> 0 <= #[trigger] places[i] < boundaries.len() - 1
    &&& forall|i: int, j: int|
        0 <= i < j < places.len() ==> (#[trigger] places[i]) < (#[trigger] places[j])
}

/// Whether a table stands for the lines in a grid, with the given rows and columns of the grid.
/// Its cells hold the texts of the lines whose centre lies there, one after the other. Each line
/// that shows something and whose centre lies in the grid lies in one of its cells. The first row
/// is the header if it has a line, and all of its lines are bold. The run goes from the first of
/// these lines to the last.
pub open spec fn stands_for(
    run: super::blocks::Run,
    lines: Seq<crate::types::Line>,
    ys: Seq<F32>,
    xs: Seq<F32>,
    rows: Seq<int>,
    columns: Seq<int>,
) -> bool {
    let cells = super::blocks::rows_with_header(run.block);
    &&& run.block matches super::blocks::Content::Table { header, .. } && {
        header is Some <==> {
            &&& exists|k: int, c: int|
                0 <= k < lines.len() && !crate::text::is_blank(lines[k].text)
                    && #[trigger] centre_lies_in(lines[k], ys, xs, rows[0], c)
            &&& forall|k: int, c: int|
                0 <= k < lines.len() && !crate::text::is_blank(lines[k].text)
                    && #[trigger] centre_lies_in(lines[k], ys, xs, rows[0], c)
                    ==> lines[k].all_bold
        }
    }
    &&& cells.len() == rows.len() >= 2
    &&& columns.len() >= 1
    &&& are_places(rows, ys)
    &&& are_places(columns, xs)
    &&& forall|i: int| 0 <= i < rows.len() ==> (#[trigger] cells[i]).len() == columns.len()
    &&& forall|i: int, j: int|
        #![trigger cells[i][j]]
        0 <= i < rows.len() && 0 <= j < columns.len() ==> {
            let there = lines_in_cell(lines, ys, xs, rows[i], columns[j]);
            &&& cells[i][j] == crate::text::joined(trimmed_texts_of(there), seq![' '])
            &&& crate::text::ink(cells[i][j]) == crate::text::all_ink(texts_of(there))
        }
    &&& forall|k: int, r: int, c: int|
        0 <= k < lines.len() && !crate::text::is_blank(lines[k].text) && #[trigger] centre_lies_in(
            lines[k],
            ys,
            xs,
            r,
            c,
        ) ==> rows.contains(r) && columns.contains(c) && run.start <= k < run.end
    &&& exists|r: int, c: int| #[trigger] centre_lies_in(lines[run.start], ys, xs, r, c)
    &&& exists|r: int, c: int| #[trigger] centre_lies_in(lines[run.end - 1], ys, xs, r, c)
    &&& 0 <= run.start < run.end <= lines.len()
}

proof fn lemma_filled_range(slots: Seq<Slot>)
    ensures
        forall|k: int|
            0 <= k < slots.len() && (#[trigger] slots[k]) is Some ==> first_filled(slots) <= k
                < after_filled(slots),
        first_filled(slots) < slots.len() ==> slots[first_filled(slots)] is Some,
        after_filled(slots) > 0 ==> slots[after_filled(slots) - 1] is Some,
    decreases slots.len(),
{
    if slots.len() > 0 {
        let before = slots.drop_last();
        lemma_filled_range(before);
        lemma_filled_bounds(before);
        assert forall|k: int| 0 <= k < slots.len() && (#[trigger] slots[k]) is Some implies
            first_filled(slots) <= k < after_filled(slots) by {
            if k < slots.len() - 1 {
                assert(before[k] is Some);
            }
        }
    }
}

spec fn as_places(indices: Seq<usize>) -> Seq<int> {
    indices.map_values(|i: usize| i as int)
}

proof fn lemma_kept(all: Seq<F32>, boundaries: Seq<F32>, is_filled: spec_fn(int) -> bool, share: F32)
    requires
        2 <= boundaries.len() <= usize::MAX,
        all == extents(boundaries),
    ensures
        are_places(as_places(kept(all, is_filled, share)), boundaries),
        forall|i: int|
            0 <= i < boundaries.len() - 1 && #[trigger] is_filled(i) ==> as_places(
                kept(all, is_filled, share),
            ).contains(i),
{
    let least = typical_extent(all, is_filled).times(share);
    let p = |i: int| is_filled(i) || least.at_most(all[i]);
    let out = kept(all, is_filled, share);
    super::components::indices_are_those_where(all.len(), p);
    assert(out == super::components::indices_where(all.len(), p));
    let places = as_places(out);
    assert forall|i: int| 0 <= i < places.len() implies 0 <= #[trigger] places[i]
        < boundaries.len() - 1 by {
        assert(out[i] < all.len());
    }
    assert forall|i: int, j: int| 0 <= i < j < places.len() implies (#[trigger] places[i]) < (
    #[trigger] places[j]) by {
        assert(out[i] < out[j]);
    }
    assert forall|i: int| 0 <= i < boundaries.len() - 1 && #[trigger] is_filled(i) implies
        places.contains(i) by {
        assert(p(i));
        let k = choose|k: int| 0 <= k < out.len() && out[k] == i as usize;
        assert(places[k] == i);
    }
}

/// A table in a grid stands for the lines whose centres lie in it.
pub proof fn ruled_tables_stand_for_their_lines(
    lines: Seq<crate::types::Line>,
    ys: Seq<F32>,
    xs: Seq<F32>,
)
    requires
        are_boundaries(ys),
        are_boundaries(xs),
    ensures
        table_in_grid(lines, ys, xs) matches Some(run) ==> exists|rows: Seq<int>, columns: Seq<int>|
            stands_for(run, lines, ys, xs, rows, columns),
{
    let slots = slots_of(lines, ys, xs);
    let rows = kept_rows(slots, ys);
    let columns = kept_columns(slots, xs);
    if let Some(run) = table_in_grid(lines, ys, xs) {
        let texts = grid_texts(lines, slots, rows, columns);
        let cells = super::blocks::rows_with_header(run.block);
        assert(cells =~= texts);
        let (rs, cs) = (as_places(rows), as_places(columns));
        let by_row = |r: int| row_filled(slots, r);
        let by_column = |c: int| column_filled(slots, c);
        lemma_kept(extents(ys), ys, by_row, F32::ratio(1, 2));
        lemma_kept(extents(xs), xs, by_column, F32::ratio(3, 10));
        lemma_filled_bounds(slots);
        lemma_filled_range(slots);
        assert forall|k: int, r: int, c: int|
            0 <= k < lines.len() && !crate::text::is_blank(lines[k].text)
                && #[trigger] centre_lies_in(lines[k], ys, xs, r, c) implies rs.contains(r)
            && cs.contains(c) && run.start <= k < run.end && slots[k] == Some(
            (r as usize, c as usize),
        ) by {
            lines_are_where_their_centre_lies(lines[k], ys, xs, r as usize, c as usize);
            assert(slots[k] == Some((r as usize, c as usize)));
            assert(row_filled(slots, r));
            assert(column_filled(slots, c));
            assert(by_row(r));
            assert(by_column(c));
        }
        assert forall|i: int, j: int|
            #![trigger cells[i][j]]
            0 <= i < rs.len() && 0 <= j < cs.len() implies {
            let there = lines_in_cell(lines, ys, xs, rs[i], cs[j]);
            &&& cells[i][j] == crate::text::joined(trimmed_texts_of(there), seq![' '])
            &&& crate::text::ink(cells[i][j]) == crate::text::all_ink(texts_of(there))
        } by {
            cells_hold_the_lines_in_them(lines, ys, xs, rows[i], columns[j]);
        }
        assert forall|k: int| 0 <= k < lines.len() && (#[trigger] slots[k]) is Some implies exists|
            r: int,
            c: int,
        | #[trigger] centre_lies_in(lines[k], ys, xs, r, c) by {
            let (r, c) = slots[k]->0;
            lines_are_where_their_centre_lies(lines[k], ys, xs, r, c);
            assert(centre_lies_in(lines[k], ys, xs, r as int, c as int));
        }
        lemma_header(lines, ys, xs, rows[0], columns);
        assert(rs[0] == rows[0]);
        assert(stands_for(run, lines, ys, xs, rs, cs));
    }
}

proof fn lemma_header(
    lines: Seq<crate::types::Line>,
    ys: Seq<F32>,
    xs: Seq<F32>,
    r: usize,
    columns: Seq<usize>,
)
    requires
        are_boundaries(ys),
        are_boundaries(xs),
        columns == kept_columns(slots_of(lines, ys, xs), xs),
    ensures
        is_header_row(lines, slots_of(lines, ys, xs), r, columns) <==> {
            &&& exists|k: int, c: int|
                0 <= k < lines.len() && !crate::text::is_blank(lines[k].text)
                    && #[trigger] centre_lies_in(lines[k], ys, xs, r as int, c)
            &&& forall|k: int, c: int|
                0 <= k < lines.len() && !crate::text::is_blank(lines[k].text)
                    && #[trigger] centre_lies_in(lines[k], ys, xs, r as int, c)
                    ==> lines[k].all_bold
        },
{
    let slots = slots_of(lines, ys, xs);
    let by_column = |c: int| column_filled(slots, c);
    lemma_kept(extents(xs), xs, by_column, F32::ratio(3, 10));
    let places = as_places(columns);
    assert forall|k: int, c: int|
        0 <= k < lines.len() && !crate::text::is_blank(lines[k].text)
            && #[trigger] centre_lies_in(lines[k], ys, xs, r as int, c) implies exists|i: int|
        0 <= i < columns.len() && #[trigger] columns[i] == c && slots[k] == Some((r, columns[i]))
            && filled(slots, r, columns[i]) by {
        lines_are_where_their_centre_lies(lines[k], ys, xs, r, c as usize);
        assert(slots[k] == Some((r, c as usize)));
        assert(by_column(c));
        let i = choose|i: int| 0 <= i < places.len() && places[i] == c;
        assert(columns[i] == c);
    }
    assert forall|i: int, k: int|
        0 <= i < columns.len() && 0 <= k < lines.len() && #[trigger] slots[k] == Some(
            (r, #[trigger] columns[i]),
        ) implies !crate::text::is_blank(lines[k].text) && centre_lies_in(
        lines[k],
        ys,
        xs,
        r as int,
        columns[i] as int,
    ) by {
        lines_are_where_their_centre_lies(lines[k], ys, xs, r, columns[i]);
    }
}

proof fn lemma_front_filter<T>(s: Seq<T>, p: spec_fn(T) -> bool, k: int)
    requires
        0 <= k <= s.len(),
        forall|i: int| k <= i < s.len() ==> !p(#[trigger] s[i]),
    ensures
        s.filter(p).len() <= k,
    decreases s.len(),
{
    reveal(Seq::filter);
    if s.len() > 0 {
        let d = s.drop_last();
        let n = s.len() - 1;
        if k <= n {
            assert forall|i: int| k <= i < d.len() implies !p(#[trigger] d[i]) by {
                assert(s[i] == d[i]);
            }
            lemma_front_filter(d, p, k);
            assert(!p(s[n]));
        } else {
            lemma_front_filter(d, p, n);
        }
    }
}

proof fn lemma_back_filter<T>(s: Seq<T>, p: spec_fn(T) -> bool, k: int)
    requires
        0 <= k <= s.len(),
        forall|i: int| 0 <= i < k ==> !p(#[trigger] s[i]),
    ensures
        s.filter(p).len() <= s.len() - k,
    decreases s.len(),
{
    reveal(Seq::filter);
    if s.len() > 0 {
        let d = s.drop_last();
        let n = s.len() - 1;
        if k <= n {
            assert forall|i: int| 0 <= i < k implies !p(#[trigger] d[i]) by {
                assert(s[i] == d[i]);
            }
            lemma_back_filter(d, p, k);
        } else {
            assert forall|i: int| 0 <= i < n implies !p(#[trigger] d[i]) by {
                assert(s[i] == d[i]);
            }
            lemma_back_filter(d, p, n);
            assert(!p(s[n]));
        }
    }
}

/// The median is one of the values; at most half of them are smaller, and fewer than half greater.
pub proof fn the_median_lies_in_the_middle(s: Seq<F32>)
    requires
        s.len() > 0,
    ensures
        s.contains(median(s)),
        2 * s.filter(|x: F32| x.rank() < median(s).rank()).len() <= s.len(),
        2 * s.filter(|x: F32| x.rank() > median(s).rank()).len() < s.len(),
{
    let ordered = crate::sorting::sorted(s);
    let k = s.len() as int / 2;
    let m = median(s);
    let p = |x: F32| x.rank() < m.rank();
    let q = |x: F32| x.rank() > m.rank();
    crate::sorting::sorting_permutes_into_order(s);
    crate::permutations::lemma_same_elements(ordered, s);
    assert(ordered.contains(ordered[k]));
    crate::sorting::sorting_commutes_with_filtering(s, p);
    crate::sorting::sorting_commutes_with_filtering(s, q);
    crate::sorting::sorting_permutes_into_order(s.filter(p));
    crate::sorting::sorting_permutes_into_order(s.filter(q));
    assert forall|i: int| k <= i < ordered.len() implies !p(#[trigger] ordered[i]) by {
        assert(Keyed::key(ordered[k]).at_most(Keyed::key(ordered[i])));
    }
    assert forall|i: int| 0 <= i < k + 1 implies !q(#[trigger] ordered[i]) by {
        assert(Keyed::key(ordered[i]).at_most(Keyed::key(ordered[k])));
    }
    lemma_front_filter(ordered, p, k);
    lemma_back_filter(ordered, q, k + 1);
}

/// A row or column is kept if it is filled. On whole points, one that is empty is kept, with a share
/// of one half, exactly if it reaches half of the typical extent.
pub proof fn empty_rows_are_kept_from_half_the_typical_height(
    all: Seq<F32>,
    is_filled: spec_fn(int) -> bool,
    r: int,
    e: int,
    m: int,
)
    requires
        0 <= r < all.len() <= usize::MAX,
        all[r].is_whole(e),
        typical_extent(all, is_filled).is_whole(m),
        0 <= e < 4096,
        0 <= m < 4096,
    ensures
        kept(all, is_filled, F32::ratio(1, 2)).contains(r as usize) <==> is_filled(r) || 2 * e >= m,
{
    let typical = typical_extent(all, is_filled);
    let least = typical.times(F32::ratio(1, 2));
    let p = |i: int| is_filled(i) || least.at_most(all[i]);
    crate::float::exact::measured_half(typical, 128 * m);
    crate::float::exact::measures_are_ordered(least, all[r], 128 * m, 256 * e);
    super::components::indices_are_those_where(all.len(), p);
    let out = kept(all, is_filled, F32::ratio(1, 2));
    assert(out == super::components::indices_where(all.len(), p));
    assert(p(r) ==> out.contains(r as usize));
    if out.contains(r as usize) {
        let k = choose|k: int| 0 <= k < out.len() && out[k] == r as usize;
        assert(p(out[k] as int));
    }
}

proof fn lemma_three_tenths()
    ensures
        F32::ratio(3, 10).finite(),
        !F32::ratio(3, 10).negative(),
        F32::ratio(3, 10).units() == 10066330 * pow2(124),
        pow2(149) == 0x200_0000 * pow2(124),
        pow2(124) > 0,
{
    lemma2_to64();
    lemma_pow2_adds(24, 1);
    lemma_pow2_adds(124, 25);
    lemma_pow2_pos(124);
    assert(pow2(25) == 0x200_0000);
    assert(crate::float::rounding::half_even(3 * 0x200_0000, 10) == 10066330);
    crate::float::exact::ratio_has_units(3, 10, 124, 10066330);
}

/// On whole points, an empty column is kept if it is wider than three tenths of the typical width,
/// and not kept if it is narrower.
pub proof fn empty_columns_are_kept_from_three_tenths_of_the_typical_width(
    all: Seq<F32>,
    is_filled: spec_fn(int) -> bool,
    c: int,
    e: int,
    m: int,
)
    requires
        0 <= c < all.len() <= usize::MAX,
        all[c].is_whole(e),
        typical_extent(all, is_filled).is_whole(m),
        !typical_extent(all, is_filled).negative(),
        0 <= e < 4096,
        0 <= m < 4096,
    ensures
        is_filled(c) || 10 * e > 3 * m ==> kept(all, is_filled, F32::ratio(3, 10)).contains(
            c as usize,
        ),
        !is_filled(c) && 10 * e < 3 * m ==> !kept(all, is_filled, F32::ratio(3, 10)).contains(
            c as usize,
        ),
{
    let typical = typical_extent(all, is_filled);
    let share = F32::ratio(3, 10);
    let least = typical.times(share);
    let p = |i: int| is_filled(i) || least.at_most(all[i]);
    super::components::indices_are_those_where(all.len(), p);
    let out = kept(all, is_filled, share);
    assert(out == super::components::indices_where(all.len(), p));
    assert(p(c) ==> out.contains(c as usize));
    if out.contains(c as usize) {
        let k = choose|k: int| 0 <= k < out.len() && out[k] == c as usize;
        assert(p(out[k] as int));
    }
    lemma_three_tenths();
    lemma2_to64();
    lemma_pow2_adds(141, 8);
    lemma_pow2_adds(124, 17);
    let (u, q, one) = (pow2(124) as int, pow2(141) as int, pow2(149) as int);
    assert(q == u * 0x2_0000);
    assert((256 * m) * q >= 0) by (nonlinear_arith)
        requires m >= 0, q >= 0;
    assert(typical.units() == (256 * m) * q);
    if 10 * e > 3 * m {
        let f = F32::from_nat(e as nat);
        crate::float::exact::naturals_are_whole(e as nat);
        crate::float::bounds::small_naturals_are_exact(e as nat);
        crate::float::bounds::naturals_are_not_negative(e as nat);
        crate::float::exact::product_bounds(typical, share, f);
        assert(((256 * m) * q) * (10066330 * u) <= (e * one) * one) by (nonlinear_arith)
            requires
                10 * e > 3 * m,
                m < 4096,
                m >= 0,
                q == u * 0x2_0000,
                one == 0x200_0000 * u,
                u > 0,
        ;
        crate::float::exact::measures_are_ordered(f, all[c], 256 * e, 256 * e);
    }
    if 10 * e < 3 * m {
        let v = (256 * e + 1) as nat;
        let f = crate::float::exact::of_parts(v);
        crate::float::exact::parts_are_exact(v);
        crate::float::exact::product_bounds(typical, share, f);
        assert(((256 * m) * q) * (10066330 * u) >= (v * q) * one) by (nonlinear_arith)
            requires
                10 * e < 3 * m,
                v == 256 * e + 1,
                e >= 0,
                q == u * 0x2_0000,
                one == 0x200_0000 * u,
                u > 0,
        ;
        crate::float::exact::measures_are_ordered(all[c], f, 256 * e, v as int);
    }
}

/// The empty cells of a row are those that no line stands in, and those of several rows are the ones
/// of each.
pub proof fn empty_cells_are_counted_row_by_row(
    slots: Seq<Slot>,
    rows: Seq<usize>,
    r: usize,
    columns: Seq<usize>,
)
    ensures
        empty_cells(slots, rows.push(r), columns) == empty_cells(slots, rows, columns)
            + columns.filter(|c: usize| !filled(slots, r, c)).len(),
        empty_cells(slots, Seq::empty(), columns) == 0,
{
    assert(rows.push(r).drop_last() =~= rows);
    lemma_empty_in_row(slots, r, columns);
}

proof fn lemma_empty_in_row(slots: Seq<Slot>, r: usize, columns: Seq<usize>)
    ensures
        empty_in_row(slots, r, columns) == columns.filter(|c: usize| !filled(slots, r, c)).len(),
    decreases columns.len(),
{
    reveal(Seq::filter);
    if columns.len() > 0 {
        lemma_empty_in_row(slots, r, columns.drop_last());
    }
}

/// A grid is mostly empty exactly if more than three of ten cells are.
pub proof fn grids_are_mostly_empty_above_three_tenths(
    slots: Seq<Slot>,
    rows: Seq<usize>,
    columns: Seq<usize>,
)
    requires
        0 < rows.len() * columns.len() < 0x1_0000,
        empty_cells(slots, rows, columns) < 0x1_0000,
    ensures
        mostly_empty(slots, rows, columns) <==> 10 * empty_cells(slots, rows, columns) > 3 * (
        rows.len() * columns.len()),
{
    let (e, n) = (empty_cells(slots, rows, columns), (rows.len() * columns.len()) as nat);
    let (a, b) = (F32::from_nat(e), F32::from_nat(n));
    let share = F32::ratio(3, 10);
    lemma_three_tenths();
    crate::float::bounds::small_naturals_are_exact(e);
    crate::float::bounds::small_naturals_are_exact(n);
    crate::float::bounds::naturals_are_not_negative(e);
    crate::float::bounds::naturals_are_not_negative(n);
    let (u, one) = (pow2(124) as int, pow2(149) as int);
    assert(n * one > 0) by (nonlinear_arith)
        requires n > 0, one > 0;
    if 10 * e <= 3 * n {
        crate::float::exact::quotient_bounds(a, b, share);
        assert((e * one) * one <= (10066330 * u) * (n * one)) by (nonlinear_arith)
            requires 10 * e <= 3 * n, one == 0x200_0000 * u, u > 0, n > 0;
    } else {
        let f = crate::float::exact::exactly(10066360, 124);
        crate::float::exact::short_numbers_are_exact(10066360, 124);
        crate::float::exact::quotient_bounds(a, b, f);
        assert((e * one) * one >= (10066360 * u) * (n * one)) by (nonlinear_arith)
            requires
                10 * e >= 3 * n + 1,
                n < 0x1_0000,
                n > 0,
                one == 0x200_0000 * u,
                u > 0,
        ;
        crate::float::order::comparison_compares_values(share, f);
        assert(10066330 * u < 10066360 * u) by (nonlinear_arith)
            requires u > 0;
    }
}

/// The rows of a table: each row of the grid that has a line is kept. On whole points, an empty row
/// from `a` to `b` is kept exactly if it is at least half as high as a typical row.
pub proof fn kept_rows_are_filled_or_high_enough(
    slots: Seq<Slot>,
    ys: Seq<F32>,
    r: int,
    a: int,
    b: int,
    m: int,
)
    requires
        0 <= r < ys.len() - 1,
        ys.len() <= usize::MAX,
        ys[r].is_whole(a),
        ys[r + 1].is_whole(b),
        0 <= a <= b < 4096,
        typical_extent(extents(ys), |k: int| row_filled(slots, k)).is_whole(m),
        0 <= m < 4096,
    ensures
        kept_rows(slots, ys).contains(r as usize) <==> row_filled(slots, r) || 2 * (b - a) >= m,
{
    crate::float::exact::whole_difference(ys[r + 1], ys[r], b, a);
    empty_rows_are_kept_from_half_the_typical_height(
        extents(ys),
        |k: int| row_filled(slots, k),
        r,
        b - a,
        m,
    );
}

/// The columns of a table: each column of the grid that has a line is kept. On whole points, an
/// empty column from `a` to `b` is kept if it is wider than three tenths of a typical column, and
/// not if it is narrower.
pub proof fn kept_columns_are_filled_or_wide_enough(
    slots: Seq<Slot>,
    xs: Seq<F32>,
    c: int,
    a: int,
    b: int,
    m: int,
)
    requires
        0 <= c < xs.len() - 1,
        xs.len() <= usize::MAX,
        xs[c].is_whole(a),
        xs[c + 1].is_whole(b),
        0 <= a <= b < 4096,
        typical_extent(extents(xs), |k: int| column_filled(slots, k)).is_whole(m),
        !typical_extent(extents(xs), |k: int| column_filled(slots, k)).negative(),
        0 <= m < 4096,
    ensures
        column_filled(slots, c) || 10 * (b - a) > 3 * m ==> kept_columns(slots, xs).contains(
            c as usize,
        ),
        !column_filled(slots, c) && 10 * (b - a) < 3 * m ==> !kept_columns(slots, xs).contains(
            c as usize,
        ),
{
    crate::float::exact::whole_difference(xs[c + 1], xs[c], b, a);
    empty_columns_are_kept_from_three_tenths_of_the_typical_width(
        extents(xs),
        |k: int| column_filled(slots, k),
        c,
        b - a,
        m,
    );
}

/// A grid becomes a table exactly if a line that shows something has its centre in it, there are two
/// rows or more and a column, three rows where there is one column alone, and at most three of ten
/// cells are empty.
pub proof fn grids_become_tables(lines: Seq<crate::types::Line>, ys: Seq<F32>, xs: Seq<F32>)
    requires
        are_boundaries(ys),
        are_boundaries(xs),
        ({
            let slots = slots_of(lines, ys, xs);
            let (rows, columns) = (kept_rows(slots, ys), kept_columns(slots, xs));
            &&& rows.len() * columns.len() < 0x1_0000
            &&& empty_cells(slots, rows, columns) < 0x1_0000
        }),
    ensures
        ({
            let slots = slots_of(lines, ys, xs);
            let (rows, columns) = (kept_rows(slots, ys), kept_columns(slots, xs));
            table_in_grid(lines, ys, xs) is Some <==> {
                &&& exists|k: int, r: int, c: int|
                    0 <= k < lines.len() && !crate::text::is_blank(lines[k].text)
                        && #[trigger] centre_lies_in(lines[k], ys, xs, r, c)
                &&& rows.len() >= 2 && columns.len() >= 1
                &&& columns.len() == 1 ==> rows.len() >= 3
                &&& 10 * empty_cells(slots, rows, columns) <= 3 * (rows.len() * columns.len())
            }
        }),
{
    let slots = slots_of(lines, ys, xs);
    let (rows, columns) = (kept_rows(slots, ys), kept_columns(slots, xs));
    lemma_filled_bounds(slots);
    lemma_filled_range(slots);
    if rows.len() >= 2 && columns.len() >= 1 {
        assert(rows.len() * columns.len() > 0) by (nonlinear_arith)
            requires rows.len() >= 2, columns.len() >= 1;
        grids_are_mostly_empty_above_three_tenths(slots, rows, columns);
    }
    assert(after_filled(slots) > 0 <==> exists|k: int, r: int, c: int|
        0 <= k < lines.len() && !crate::text::is_blank(lines[k].text) && #[trigger] centre_lies_in(
            lines[k],
            ys,
            xs,
            r,
            c,
        )) by {
        if after_filled(slots) > 0 {
            let k = after_filled(slots) - 1;
            let (r, c) = slots[k]->0;
            lines_are_where_their_centre_lies(lines[k], ys, xs, r, c);
            assert(centre_lies_in(lines[k], ys, xs, r as int, c as int));
        }
        if exists|k: int, r: int, c: int|
            0 <= k < lines.len() && !crate::text::is_blank(lines[k].text)
                && #[trigger] centre_lies_in(lines[k], ys, xs, r, c) {
            let (k, r, c) = choose|k: int, r: int, c: int|
                0 <= k < lines.len() && !crate::text::is_blank(lines[k].text)
                    && #[trigger] centre_lies_in(lines[k], ys, xs, r, c);
            lines_are_where_their_centre_lies(lines[k], ys, xs, r as usize, c as usize);
            assert(slots[k] is Some);
        }
    }
}

proof fn lemma_covered_axis(a: F32, b: F32, page: F32, v: int, w: int, n: int, f: F32)
    requires
        a.is_whole(v),
        b.is_whole(w),
        page.is_whole(n),
        0 <= v <= w < 4096,
        0 < n < 4096,
        f.finite(),
        !f.negative(),
    ensures
        ({
            let q = b.minus(a).over(page);
            &&& !q.nan()
            &&& (F32 { bits: 0 }).at_most(q)
            &&& (w - v) * pow2(149) <= f.units() * n ==> q.at_most(f)
            &&& (w - v) * pow2(149) >= f.units() * n ==> f.at_most(q)
        }),
{
    let zero = F32 { bits: 0 };
    let d = b.minus(a);
    let m = w - v;
    let (one, p) = (pow2(149) as int, pow2(141) as int);
    crate::float::exact::whole_difference(b, a, w, v);
    lemma2_to64();
    lemma_pow2_adds(141, 8);
    lemma_pow2_pos(149);
    assert((256 * m) * p == m * one && (256 * n) * p == n * one) by (nonlinear_arith)
        requires one == p * 256;
    assert(n * one > 0) by (nonlinear_arith)
        requires n > 0, one > 0;
    assert(m * one >= 0) by (nonlinear_arith)
        requires m >= 0, one > 0;
    crate::float::bounds::lemma_zero_units(zero);
    let u = f.units() as int;
    assert(u * (n * one) == (u * n) * one) by (nonlinear_arith);
    assert(m * one <= u * n ==> (m * one) * one <= (u * n) * one) by (nonlinear_arith)
        requires one > 0;
    assert(m * one >= u * n ==> (m * one) * one >= (u * n) * one) by (nonlinear_arith)
        requires one > 0;
    if d.negative() {
        assert(d.units() == 0);
        crate::float::order::magnitude_orders_units(d, zero);
        crate::float::order::magnitude_orders_units(page, zero);
        assert(d.over(page).zero()) by {
            reveal(F32::over);
        }
        if m * one >= u * n {
            assert(u == 0) by (nonlinear_arith)
                requires u * n <= 0, n > 0, u >= 0;
            crate::float::order::magnitude_orders_units(f, zero);
        }
    } else {
        crate::float::exact::quotient_bounds(d, page, f);
    }
}

proof fn lemma_nineteen_twentieths()
    ensures
        F32::ratio(19, 20).finite(),
        !F32::ratio(19, 20).negative(),
        F32::ratio(19, 20).units() == 15938355 * pow2(125),
        pow2(149) == 0x100_0000 * pow2(125),
        pow2(125) > 0,
{
    lemma2_to64();
    lemma_pow2_adds(125, 24);
    lemma_pow2_pos(125);
    assert(crate::float::rounding::half_even(19 * 0x100_0000, 20) == 15938355);
    crate::float::exact::ratio_has_units(19, 20, 125, 15938355);
}

/// On whole points, a grid that takes up 63 of 64 parts of the page or more, both across and down,
/// covers the page; one that takes up at most 243 of 256 parts in one direction, and no more than
/// the page in the other, does not.
pub proof fn grids_cover_the_page(
    ys: Seq<F32>,
    xs: Seq<F32>,
    page_width: F32,
    page_height: F32,
    g: crate::types::Frame,
    width: int,
    height: int,
)
    requires
        ys.len() > 0,
        xs.len() > 0,
        g.is_on_page(),
        xs[0].is_whole(g.left),
        xs.last().is_whole(g.right),
        ys[0].is_whole(g.top),
        ys.last().is_whole(g.bottom),
        page_width.is_whole(width),
        page_height.is_whole(height),
        0 < width < 4096,
        0 < height < 4096,
    ensures
        ({
            let (w, h) = (g.right - g.left, g.bottom - g.top);
            &&& 64 * w >= 63 * width && 64 * h >= 63 * height ==> covers_page(
                ys,
                xs,
                page_width,
                page_height,
            )
            &&& (256 * w <= 243 * width && h <= height) || (w <= width && 256 * h <= 243 * height)
                ==> !covers_page(ys, xs, page_width, page_height)
        }),
{
    let zero = F32 { bits: 0 };
    let (w, h) = (g.right - g.left, g.bottom - g.top);
    let limit = F32::ratio(19, 20);
    let (a, b, c, one) = (
        crate::float::exact::of_parts(252),
        crate::float::exact::of_parts(243),
        crate::float::exact::of_parts(248),
        crate::float::exact::of_parts(256),
    );
    crate::float::exact::parts_are_exact(252);
    crate::float::exact::parts_are_exact(243);
    crate::float::exact::parts_are_exact(248);
    crate::float::exact::parts_are_exact(256);
    crate::float::exact::zero_is_whole();
    crate::float::exact::measures_are_ordered(zero, page_width, 0, 256 * width);
    crate::float::exact::measures_are_ordered(zero, page_height, 0, 256 * height);
    crate::float::exact::measures_are_ordered(zero, a, 0, 252);
    lemma_nineteen_twentieths();
    lemma2_to64();
    lemma_pow2_adds(141, 8);
    lemma_pow2_adds(125, 16);
    let (p, q, u) = (pow2(141) as int, pow2(149) as int, pow2(125) as int);
    assert(p == u * 0x1_0000);
    crate::float::order::comparison_compares_values(limit, c);
    crate::float::order::comparison_compares_values(b, limit);
    assert(15938355 * u < 248 * p) by (nonlinear_arith)
        requires p == u * 0x1_0000, u > 0;
    assert(243 * p < 15938355 * u) by (nonlinear_arith)
        requires p == u * 0x1_0000, u > 0;
    let (x, y) = (
        xs.last().minus(xs[0]).over(page_width),
        ys.last().minus(ys[0]).over(page_height),
    );
    lemma_covered_axis(xs[0], xs.last(), page_width, g.left, g.right, width, a);
    lemma_covered_axis(ys[0], ys.last(), page_height, g.top, g.bottom, height, a);
    lemma_covered_axis(xs[0], xs.last(), page_width, g.left, g.right, width, b);
    lemma_covered_axis(ys[0], ys.last(), page_height, g.top, g.bottom, height, b);
    lemma_covered_axis(xs[0], xs.last(), page_width, g.left, g.right, width, one);
    lemma_covered_axis(ys[0], ys.last(), page_height, g.top, g.bottom, height, one);
    lemma_share_scale(w, width, 252);
    lemma_share_scale(h, height, 252);
    lemma_share_scale(w, width, 243);
    lemma_share_scale(h, height, 243);
    lemma_share_scale(w, width, 256);
    lemma_share_scale(h, height, 256);
    if 64 * w >= 63 * width && 64 * h >= 63 * height {
        assert(a.at_most(x) && a.at_most(y));
        lemma_product_above(a, c, x, y);
    }
    if 256 * w <= 243 * width && h <= height {
        assert(x.at_most(b) && y.at_most(one));
        lemma_product_below(x, y, b, one);
    }
    if w <= width && 256 * h <= 243 * height {
        assert(x.at_most(one) && y.at_most(b));
        lemma_product_below(y, x, b, one);
        lemma_times_commutes(x, y);
    }
}

proof fn lemma_share_scale(m: int, n: int, parts: int)
    requires
        n > 0,
    ensures
        256 * m >= parts * n <==> m * pow2(149) >= (parts * pow2(141)) * n,
        256 * m <= parts * n <==> m * pow2(149) <= (parts * pow2(141)) * n,
{
    lemma2_to64();
    lemma_pow2_adds(141, 8);
    lemma_pow2_pos(141);
    let p = pow2(141) as int;
    let (x, y) = (256 * m, parts * n);
    assert(m * (p * 256) == x * p) by (nonlinear_arith)
        requires x == 256 * m;
    assert((parts * p) * n == y * p) by (nonlinear_arith)
        requires y == parts * n;
    assert(x >= y <==> x * p >= y * p) by (nonlinear_arith)
        requires p > 0;
    assert(x <= y <==> x * p <= y * p) by (nonlinear_arith)
        requires p > 0;
}

proof fn lemma_times_commutes(a: F32, b: F32)
    ensures
        a.times(b) == b.times(a),
{
    reveal(F32::times);
    assert(a.units() * b.units() == b.units() * a.units()) by (nonlinear_arith);
}

proof fn lemma_product_below(x: F32, y: F32, b: F32, one: F32)
    requires
        (F32 { bits: 0 }).at_most(x),
        (F32 { bits: 0 }).at_most(y),
        x.at_most(b),
        y.at_most(one),
        b.measures(243),
        one.measures(256),
    ensures
        x.times(y).at_most(b),
{
    let zero = F32 { bits: 0 };
    crate::float::exact::zero_is_whole();
    crate::float::exact::measures_are_ordered(zero, b, 0, 243);
    crate::float::exact::measures_are_ordered(zero, one, 0, 256);
    assert(x.finite() && y.finite());
    if x.negative() || y.negative() {
        assert(x.zero() || y.zero());
        assert(x.times(y).zero()) by {
            reveal(F32::times);
            crate::float::bounds::lemma_zero_units(zero);
            if x.zero() {
                crate::float::bounds::lemma_zero_units(x);
            } else {
                crate::float::bounds::lemma_zero_units(y);
            }
            assert(x.units() * y.units() == 0) by (nonlinear_arith)
                requires x.units() == 0 || y.units() == 0;
            lemma_pow2_pos(149);
            crate::float::bounds::rounding_is_monotone(0, pow2(149), zero);
        }
    } else {
        crate::float::exact::products_keep_the_order(x, b, y);
        crate::float::exact::products_keep_the_order(y, one, b);
        lemma_times_commutes(b, y);
        crate::float::exact::measured_product(one, b, 256, 243, 243);
        crate::float::exact::measures_are_ordered(one.times(b), b, 243, 243);
    }
}

proof fn lemma_product_above(a: F32, c: F32, x: F32, y: F32)
    requires
        a.measures(252),
        c.measures(248),
        a.at_most(x),
        a.at_most(y),
    ensures
        c.at_most(x.times(y)),
{
    let zero = F32 { bits: 0 };
    crate::float::exact::zero_is_whole();
    crate::float::exact::measures_are_ordered(zero, a, 0, 252);
    crate::float::exact::measures_are_ordered(zero, c, 0, 248);
    assert(!x.negative() && !y.negative() && !a.negative() && !c.negative());
    if x.infinite() || y.infinite() {
        assert(!x.zero() && !y.zero());
        assert(x.times(y).infinite() && !x.times(y).negative() && !x.times(y).nan()) by {
            reveal(F32::times);
        }
    } else {
        crate::float::exact::products_keep_the_order(a, x, y);
        crate::float::exact::products_keep_the_order(a, y, a);
        lemma_times_commutes(a, y);
        lemma2_to64();
        lemma_pow2_adds(141, 8);
        lemma_pow2_pos(141);
        let p = pow2(141) as int;
        assert(a.units() == 252 * p && c.units() == 248 * p);
        crate::float::exact::product_bounds(a, a, c);
        assert((252 * p) * (252 * p) >= (248 * p) * (p * 256)) by (nonlinear_arith)
            requires p > 0;
    }
}

/// Whether boundaries stand for rules at the given coordinates: they ascend, each is one of the
/// coordinates, and each coordinate is one of them or within the grid line of one.
pub open spec fn stand_for_rules(boundaries: Seq<F32>, at: Seq<F32>) -> bool {
    &&& are_boundaries(boundaries)
    &&& forall|k: int| 0 <= k < boundaries.len() ==> at.contains(#[trigger] boundaries[k])
    &&& forall|i: int|
        0 <= i < at.len() ==> exists|k: int|
            0 <= k < boundaries.len() && (#[trigger] boundaries[k] == at[i]
                || super::rules::same_grid_line(#[trigger] at[i], boundaries[k]))
}

/// The table of connected rules stands for the lines in their grid: the horizontal rules are the
/// boundaries of its rows, three at least, the vertical ones those of its columns, two at least,
/// and they do not cover the page.
pub proof fn connected_rules_give_a_table_of_their_grid(
    hs: Seq<HSeg>,
    vs: Seq<VSeg>,
    component: (Seq<usize>, Seq<usize>),
    lines: Seq<crate::types::Line>,
    page_width: F32,
    page_height: F32,
    ys: Seq<F32>,
    xs: Seq<F32>,
)
    requires
        ys == Seq::new(component.0.len(), |i: int| hs[component.0[i] as int].y),
        xs == Seq::new(component.1.len(), |i: int| vs[component.1[i] as int].x),
        super::rules::are_finite(ys),
        super::rules::are_finite(xs),
        ys.len() <= usize::MAX,
        xs.len() <= usize::MAX,
    ensures
        ruled_table(hs, vs, component, lines, page_width, page_height) matches Some(run) ==> exists|
            b: Seq<F32>,
            c: Seq<F32>,
            rows: Seq<int>,
            columns: Seq<int>,
        |
            {
                &&& stand_for_rules(b, ys) && b.len() >= 3
                &&& stand_for_rules(c, xs) && c.len() >= 2
                &&& !covers_page(b, c, page_width, page_height)
                &&& #[trigger] stands_for(run, lines, b, c, rows, columns)
            },
{
    let (b, c) = (super::rules::boundaries(ys), super::rules::boundaries(xs));
    super::rules::boundaries_stand_for_the_coordinates(ys);
    super::rules::boundaries_stand_for_the_coordinates(xs);
    super::rules::boundaries_are_no_more_than_coordinates(ys);
    super::rules::boundaries_are_no_more_than_coordinates(xs);
    if let Some(run) = ruled_table(hs, vs, component, lines, page_width, page_height) {
        ruled_tables_stand_for_their_lines(lines, b, c);
        let (rows, columns) = choose|rows: Seq<int>, columns: Seq<int>|
            stands_for(run, lines, b, c, rows, columns);
        assert(stand_for_rules(b, ys) && stand_for_rules(c, xs));
        assert(stands_for(run, lines, b, c, rows, columns));
    }
}

spec fn those_found<T>(s: Seq<Option<T>>) -> Seq<T>
    decreases s.len(),
{
    if s.len() == 0 {
        Seq::empty()
    } else {
        match s.last() {
            Some(x) => those_found(s.drop_last()).push(x),
            None => those_found(s.drop_last()),
        }
    }
}

proof fn lemma_those_found<T>(s: Seq<Option<T>>, x: T)
    ensures
        those_found(s).contains(x) <==> s.contains(Some(x)),
    decreases s.len(),
{
    if s.len() > 0 {
        let d = s.drop_last();
        let n = s.len() - 1;
        let (before, all) = (those_found(d), those_found(s));
        lemma_those_found(d, x);
        if s.contains(Some(x)) {
            let k = choose|k: int| 0 <= k < s.len() && s[k] == Some(x);
            if k < n {
                assert(d[k] == Some(x));
                let i = choose|i: int| 0 <= i < before.len() && before[i] == x;
                assert(all[i] == x);
            } else {
                assert(all[all.len() - 1] == x);
            }
        }
        if all.contains(x) {
            let i = choose|i: int| 0 <= i < all.len() && all[i] == x;
            if i < before.len() {
                assert(before[i] == x);
                let k = choose|k: int| 0 <= k < d.len() && d[k] == Some(x);
                assert(s[k] == Some(x));
            } else {
                assert(s[n] == Some(x));
            }
        }
    }
}

proof fn lemma_component_runs(
    hs: Seq<HSeg>,
    vs: Seq<VSeg>,
    components: Seq<(Seq<usize>, Seq<usize>)>,
    lines: Seq<crate::types::Line>,
    page_width: F32,
    page_height: F32,
)
    ensures
        component_tables(hs, vs, components, lines, page_width, page_height) == those_found(
            components.map_values(
                |c: (Seq<usize>, Seq<usize>)|
                    ruled_table(hs, vs, c, lines, page_width, page_height),
            ),
        ),
    decreases components.len(),
{
    let f = |c: (Seq<usize>, Seq<usize>)| ruled_table(hs, vs, c, lines, page_width, page_height);
    if components.len() > 0 {
        let d = components.drop_last();
        lemma_component_runs(hs, vs, d, lines, page_width, page_height);
        assert(components.map_values(f).drop_last() =~= d.map_values(f));
        assert(components.map_values(f).last() == f(components.last()));
    }
}

/// The ruled tables of a page are those of all the grids that its rules make up.
pub proof fn every_grid_of_a_page_is_tried(
    lines: Seq<crate::types::Line>,
    graphics: Seq<GraphicPrimitive>,
    page_width: F32,
    page_height: F32,
    run: super::blocks::Run,
)
    ensures
        ({
            let hs = super::rules::clustered_h(super::rules::h_segments(graphics));
            let vs = super::rules::clustered_v(super::rules::v_segments(graphics));
            let grids = super::components::grids(hs, vs, hs.len());
            ruled_tables(lines, graphics, page_width, page_height).contains(run) <==> exists|k: int|
                0 <= k < grids.len() && ruled_table(
                    hs,
                    vs,
                    #[trigger] grids[k],
                    lines,
                    page_width,
                    page_height,
                ) == Some(run)
        }),
{
    let hs = super::rules::clustered_h(super::rules::h_segments(graphics));
    let vs = super::rules::clustered_v(super::rules::v_segments(graphics));
    let grids = super::components::grids(hs, vs, hs.len());
    let raw = component_tables(hs, vs, grids, lines, page_width, page_height);
    let out = ruled_tables(lines, graphics, page_width, page_height);
    lemma_component_runs(hs, vs, grids, lines, page_width, page_height);
    crate::sorting::sorting_permutes_into_order(raw);
    crate::permutations::lemma_same_elements(out, raw);
    let f = |c: (Seq<usize>, Seq<usize>)| ruled_table(hs, vs, c, lines, page_width, page_height);
    let found = grids.map_values(f);
    lemma_those_found(found, run);
    if out.contains(run) {
        let k = choose|k: int| 0 <= k < found.len() && found[k] == Some(run);
        assert(f(grids[k]) == Some(run));
    }
    if exists|k: int|
        0 <= k < grids.len() && ruled_table(
            hs,
            vs,
            #[trigger] grids[k],
            lines,
            page_width,
            page_height,
        ) == Some(run) {
        let k = choose|k: int|
            0 <= k < grids.len() && ruled_table(
                hs,
                vs,
                #[trigger] grids[k],
                lines,
                page_width,
                page_height,
            ) == Some(run);
        assert(found[k] == Some(run));
    }
}

} // verus!
