//! Rows whose neighbouring cells ran together.
use super::cells::TableCell;
use crate::float::F32;
use crate::sorting::{sort, Key, Keyed, KeyedValue};
use crate::text::{chars_of, is_white_space, string_of_range, trim};
use vstd::prelude::*;
use vstd::string::*;

verus! {

/// Indices are ordered by size.
impl Keyed for usize {
    open spec fn key(self) -> Key {
        Key { first: 0, second: 0, third: self as u64 }
    }
}

impl KeyedValue for usize {
    fn key_of(&self) -> (k: Key) {
        Key { first: 0, second: 0, third: *self as u64 }
    }
}

/// Whether a column track falls within a cell.
pub open spec fn covers(cell: super::cells::Cell, track: F32) -> bool {
    let tolerance = F32::from_nat(6);
    cell.start_x.minus(tolerance).at_most(track) && track.at_most(cell.end_x.plus(tolerance))
}

/// The column tracks that fall within a cell.
pub open spec fn covered_tracks(cell: super::cells::Cell, tracks: Seq<F32>) -> Seq<F32> {
    tracks.filter(|t: F32| covers(cell, t))
}

/// The cell that covers the most tracks, the first of several; none where no cell covers two.
pub open spec fn widest_cell(cells: Seq<super::cells::Cell>, tracks: Seq<F32>) -> Option<int>
    decreases cells.len(),
{
    if cells.len() == 0 {
        None
    } else {
        let before = widest_cell(cells.drop_last(), tracks);
        let most: nat = match before {
            Some(k) => covered_tracks(cells[k], tracks).len(),
            None => 1,
        };
        if covered_tracks(cells.last(), tracks).len() > most {
            Some(cells.len() - 1)
        } else {
            before
        }
    }
}

/// How far from a track the `k`th of the `n` characters of a cell stands, if they are spread
/// evenly.
pub open spec fn distance_to(cell: super::cells::Cell, k: nat, n: nat, track: F32) -> F32 {
    let width = cell.end_x.minus(cell.start_x).greater(F32::from_nat(1));
    let x = cell.start_x.plus(F32::from_nat(k).over(F32::from_nat(n)).times(width));
    x.minus(track).absolute()
}

/// The white space among the first `m` characters that stands closest to a track and is not
/// used yet, the first of several.
pub open spec fn nearest_space(
    cell: super::cells::Cell,
    chars: Seq<char>,
    m: nat,
    track: F32,
    used: Seq<usize>,
) -> Option<usize>
    decreases m,
{
    if m == 0 {
        None
    } else {
        let k = (m - 1) as nat;
        let before = nearest_space(cell, chars, k, track, used);
        if !crate::text::is_space(chars[k as int]) || used.contains(k as usize) {
            before
        } else {
            match before {
                Some(b) if !distance_to(cell, k, chars.len(), track).less(
                    distance_to(cell, b as nat, chars.len(), track),
                ) => before,
                _ => Some(k as usize),
            }
        }
    }
}

/// For each track in turn, the closest white space that is left; none if one of them finds none.
pub open spec fn split_points(
    cell: super::cells::Cell,
    chars: Seq<char>,
    tracks: Seq<F32>,
) -> Option<Seq<usize>>
    decreases tracks.len(),
{
    if tracks.len() == 0 {
        Some(Seq::empty())
    } else {
        match split_points(cell, chars, tracks.drop_last()) {
            Some(points) => match nearest_space(cell, chars, chars.len(), tracks.last(), points) {
                Some(k) => Some(points.push(k)),
                None => None,
            },
            None => None,
        }
    }
}

/// Where the `i`th piece starts.
pub open spec fn piece_start(points: Seq<usize>, i: int) -> int {
    if i == 0 {
        0
    } else {
        points[i - 1] as int
    }
}

/// Where the `i`th piece ends.
pub open spec fn piece_end(points: Seq<usize>, n: int, i: int) -> int {
    if i < points.len() {
        points[i] as int
    } else {
        n
    }
}

/// The text from one split point to the next, trimmed.
pub open spec fn piece(chars: Seq<char>, points: Seq<usize>, i: int) -> Seq<char> {
    crate::text::trimmed(
        chars.subrange(piece_start(points, i), piece_end(points, chars.len() as int, i)),
    )
}

/// The left edge of the `i`th part of a split cell.
pub open spec fn part_start(cell: super::cells::Cell, covered: Seq<F32>, i: int) -> F32 {
    if i == 0 {
        cell.start_x
    } else {
        covered[i]
    }
}

/// The `i`th part of a split cell: it starts at its track and ends before the next one.
pub open spec fn part(
    cell: super::cells::Cell,
    covered: Seq<F32>,
    chars: Seq<char>,
    points: Seq<usize>,
    i: int,
) -> super::cells::Cell {
    super::cells::Cell {
        start_x: part_start(cell, covered, i),
        end_x: if i + 1 < covered.len() {
            covered[i + 1].minus(F32::from_nat(1)).greater(part_start(cell, covered, i))
        } else {
            cell.end_x
        },
        text: piece(chars, points, i),
        bold: cell.bold,
    }
}

/// The parts of a cell, one for each track that it covers; none where there is not enough
/// white space between texts.
pub open spec fn cell_parts(cell: super::cells::Cell, tracks: Seq<F32>) -> Option<
    Seq<super::cells::Cell>,
> {
    let covered = covered_tracks(cell, tracks);
    let chars = crate::text::trimmed(cell.text);
    match split_points(cell, chars, covered.skip(1)) {
        Some(points) => {
            let cuts = crate::sorting::sorted(points);
            if forall|i: int| 0 <= i <= cuts.len() ==> (#[trigger] piece(chars, cuts, i)).len() > 0 {
                Some(Seq::new(covered.len(), |i: int| part(cell, covered, chars, cuts, i)))
            } else {
                None
            }
        },
        None => None,
    }
}

/// The row with the cell that covers the most tracks split into its parts.
pub open spec fn split_widest(cells: Seq<super::cells::Cell>, tracks: Seq<F32>) -> Option<
    Seq<super::cells::Cell>,
> {
    match widest_cell(cells, tracks) {
        Some(k) => match cell_parts(cells[k], tracks) {
            Some(parts) => Some(cells.take(k) + parts + cells.skip(k + 1)),
            None => None,
        },
        None => None,
    }
}

/// The row after as many splits as it takes to have a cell for each track.
pub open spec fn split_until(cells: Seq<super::cells::Cell>, tracks: Seq<F32>) -> Option<
    Seq<super::cells::Cell>,
>
    decreases
            if cells.len() < tracks.len() {
                tracks.len() - cells.len()
            } else {
                0
            },
{
    if cells.len() == tracks.len() {
        Some(cells)
    } else if cells.len() > tracks.len() {
        None
    } else {
        match split_widest(cells, tracks) {
            Some(more) => {
                proof {
                    splitting_adds_cells(cells, tracks);
                }
                split_until(more, tracks)
            },
            None => None,
        }
    }
}

/// The row with its merged cells split, for a row with fewer cells than there are tracks.
pub open spec fn recovered(cells: Seq<super::cells::Cell>, tracks: Seq<F32>) -> Option<
    Seq<super::cells::Cell>,
> {
    if cells.len() >= tracks.len() {
        None
    } else {
        split_until(cells, tracks)
    }
}

proof fn lemma_widest(cells: Seq<super::cells::Cell>, tracks: Seq<F32>)
    ensures
        widest_cell(cells, tracks) matches Some(k) ==> 0 <= k < cells.len() && covered_tracks(
            cells[k],
            tracks,
        ).len() >= 2,
    decreases cells.len(),
{
    if cells.len() > 0 {
        lemma_widest(cells.drop_last(), tracks);
    }
}

/// A split leaves more cells than there were.
pub proof fn splitting_adds_cells(cells: Seq<super::cells::Cell>, tracks: Seq<F32>)
    ensures
        split_widest(cells, tracks) matches Some(more) ==> more.len() > cells.len(),
{
    lemma_widest(cells, tracks);
}

proof fn lemma_split_until(cells: Seq<super::cells::Cell>, tracks: Seq<F32>)
    ensures
        split_until(cells, tracks) matches Some(r) ==> r.len() == tracks.len(),
    decreases
            if cells.len() < tracks.len() {
                tracks.len() - cells.len()
            } else {
                0
            },
{
    if cells.len() < tracks.len() {
        splitting_adds_cells(cells, tracks);
        if let Some(more) = split_widest(cells, tracks) {
            lemma_split_until(more, tracks);
        }
    }
}

/// A recovered row has a cell for each track.
pub proof fn recovery_fills_every_track(cells: Seq<super::cells::Cell>, tracks: Seq<F32>)
    ensures
        recovered(cells, tracks) matches Some(r) ==> r.len() == tracks.len(),
{
    lemma_split_until(cells, tracks);
}

proof fn lemma_nearest_space(
    cell: super::cells::Cell,
    chars: Seq<char>,
    m: nat,
    track: F32,
    used: Seq<usize>,
)
    requires
        m <= chars.len() <= usize::MAX,
    ensures
        nearest_space(cell, chars, m, track, used) matches Some(k) ==> k < m,
    decreases m,
{
    if m > 0 {
        lemma_nearest_space(cell, chars, (m - 1) as nat, track, used);
    }
}

proof fn lemma_split_points(cell: super::cells::Cell, chars: Seq<char>, tracks: Seq<F32>)
    requires
        chars.len() <= usize::MAX,
    ensures
        split_points(cell, chars, tracks) matches Some(points) ==> points.len() == tracks.len()
            && forall|i: int| 0 <= i < points.len() ==> (#[trigger] points[i]) < chars.len(),
    decreases tracks.len(),
{
    if tracks.len() > 0 {
        lemma_split_points(cell, chars, tracks.drop_last());
        if let Some(points) = split_points(cell, chars, tracks.drop_last()) {
            lemma_nearest_space(cell, chars, chars.len(), tracks.last(), points);
        }
    }
}

/// How many characters the pieces before the `m`th one take up.
spec fn taken(cuts: Seq<usize>, n: int, m: int) -> int {
    if m == 0 {
        0
    } else {
        piece_end(cuts, n, m - 1)
    }
}

proof fn lemma_parts_ink(
    cell: super::cells::Cell,
    covered: Seq<F32>,
    chars: Seq<char>,
    cuts: Seq<usize>,
    m: nat,
)
    requires
        m <= cuts.len() + 1,
        crate::sorting::in_key_order(cuts),
        forall|i: int| 0 <= i < cuts.len() ==> (#[trigger] cuts[i]) < chars.len(),
    ensures
        0 <= taken(cuts, chars.len() as int, m as int) <= chars.len(),
        crate::text::all_ink(
            super::cells::cell_texts(
                Seq::new(m, |i: int| part(cell, covered, chars, cuts, i)),
            ),
        ) == crate::text::ink(chars.take(taken(cuts, chars.len() as int, m as int))),
    decreases m,
{
    let n = chars.len() as int;
    let all = super::cells::cell_texts(Seq::new(m, |i: int| part(cell, covered, chars, cuts, i)));
    if m == 0 {
        assert(chars.take(0) =~= Seq::empty());
        crate::text::blank_texts_have_no_ink(chars.take(0));
    } else {
        let k = m - 1;
        lemma_parts_ink(cell, covered, chars, cuts, k as nat);
        assert(all.drop_last() =~= super::cells::cell_texts(
            Seq::new(k as nat, |i: int| part(cell, covered, chars, cuts, i)),
        ));
        let (from, to) = (piece_start(cuts, k), piece_end(cuts, n, k));
        assert(from == taken(cuts, n, k));
        if 0 < k < cuts.len() {
            assert(cuts[k - 1].key().at_most(cuts[k].key()));
        }
        if k > 0 {
            assert(cuts[k - 1] < chars.len());
        }
        if k < cuts.len() {
            assert(cuts[k] < chars.len());
        }
        let raw = chars.subrange(from, to);
        crate::text::trimming_keeps_the_ink(raw);
        crate::text::joining_joins_the_ink(chars.take(from), raw);
        assert(chars.take(from) + raw =~= chars.take(to));
    }
}

/// Whether the texts of cells are short enough to be counted.
pub open spec fn are_countable(cells: Seq<super::cells::Cell>) -> bool {
    forall|i: int| 0 <= i < cells.len() ==> (#[trigger] cells[i]).text.len() <= usize::MAX
}

proof fn lemma_cell_parts_ink(cell: super::cells::Cell, tracks: Seq<F32>)
    requires
        cell.text.len() <= usize::MAX,
        covered_tracks(cell, tracks).len() > 0,
    ensures
        cell_parts(cell, tracks) matches Some(parts) ==> are_countable(parts)
            && crate::text::all_ink(super::cells::cell_texts(parts)) == crate::text::ink(cell.text),
{
    let covered = covered_tracks(cell, tracks);
    let chars = crate::text::trimmed(cell.text);
    crate::text::trimming_only_shortens(cell.text);
    crate::text::trimming_keeps_the_ink(cell.text);
    lemma_split_points(cell, chars, covered.skip(1));
    if let Some(parts) = cell_parts(cell, tracks) {
        let points = split_points(cell, chars, covered.skip(1))->0;
        let cuts = crate::sorting::sorted(points);
        crate::sorting::sorting_permutes_into_order(points);
        crate::permutations::lemma_same_elements(cuts, points);
        assert forall|i: int| 0 <= i < cuts.len() implies (#[trigger] cuts[i]) < chars.len() by {
            assert(cuts.contains(cuts[i]));
            let k = choose|k: int| 0 <= k < points.len() && points[k] == cuts[i];
            assert(points[k] < chars.len());
        }
        assert(covered.len() == cuts.len() + 1);
        lemma_parts_ink(cell, covered, chars, cuts, covered.len());
        assert(chars.take(chars.len() as int) =~= chars);
        assert forall|i: int| 0 <= i < parts.len() implies (#[trigger] parts[i]).text.len()
            <= usize::MAX by {
            lemma_parts_ink(cell, covered, chars, cuts, i as nat);
            lemma_parts_ink(cell, covered, chars, cuts, (i + 1) as nat);
            let (from, to) = (piece_start(cuts, i), piece_end(cuts, chars.len() as int, i));
            if 0 < i < cuts.len() {
                assert(cuts[i - 1].key().at_most(cuts[i].key()));
            }
            crate::text::trimming_only_shortens(chars.subrange(from, to));
        }
    }
}

proof fn lemma_split_widest_ink(cells: Seq<super::cells::Cell>, tracks: Seq<F32>)
    requires
        are_countable(cells),
    ensures
        split_widest(cells, tracks) matches Some(more) ==> are_countable(more)
            && crate::text::all_ink(super::cells::cell_texts(more)) == crate::text::all_ink(
            super::cells::cell_texts(cells),
        ),
{
    lemma_widest(cells, tracks);
    if let Some(more) = split_widest(cells, tracks) {
        let k = widest_cell(cells, tracks)->0;
        let parts = cell_parts(cells[k], tracks)->0;
        lemma_cell_parts_ink(cells[k], tracks);
        let (before, after) = (cells.take(k), cells.skip(k + 1));
        let texts = super::cells::cell_texts(cells);
        let a = super::cells::cell_texts(before);
        let b = super::cells::cell_texts(parts);
        let c = super::cells::cell_texts(after);
        assert(super::cells::cell_texts(more) =~= a + b + c);
        crate::text::joining_rows_joins_the_ink(a + b, c);
        crate::text::joining_rows_joins_the_ink(a, b);
        let whole = seq![cells[k].text];
        assert(texts =~= a + whole + c);
        crate::text::joining_rows_joins_the_ink(a + whole, c);
        crate::text::joining_rows_joins_the_ink(a, whole);
        reveal_with_fuel(crate::text::all_ink, 2);
        assert(crate::text::all_ink(whole) =~= crate::text::ink(cells[k].text));
        assert forall|i: int| 0 <= i < more.len() implies (#[trigger] more[i]).text.len()
            <= usize::MAX by {
            if i < k {
                assert(more[i] == cells[i]);
            } else if i < k + parts.len() {
                assert(more[i] == parts[i - k]);
            } else {
                assert(more[i] == cells[i - parts.len() + 1]);
            }
        }
    }
}

proof fn lemma_split_until_ink(cells: Seq<super::cells::Cell>, tracks: Seq<F32>)
    requires
        are_countable(cells),
    ensures
        split_until(cells, tracks) matches Some(r) ==> crate::text::all_ink(
            super::cells::cell_texts(r),
        ) == crate::text::all_ink(super::cells::cell_texts(cells)),
    decreases
            if cells.len() < tracks.len() {
                tracks.len() - cells.len()
            } else {
                0
            },
{
    if cells.len() < tracks.len() {
        splitting_adds_cells(cells, tracks);
        lemma_split_widest_ink(cells, tracks);
        if let Some(more) = split_widest(cells, tracks) {
            lemma_split_until_ink(more, tracks);
        }
    }
}

/// A recovered row keeps every character of its cells that is not white space, in order, and adds
/// none.
pub proof fn recovery_keeps_the_ink(cells: Seq<super::cells::Cell>, tracks: Seq<F32>)
    requires
        are_countable(cells),
    ensures
        recovered(cells, tracks) matches Some(r) ==> crate::text::all_ink(
            super::cells::cell_texts(r),
        ) == crate::text::all_ink(super::cells::cell_texts(cells)),
{
    lemma_split_until_ink(cells, tracks);
}

/// The tracks that fall within a cell.
fn find_covered(cell: &TableCell, tracks: &Vec<F32>) -> (r: Vec<F32>)
    ensures
        r@ == covered_tracks(cell@, tracks@),
{
    let tolerance: F32 = F32::from_u32(6);
    let low: F32 = cell.start_x.sub(tolerance);
    let high: F32 = cell.end_x.add(tolerance);
    let ghost keep = |t: F32| covers(cell@, t);
    let mut r: Vec<F32> = Vec::new();
    let mut i: usize = 0;
    while i < tracks.len()
        invariant
            i <= tracks@.len(),
            keep == (|t: F32| covers(cell@, t)),
            low == cell.start_x.minus(F32::from_nat(6)),
            high == cell.end_x.plus(F32::from_nat(6)),
            r@ == tracks@.take(i as int).filter(keep),
        decreases tracks@.len() - i,
    {
        reveal(Seq::filter);
        assert(tracks@.take(i + 1).drop_last() =~= tracks@.take(i as int));
        let t: F32 = tracks[i];
        if t.ge(low) && t.le(high) {
            r.push(t);
        }
        i = i + 1;
    }
    assert(tracks@.take(i as int) =~= tracks@);
    r
}

/// The cell that covers the most tracks, with the tracks that it covers.
fn find_widest(cells: &Vec<TableCell>, tracks: &Vec<F32>) -> (r: Option<(usize, Vec<F32>)>)
    ensures
        match r {
            Some((k, covered)) => k < cells@.len() && widest_cell(
                super::cells::cells_of(cells@),
                tracks@,
            ) == Some(k as int) && covered@ == covered_tracks(cells@[k as int]@, tracks@),
            None => widest_cell(super::cells::cells_of(cells@), tracks@) is None,
        },
{
    let ghost all = super::cells::cells_of(cells@);
    let mut best: Option<(usize, Vec<F32>)> = None;
    let mut best_count: usize = 1;
    let mut i: usize = 0;
    while i < cells.len()
        invariant
            i <= cells@.len(),
            all == super::cells::cells_of(cells@),
            match best {
                Some((k, covered)) => k < i && widest_cell(all.take(i as int), tracks@) == Some(
                    k as int,
                ) && covered@ == covered_tracks(all[k as int], tracks@) && best_count
                    == covered@.len(),
                None => widest_cell(all.take(i as int), tracks@) is None && best_count == 1,
            },
        decreases cells@.len() - i,
    {
        assert(all.take(i + 1).drop_last() =~= all.take(i as int));
        let covered: Vec<F32> = find_covered(&cells[i], tracks);
        if covered.len() > best_count {
            best_count = covered.len();
            best = Some((i, covered));
        }
        i = i + 1;
    }
    assert(all.take(i as int) =~= all);
    best
}

/// The white space closest to a track.
fn find_nearest_space(cell: &TableCell, chars: &Vec<char>, track: F32, used: &Vec<usize>) -> (r: Option<
    usize,
>)
    ensures
        r == nearest_space(cell@, chars@, chars@.len(), track, used@),
        r matches Some(k) ==> k < chars@.len(),
{
    let n: usize = chars.len();
    let one: F32 = F32::from_u32(1);
    let width: F32 = cell.end_x.sub(cell.start_x).max(one);
    let total: F32 = F32::from_usize(n);
    let mut best: Option<usize> = None;
    let mut best_distance: F32 = one;
    let mut k: usize = 0;
    while k < n
        invariant
            k <= n,
            n == chars@.len(),
            width == cell.end_x.minus(cell.start_x).greater(F32::from_nat(1)),
            total == F32::from_nat(n as nat),
            best == nearest_space(cell@, chars@, k as nat, track, used@),
            best matches Some(b) ==> b < k && best_distance == distance_to(
                cell@,
                b as nat,
                n as nat,
                track,
            ),
        decreases n - k,
    {
        if is_white_space(chars[k]) && !contains_index(used, k) {
            let x: F32 = cell.start_x.add(F32::from_usize(k).div(total).mul(width));
            let distance: F32 = x.sub(track).abs();
            let closer: bool = match best {
                Some(_) => distance.lt(best_distance),
                None => true,
            };
            if closer {
                best = Some(k);
                best_distance = distance;
            }
        }
        k = k + 1;
    }
    best
}

/// Whether the indices hold `k`.
fn contains_index(v: &Vec<usize>, k: usize) -> (r: bool)
    ensures
        r == v@.contains(k),
{
    let mut i: usize = 0;
    while i < v.len()
        invariant
            i <= v@.len(),
            forall|j: int| 0 <= j < i ==> v@[j] != k,
        decreases v@.len() - i,
    {
        if v[i] == k {
            return true;
        }
        i = i + 1;
    }
    false
}

/// The split points for the tracks from the second on.
fn find_split_points(cell: &TableCell, chars: &Vec<char>, covered: &Vec<F32>) -> (r: Option<
    Vec<usize>,
>)
    requires
        covered@.len() > 0,
    ensures
        match r {
            Some(points) => split_points(cell@, chars@, covered@.skip(1)) == Some(points@),
            None => split_points(cell@, chars@, covered@.skip(1)) is None,
        },
{
    let ghost tracks = covered@.skip(1);
    let mut points: Vec<usize> = Vec::new();
    let mut i: usize = 1;
    assert(tracks.take(0) =~= Seq::empty());
    assert(points@ =~= Seq::empty());
    while i < covered.len()
        invariant
            1 <= i <= covered@.len(),
            tracks == covered@.skip(1),
            split_points(cell@, chars@, tracks.take(i - 1)) == Some(points@),
        decreases covered@.len() - i,
    {
        assert(tracks.take(i as int).drop_last() =~= tracks.take(i - 1));
        match find_nearest_space(cell, chars, covered[i], &points) {
            Some(k) => {
                points.push(k);
            },
            None => {
                proof {
                    lemma_no_points(cell@, chars@, tracks, i as int);
                }
                return None;
            },
        }
        i = i + 1;
    }
    assert(tracks.take(i - 1) =~= tracks);
    Some(points)
}

proof fn lemma_no_points(cell: super::cells::Cell, chars: Seq<char>, tracks: Seq<F32>, i: int)
    requires
        0 <= i <= tracks.len(),
        split_points(cell, chars, tracks.take(i)) is None,
    ensures
        split_points(cell, chars, tracks) is None,
    decreases tracks.len() - i,
{
    if i < tracks.len() {
        assert(tracks.take(i + 1).drop_last() =~= tracks.take(i));
        lemma_no_points(cell, chars, tracks, i + 1);
    } else {
        assert(tracks.take(i) =~= tracks);
    }
}

/// The parts of a cell that covers at least two tracks.
fn split_cell(cell: &TableCell, covered: &Vec<F32>, tracks: Ghost<Seq<F32>>) -> (r: Option<Vec<TableCell>>)
    requires
        covered@ == covered_tracks(cell@, tracks@),
        covered@.len() >= 2,
    ensures
        match r {
            Some(parts) => cell_parts(cell@, tracks@) == Some(super::cells::cells_of(parts@)),
            None => cell_parts(cell@, tracks@) is None,
        },
{
    let tidy: String = trim(cell.text.as_str());
    let chars: Vec<char> = chars_of(tidy.as_str());
    let n: usize = chars.len();
    let found: Option<Vec<usize>> = find_split_points(cell, &chars, covered);
    match found {
        None => None,
        Some(points) => {
            let ghost raw = points@;
            proof {
                lemma_split_points(cell@, chars@, covered@.skip(1));
                crate::sorting::sorting_permutes_into_order(raw);
            }
            let cuts: Vec<usize> = sort(points);
            proof {
                broadcast use vstd::seq_lib::group_to_multiset_ensures;

                assert forall|i: int| 0 <= i < cuts@.len() implies (#[trigger] cuts@[i]) < n by {
                    assert(cuts@.contains(cuts@[i]));
                    assert(raw.to_multiset().count(cuts@[i]) > 0);
                    assert(raw.contains(cuts@[i]));
                }
            }
            let one: F32 = F32::from_u32(1);
            let mut parts: Vec<TableCell> = Vec::new();
            let mut from: usize = 0;
            let mut p: usize = 0;
            while p < covered.len()
                invariant
                    p <= covered@.len(),
                    covered@.len() >= 2,
                    cuts@.len() + 1 == covered@.len(),
                    crate::sorting::in_key_order(cuts@),
                    forall|i: int| 0 <= i < cuts@.len() ==> (#[trigger] cuts@[i]) < n,
                    n == chars@.len(),
                    chars@ == crate::text::trimmed(cell@.text),
                    one == F32::from_nat(1),
                    p < covered@.len() ==> from == piece_start(cuts@, p as int),
                    covered@ == covered_tracks(cell@, tracks@),
                    split_points(cell@, chars@, covered@.skip(1)) == Some(raw),
                    cuts@ == crate::sorting::sorted(raw),
                    forall|i: int| 0 <= i < p ==> (#[trigger] piece(chars@, cuts@, i)).len() > 0,
                    super::cells::cells_of(parts@) == Seq::new(
                        p as nat,
                        |i: int| part(cell@, covered@, chars@, cuts@, i),
                    ),
                decreases covered@.len() - p,
            {
                let to: usize = if p < cuts.len() {
                    cuts[p]
                } else {
                    n
                };
                proof {
                    if 0 < p < cuts@.len() {
                        assert(cuts@[p - 1].key().at_most(cuts@[p as int].key()));
                    }
                }
                let raw_piece: String = string_of_range(&chars, from, to);
                let text: String = trim(raw_piece.as_str());
                let letters: Vec<char> = chars_of(text.as_str());
                assert(text@ == piece(chars@, cuts@, p as int));
                if letters.len() == 0 {
                    assert(piece(chars@, cuts@, p as int).len() == 0);
                    return None;
                }
                let start_x: F32 = if p == 0 {
                    cell.start_x
                } else {
                    covered[p]
                };
                let end_x: F32 = if p + 1 < covered.len() {
                    covered[p + 1].sub(one).max(start_x)
                } else {
                    cell.end_x
                };
                let made: TableCell = TableCell { start_x, end_x, text, bold: cell.bold };
                assert(made@ == part(cell@, covered@, chars@, cuts@, p as int));
                let ghost before = parts@;
                parts.push(made);
                assert(super::cells::cells_of(parts@) =~= super::cells::cells_of(before).push(made@));
                from = to;
                p = p + 1;
                assert(Seq::new(p as nat, |i: int| part(cell@, covered@, chars@, cuts@, i))
                    =~= Seq::new((p - 1) as nat, |i: int| part(cell@, covered@, chars@, cuts@, i)).push(
                    part(cell@, covered@, chars@, cuts@, p - 1),
                ));
            }
            Some(parts)
        },
    }
}

/// The cells with the `k`th one replaced by its parts.
fn put_parts(cells: &Vec<TableCell>, k: usize, parts: Vec<TableCell>) -> (r: Vec<TableCell>)
    requires
        k < cells@.len(),
    ensures
        r@ == cells@.take(k as int) + parts@ + cells@.skip(k + 1),
{
    let n: usize = cells.len();
    let mut r: Vec<TableCell> = Vec::new();
    let mut i: usize = 0;
    while i < k
        invariant
            i <= k < cells@.len(),
            r@ == cells@.take(i as int),
        decreases k - i,
    {
        r.push(cells[i].clone());
        i = i + 1;
        assert(cells@.take(i as int) =~= cells@.take(i - 1).push(cells@[i - 1]));
    }
    let mut p: usize = 0;
    while p < parts.len()
        invariant
            p <= parts@.len(),
            r@ == cells@.take(k as int) + parts@.take(p as int),
        decreases parts@.len() - p,
    {
        r.push(parts[p].clone());
        p = p + 1;
        assert(r@ =~= cells@.take(k as int) + parts@.take(p as int));
    }
    assert(parts@.take(p as int) =~= parts@);
    let mut j: usize = k + 1;
    while j < n
        invariant
            n == cells@.len(),
            k + 1 <= j <= cells@.len(),
            r@ == cells@.take(k as int) + parts@ + cells@.subrange(k + 1, j as int),
        decreases cells@.len() - j,
    {
        r.push(cells[j].clone());
        j = j + 1;
        assert(r@ =~= cells@.take(k as int) + parts@ + cells@.subrange(k + 1, j as int));
    }
    assert(cells@.subrange(k + 1, j as int) =~= cells@.skip(k + 1));
    r
}

/// When a candidate row has fewer cells than the established column count,
/// look for cells whose x-range straddles multiple column tracks (likely two
/// or more adjacent words that were merged into a single text run) and
/// split each on internal whitespace at the boundaries nearest to the
/// straddled tracks.
///
/// Returns the patched cells if every short cell could be cleanly split to
/// recover `tracks.len()` cells total; otherwise `None`.
pub fn recover_merged_cell(cells: Vec<TableCell>, tracks: &Vec<F32>) -> (r: Option<Vec<TableCell>>)
    ensures
        match r {
            Some(c) => recovered(super::cells::cells_of(cells@), tracks@) == Some(
                super::cells::cells_of(c@),
            ),
            None => recovered(super::cells::cells_of(cells@), tracks@) is None,
        },
{
    let target: usize = tracks.len();
    if cells.len() >= target {
        return None;
    }
    let ghost first = super::cells::cells_of(cells@);
    let mut row: Vec<TableCell> = cells;
    while row.len() < target
        invariant
            target == tracks@.len(),
            first.len() < target,
            first == super::cells::cells_of(cells@),
            recovered(first, tracks@) == split_until(super::cells::cells_of(row@), tracks@),
        decreases
                if row@.len() < target {
                    target - row@.len()
                } else {
                    0
                },
    {
        let ghost now = super::cells::cells_of(row@);
        proof {
            lemma_widest(now, tracks@);
            splitting_adds_cells(now, tracks@);
        }
        match find_widest(&row, tracks) {
            None => {
                return None;
            },
            Some((k, covered)) => {
                match split_cell(&row[k], &covered, Ghost(tracks@)) {
                    None => {
                        return None;
                    },
                    Some(parts) => {
                        let next: Vec<TableCell> = put_parts(&row, k, parts);
                        assert(super::cells::cells_of(next@) =~= now.take(k as int)
                            + super::cells::cells_of(parts@) + now.skip(k + 1));
                        row = next;
                    },
                }
            },
        }
    }
    if row.len() == target {
        Some(row)
    } else {
        None
    }
}

/// On whole points, a cell covers the tracks from six points before its start to six points behind
/// its end.
pub proof fn cells_cover_the_tracks_within(
    cell: super::cells::Cell,
    track: F32,
    a: int,
    b: int,
    t: int,
)
    requires
        cell.start_x.is_whole(a),
        cell.end_x.is_whole(b),
        track.is_whole(t),
        -4096 < a < 4096,
        -4096 < b < 4096,
    ensures
        covers(cell, track) <==> a - 6 <= t <= b + 6,
{
    let six = F32::from_nat(6);
    crate::float::exact::naturals_are_whole(6);
    crate::float::exact::whole_difference(cell.start_x, six, a, 6);
    crate::float::exact::whole_sum(cell.end_x, six, b, 6);
    crate::float::exact::measures_are_ordered(
        cell.start_x.minus(six),
        track,
        256 * (a - 6),
        256 * t,
    );
    crate::float::exact::measures_are_ordered(track, cell.end_x.plus(six), 256 * t, 256 * (b + 6));
}

/// The cell that is split covers the most tracks, two at least, and is the first one of these; there
/// is none only where no cell covers two tracks.
pub proof fn the_split_cell_covers_the_most_tracks(
    cells: Seq<super::cells::Cell>,
    tracks: Seq<F32>,
)
    ensures
        match widest_cell(cells, tracks) {
            Some(k) => {
                &&& 0 <= k < cells.len()
                &&& covered_tracks(cells[k], tracks).len() >= 2
                &&& forall|i: int|
                    0 <= i < cells.len() ==> covered_tracks(#[trigger] cells[i], tracks).len()
                        <= covered_tracks(cells[k], tracks).len()
                &&& forall|i: int|
                    0 <= i < k ==> covered_tracks(#[trigger] cells[i], tracks).len()
                        < covered_tracks(cells[k], tracks).len()
            },
            None => forall|i: int|
                0 <= i < cells.len() ==> covered_tracks(#[trigger] cells[i], tracks).len() < 2,
        },
    decreases cells.len(),
{
    if cells.len() > 0 {
        let d = cells.drop_last();
        the_split_cell_covers_the_most_tracks(d, tracks);
        assert forall|i: int| 0 <= i < d.len() implies #[trigger] d[i] == cells[i] by {}
        match widest_cell(cells, tracks) {
            Some(k) => {
                assert forall|i: int| 0 <= i < cells.len() implies covered_tracks(
                    #[trigger] cells[i],
                    tracks,
                ).len() <= covered_tracks(cells[k], tracks).len() by {
                    if i < d.len() {
                        assert(d[i] == cells[i]);
                    }
                }
                assert forall|i: int| 0 <= i < k implies covered_tracks(
                    #[trigger] cells[i],
                    tracks,
                ).len() < covered_tracks(cells[k], tracks).len() by {
                    assert(d[i] == cells[i]);
                }
            },
            None => {
                assert forall|i: int| 0 <= i < cells.len() implies covered_tracks(
                    #[trigger] cells[i],
                    tracks,
                ).len() < 2 by {
                    if i < d.len() {
                        assert(d[i] == cells[i]);
                    }
                }
            },
        }
    }
}

/// Whether a character is white space that is not used yet.
pub open spec fn is_free_space(chars: Seq<char>, used: Seq<usize>, k: int) -> bool {
    crate::text::is_space(chars[k]) && !used.contains(k as usize)
}

/// A split point is the free white space that stands closest to its track, the first of several;
/// there is none only where no white space is free.
pub proof fn split_points_are_the_closest_spaces(
    cell: super::cells::Cell,
    chars: Seq<char>,
    m: nat,
    track: F32,
    used: Seq<usize>,
)
    requires
        m <= chars.len() <= usize::MAX,
        forall|k: int| 0 <= k < m ==> !(#[trigger] distance_to(cell, k as nat, chars.len(), track)).nan(),
    ensures
        match nearest_space(cell, chars, m, track, used) {
            Some(k) => {
                &&& k < m
                &&& is_free_space(chars, used, k as int)
                &&& forall|i: int|
                    0 <= i < m && #[trigger] is_free_space(chars, used, i) ==> {
                        let (mine, other) = (
                            distance_to(cell, k as nat, chars.len(), track),
                            distance_to(cell, i as nat, chars.len(), track),
                        );
                        mine.at_most(other) && (i < k ==> mine.less(other))
                    }
            },
            None => forall|i: int| 0 <= i < m ==> !(#[trigger] is_free_space(chars, used, i)),
        },
    decreases m,
{
    if m > 0 {
        let n = (m - 1) as nat;
        split_points_are_the_closest_spaces(cell, chars, n, track, used);
        assert(!distance_to(cell, (n as int) as nat, chars.len(), track).nan());
        if let Some(b) = nearest_space(cell, chars, n, track, used) {
            let place = b as int;
            assert(!distance_to(cell, place as nat, chars.len(), track).nan());
        }
        assert(is_free_space(chars, used, n as int) || !is_free_space(chars, used, n as int));
    }
}

/// On whole points, the first character of a cell stands at its start, and the place behind the last
/// one at its end, which is a point further at least.
pub proof fn characters_are_spread_over_the_cell(
    cell: super::cells::Cell,
    n: nat,
    track: F32,
    a: int,
    b: int,
    t: int,
)
    requires
        cell.start_x.is_whole(a),
        cell.end_x.is_whole(b),
        track.is_whole(t),
        -4096 < a < 4096,
        -4096 < b < 4096,
        -4096 < t < 4096,
        0 < n < 0x1_0000,
    ensures
        distance_to(cell, 0, n, track).is_whole(crate::types::most(a - t, t - a)),
        distance_to(cell, n, n, track).is_whole(
            crate::types::most(
                crate::types::most(a + 1, b) - t,
                t - crate::types::most(a + 1, b),
            ),
        ),
{
    let zero = F32 { bits: 0 };
    let one = F32::from_nat(1);
    let d = cell.end_x.minus(cell.start_x);
    let w = crate::types::most(b - a, 1);
    crate::float::exact::naturals_are_whole(1);
    crate::float::exact::naturals_are_whole(n);
    crate::float::exact::naturals_are_whole(0);
    crate::float::exact::zero_is_whole();
    crate::float::exact::whole_difference(cell.end_x, cell.start_x, b, a);
    crate::float::exact::measured_extremes(d, one, 256 * (b - a), 256);
    let width = d.greater(one);
    let (f, g) = (F32::from_nat(0), F32::from_nat(n));
    lemma_unit_share(n);
    let (p, q) = (f.over(g), g.over(g));
    crate::float::exact::measured_product(p, width, 0, 256 * w, 0);
    crate::float::exact::measured_product(q, width, 256, 256 * w, 256 * w);
    let (x, y) = (cell.start_x.plus(p.times(width)), cell.start_x.plus(q.times(width)));
    crate::float::exact::measured_sum(cell.start_x, p.times(width), 256 * a, 0);
    crate::float::exact::measured_sum(cell.start_x, q.times(width), 256 * a, 256 * w);
    crate::float::exact::measured_difference(x, track, 256 * a, 256 * t);
    crate::float::exact::measured_difference(y, track, 256 * (a + w), 256 * t);
    crate::float::exact::measured_negation(x.minus(track), 256 * (a - t));
    crate::float::exact::measured_negation(y.minus(track), 256 * (a + w - t));
}

proof fn lemma_unit_share(n: nat)
    requires
        0 < n < 0x1_0000,
    ensures
        F32::from_nat(0).over(F32::from_nat(n)).measures(0),
        F32::from_nat(n).over(F32::from_nat(n)).measures(256),
{
    let zero = F32 { bits: 0 };
    let (f, g, one) = (F32::from_nat(0), F32::from_nat(n), F32::from_nat(1));
    crate::float::bounds::small_naturals_are_exact(0);
    crate::float::bounds::small_naturals_are_exact(1);
    crate::float::bounds::small_naturals_are_exact(n);
    crate::float::bounds::naturals_are_not_negative(0);
    crate::float::bounds::naturals_are_not_negative(1);
    crate::float::bounds::naturals_are_not_negative(n);
    crate::float::bounds::lemma_zero_units(zero);
    crate::float::exact::zero_is_whole();
    crate::float::exact::naturals_are_whole(1);
    vstd::arithmetic::power2::lemma_pow2_pos(149);
    let u = vstd::arithmetic::power2::pow2(149) as int;
    assert(n * u > 0) by (nonlinear_arith)
        requires n > 0, u > 0;
    assert((n * u) * u == u * (n * u)) by (nonlinear_arith);
    assert(0 * u == 0 && 0 * (n * u) == 0);
    assert(1 * u == u);
    crate::float::exact::quotient_bounds(f, g, zero);
    crate::float::exact::quotient_bounds(g, g, one);
    lemma_same_number(f.over(g), zero);
    lemma_same_number(g.over(g), one);
}

proof fn lemma_same_number(a: F32, b: F32)
    requires
        a.at_most(b),
        b.at_most(a),
        b.finite(),
    ensures
        a.finite(),
        a.value() == b.value(),
{
    assert(a.finite());
    crate::float::order::comparison_compares_values(a, b);
    crate::float::order::comparison_compares_values(b, a);
}

/// The parts of a cell that is split: one for each track that it covers, none of them empty. The
/// first one starts where the cell does, each other one at its track; the last one ends where the
/// cell does, each other one a point before the next track, but not before its own start.
pub proof fn parts_start_at_their_tracks(cell: super::cells::Cell, tracks: Seq<F32>)
    requires
        covered_tracks(cell, tracks).len() > 0,
        cell.text.len() <= usize::MAX,
    ensures
        cell_parts(cell, tracks) matches Some(parts) ==> {
            let covered = covered_tracks(cell, tracks);
            let n = covered.len() as int;
            &&& parts.len() == n
            &&& parts[0].start_x == cell.start_x
            &&& parts[n - 1].end_x == cell.end_x
            &&& forall|i: int| 0 < i < n ==> (#[trigger] parts[i]).start_x == covered[i]
            &&& forall|i: int|
                0 <= i < n - 1 ==> (#[trigger] parts[i]).end_x == covered[i + 1].minus(
                    F32::from_nat(1),
                ).greater(parts[i].start_x)
            &&& forall|i: int|
                0 <= i < n ==> (#[trigger] parts[i]).bold == cell.bold && parts[i].text.len() > 0
        },
{
    let covered = covered_tracks(cell, tracks);
    let chars = crate::text::trimmed(cell.text);
    if let Some(parts) = cell_parts(cell, tracks) {
        let points = split_points(cell, chars, covered.skip(1))->0;
        let cuts = crate::sorting::sorted(points);
        lemma_points_len(cell, chars, covered.skip(1));
        crate::sorting::sorting_permutes_into_order(points);
        assert forall|i: int| 0 <= i < covered.len() implies (#[trigger] parts[i]).bold == cell.bold
            && parts[i].text.len() > 0 by {
            assert(piece(chars, cuts, i).len() > 0);
        }
    }
}

proof fn lemma_points_len(cell: super::cells::Cell, chars: Seq<char>, tracks: Seq<F32>)
    ensures
        split_points(cell, chars, tracks) matches Some(points) ==> points.len() == tracks.len(),
    decreases tracks.len(),
{
    if tracks.len() > 0 {
        lemma_points_len(cell, chars, tracks.drop_last());
    }
}

/// A row is recovered by one split where splitting its widest cell gives a cell for each track: the
/// parts take the place of that cell, between the cells before it and those behind it. Where there
/// is no cell to split, or the split gives too many cells, the row is not recovered.
pub proof fn one_split_can_recover_a_row(cells: Seq<super::cells::Cell>, tracks: Seq<F32>, k: int)
    requires
        cells.len() < tracks.len(),
        widest_cell(cells, tracks) == Some(k),
    ensures
        match cell_parts(cells[k], tracks) {
            Some(parts) => {
                &&& cells.len() - 1 + parts.len() == tracks.len() ==> recovered(cells, tracks) == Some(
                    cells.subrange(0, k) + parts + cells.subrange(k + 1, cells.len() as int),
                )
                &&& cells.len() - 1 + parts.len() > tracks.len() ==> recovered(cells, tracks) is None
                &&& cells.len() - 1 + parts.len() < tracks.len() ==> recovered(cells, tracks)
                    == recovered(
                    cells.subrange(0, k) + parts + cells.subrange(k + 1, cells.len() as int),
                    tracks,
                )
            },
            None => recovered(cells, tracks) is None,
        },
{
    lemma_widest(cells, tracks);
    splitting_adds_cells(cells, tracks);
    assert(cells.take(k) =~= cells.subrange(0, k));
    assert(cells.skip(k + 1) =~= cells.subrange(k + 1, cells.len() as int));
}

/// Each track in turn gets the closest white space that those before it have left.
pub proof fn each_track_gets_its_split_point(
    cell: super::cells::Cell,
    chars: Seq<char>,
    tracks: Seq<F32>,
    i: int,
)
    requires
        0 <= i < tracks.len(),
    ensures
        split_points(cell, chars, tracks) matches Some(points) ==> points.len() == tracks.len()
            && nearest_space(cell, chars, chars.len(), tracks[i], points.take(i)) == Some(points[i]),
    decreases tracks.len(),
{
    lemma_points_len(cell, chars, tracks);
    if let Some(points) = split_points(cell, chars, tracks) {
        let d = tracks.drop_last();
        let before = split_points(cell, chars, d)->0;
        lemma_points_len(cell, chars, d);
        if i < d.len() {
            each_track_gets_its_split_point(cell, chars, d, i);
            assert(points.take(i) =~= before.take(i));
        } else {
            assert(points.take(i) =~= before);
        }
    }
}

} // verus!
