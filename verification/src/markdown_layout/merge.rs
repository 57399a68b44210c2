//! Ruled and borderless tables together.
use super::blocks::{Block, TableRun};
use super::ruled::sort_runs;
use crate::text::chars_of;
use vstd::prelude::*;

verus! {

/// Whether two runs have a line in common.
pub open spec fn overlap(a: super::blocks::Run, b: super::blocks::Run) -> bool {
    a.start < b.end && b.start < a.end
}

/// How many columns the first row of a table has; none for another block.
pub open spec fn columns(block: super::blocks::Content) -> Option<nat> {
    match block {
        super::blocks::Content::Table { rows, .. } => if rows.len() > 0 {
            Some(rows[0].len())
        } else {
            Some(0)
        },
        _ => None,
    }
}

/// Whether a run is a table with one column or none.
pub open spec fn is_narrow(run: super::blocks::Run) -> bool {
    columns(run.block) matches Some(n) && n <= 1
}

/// Whether a run is a table with two columns or more.
pub open spec fn is_wide(run: super::blocks::Run) -> bool {
    columns(run.block) matches Some(n) && n >= 2
}

/// Whether a ruled run yields to a borderless one: it is narrow, and overlaps a wide one.
pub open spec fn is_beaten(run: super::blocks::Run, borderless: Seq<super::blocks::Run>) -> bool {
    is_narrow(run) && exists|i: int|
        0 <= i < borderless.len() && overlap(#[trigger] borderless[i], run) && is_wide(borderless[i])
}

/// The ruled runs that do not yield.
pub open spec fn unbeaten(
    ruled: Seq<super::blocks::Run>,
    borderless: Seq<super::blocks::Run>,
) -> Seq<super::blocks::Run> {
    ruled.filter(|r: super::blocks::Run| !is_beaten(r, borderless))
}

/// Whether a run overlaps one of the others.
pub open spec fn overlaps_any(run: super::blocks::Run, others: Seq<super::blocks::Run>) -> bool {
    exists|i: int| 0 <= i < others.len() && overlap(run, #[trigger] others[i])
}

/// The runs with each of the others added that overlaps none before it.
pub open spec fn with_free(
    runs: Seq<super::blocks::Run>,
    others: Seq<super::blocks::Run>,
) -> Seq<super::blocks::Run>
    decreases others.len(),
{
    if others.len() == 0 {
        runs
    } else {
        let before = with_free(runs, others.drop_last());
        if overlaps_any(others.last(), before) {
            before
        } else {
            before.push(others.last())
        }
    }
}

/// The ruled and the borderless runs, in the order of their first lines; where they overlap the
/// ruled one stays, unless it is narrow and the borderless one is wide.
pub open spec fn merged_runs(
    ruled: Seq<super::blocks::Run>,
    borderless: Seq<super::blocks::Run>,
) -> Seq<super::blocks::Run> {
    crate::sorting::sorted(with_free(unbeaten(ruled, borderless), borderless))
}

proof fn lemma_with_free(runs: Seq<super::blocks::Run>, others: Seq<super::blocks::Run>)
    ensures
        with_free(runs, others).len() >= runs.len(),
        forall|i: int| 0 <= i < runs.len() ==> #[trigger] with_free(runs, others)[i] == runs[i],
        forall|i: int|
            0 <= i < others.len() ==> with_free(runs, others).contains(#[trigger] others[i])
                || overlaps_any(others[i], with_free(runs, others)),
        forall|i: int, j: int|
            runs.len() <= i < with_free(runs, others).len() && 0 <= j < i ==> !overlap(
                #[trigger] with_free(runs, others)[i],
                #[trigger] with_free(runs, others)[j],
            ),
    decreases others.len(),
{
    if others.len() > 0 {
        let rest = others.drop_last();
        lemma_with_free(runs, rest);
        let before = with_free(runs, rest);
        let all = with_free(runs, others);
        assert forall|i: int| 0 <= i < others.len() implies all.contains(#[trigger] others[i])
            || overlaps_any(others[i], all) by {
            if i < rest.len() {
                assert(rest[i] == others[i]);
                if before.contains(rest[i]) {
                    let k = choose|k: int| 0 <= k < before.len() && before[k] == rest[i];
                    assert(all[k] == rest[i]);
                } else {
                    let k = choose|k: int| 0 <= k < before.len() && overlap(rest[i], #[trigger] before[k]);
                    assert(overlap(others[i], all[k]));
                }
            } else if overlaps_any(others.last(), before) {
                let k = choose|k: int|
                    0 <= k < before.len() && overlap(others.last(), #[trigger] before[k]);
                assert(overlap(others[i], all[k]));
            } else {
                assert(all[before.len() as int] == others[i]);
            }
        }
    }
}

/// Merging keeps every ruled run that does not yield, and every borderless run that overlaps
/// none of the result; and the result is in the order of the first lines.
pub proof fn merging_prefers_ruled_runs(
    ruled: Seq<super::blocks::Run>,
    borderless: Seq<super::blocks::Run>,
)
    ensures
        crate::sorting::in_key_order(merged_runs(ruled, borderless)),
        forall|i: int|
            0 <= i < ruled.len() && !is_beaten(#[trigger] ruled[i], borderless) ==> merged_runs(
                ruled,
                borderless,
            ).contains(ruled[i]),
        forall|i: int|
            0 <= i < borderless.len() ==> merged_runs(ruled, borderless).contains(
                #[trigger] borderless[i],
            ) || overlaps_any(borderless[i], merged_runs(ruled, borderless)),
{
    broadcast use {vstd::seq_lib::group_to_multiset_ensures, vstd::seq_lib::group_filter_ensures};

    let keep = |r: super::blocks::Run| !is_beaten(r, borderless);
    let kept = unbeaten(ruled, borderless);
    let all = with_free(kept, borderless);
    let out = merged_runs(ruled, borderless);
    lemma_with_free(kept, borderless);
    crate::sorting::sorting_permutes_into_order(all);
    assert forall|run: super::blocks::Run| all.contains(run) implies #[trigger] out.contains(run) by {
        assert(all.to_multiset().count(run) > 0);
    }
    assert forall|i: int| 0 <= i < ruled.len() && !is_beaten(#[trigger] ruled[i], borderless) implies out.contains(
        ruled[i],
    ) by {
        assert(keep(ruled[i]));
        assert(kept.contains(ruled[i]));
        let k = choose|k: int| 0 <= k < kept.len() && kept[k] == ruled[i];
        assert(all[k] == ruled[i]);
        assert(all.contains(ruled[i]));
    }
    assert forall|i: int| 0 <= i < borderless.len() implies out.contains(#[trigger] borderless[i])
        || overlaps_any(borderless[i], out) by {
        if all.contains(borderless[i]) {
        } else {
            let k = choose|k: int| 0 <= k < all.len() && overlap(borderless[i], #[trigger] all[k]);
            assert(all.contains(all[k]));
            assert(out.contains(all[k]));
            let m = choose|m: int| 0 <= m < out.len() && out[m] == all[k];
            assert(overlap(borderless[i], out[m]));
        }
    }
}

/// Merging adds no run.
pub proof fn merging_adds_no_run(
    ruled: Seq<super::blocks::Run>,
    borderless: Seq<super::blocks::Run>,
    run: super::blocks::Run,
)
    requires
        merged_runs(ruled, borderless).contains(run),
    ensures
        ruled.contains(run) || borderless.contains(run),
{
    broadcast use vstd::seq_lib::group_to_multiset_ensures;

    let keep = |r: super::blocks::Run| !is_beaten(r, borderless);
    let kept = unbeaten(ruled, borderless);
    let all = with_free(kept, borderless);
    crate::sorting::sorting_permutes_into_order(all);
    assert(all.to_multiset().count(run) > 0);
    lemma_with_free_adds_none(kept, borderless, run);
    if kept.contains(run) {
        ruled.lemma_filter_contains_rev(keep, run);
    }
}

proof fn lemma_with_free_adds_none(
    runs: Seq<super::blocks::Run>,
    others: Seq<super::blocks::Run>,
    run: super::blocks::Run,
)
    requires
        with_free(runs, others).contains(run),
    ensures
        runs.contains(run) || others.contains(run),
    decreases others.len(),
{
    if others.len() > 0 {
        let rest = others.drop_last();
        let before = with_free(runs, rest);
        let all = with_free(runs, others);
        let k = choose|k: int| 0 <= k < all.len() && all[k] == run;
        if k < before.len() {
            assert(before[k] == run);
            lemma_with_free_adds_none(runs, rest, run);
            if rest.contains(run) {
                let m = choose|m: int| 0 <= m < rest.len() && rest[m] == run;
                assert(others[m] == run);
            }
        } else {
            assert(others[others.len() - 1] == run);
        }
    }
}

/// Whether no two runs have a line in common.
pub open spec fn are_apart(runs: Seq<super::blocks::Run>) -> bool {
    crate::permutations::pairwise(
        runs,
        |a: super::blocks::Run, b: super::blocks::Run| !overlap(a, b),
    )
}

/// Where no two ruled runs have a line in common, no two runs of the result have.
pub proof fn merging_keeps_runs_apart(
    ruled: Seq<super::blocks::Run>,
    borderless: Seq<super::blocks::Run>,
)
    requires
        are_apart(ruled),
    ensures
        are_apart(merged_runs(ruled, borderless)),
{
    let apart = |a: super::blocks::Run, b: super::blocks::Run| !overlap(a, b);
    let kept = unbeaten(ruled, borderless);
    let all = with_free(kept, borderless);
    crate::permutations::lemma_filter_keeps_pairs(
        ruled,
        |r: super::blocks::Run| !is_beaten(r, borderless),
        apart,
    );
    lemma_with_free(kept, borderless);
    assert forall|i: int, j: int| 0 <= i < all.len() && 0 <= j < all.len() && i != j implies apart(
        #[trigger] all[i],
        #[trigger] all[j],
    ) by {
        if i < kept.len() && j < kept.len() {
            assert(apart(kept[i], kept[j]));
        } else if j < i {
            assert(!overlap(all[i], all[j]));
        } else {
            assert(!overlap(all[j], all[i]));
        }
    }
    crate::sorting::sorting_permutes_into_order(all);
    crate::permutations::lemma_pairwise_permutes(all, merged_runs(ruled, borderless), apart);
}

/// How many columns the first row of a table has.
fn count_columns(block: &Block) -> (r: Option<usize>)
    ensures
        match r {
            Some(n) => columns(block@) == Some(n as nat),
            None => columns(block@) is None,
        },
{
    match block {
        Block::Table { header: _, rows } => {
            if rows.len() > 0 {
                assert(crate::text::text_rows(rows@)[0] == crate::text::texts(rows@[0]@));
                Some(rows[0].len())
            } else {
                Some(0)
            }
        },
        _ => None,
    }
}

/// Whether two runs have a line in common.
fn do_overlap(a: &TableRun, b: &TableRun) -> (r: bool)
    ensures
        r == overlap(a@, b@),
{
    !(a.end <= b.start || a.start >= b.end)
}

/// Whether a ruled run yields to a borderless one.
fn yields(run: &TableRun, borderless: &Vec<TableRun>) -> (r: bool)
    ensures
        r == is_beaten(run@, super::blocks::runs_of(borderless@)),
{
    let ghost others = super::blocks::runs_of(borderless@);
    let narrow: bool = match count_columns(&run.block) {
        Some(n) => n <= 1,
        None => false,
    };
    if !narrow {
        return false;
    }
    let mut i: usize = 0;
    while i < borderless.len()
        invariant
            i <= borderless@.len(),
            others == super::blocks::runs_of(borderless@),
            is_narrow(run@),
            forall|k: int| 0 <= k < i ==> !(overlap(#[trigger] others[k], run@) && is_wide(others[k])),
        decreases borderless@.len() - i,
    {
        let wide: bool = match count_columns(&borderless[i].block) {
            Some(n) => n >= 2,
            None => false,
        };
        if wide && do_overlap(&borderless[i], run) {
            assert(overlap(others[i as int], run@) && is_wide(others[i as int]));
            return true;
        }
        assert(others[i as int] == borderless@[i as int]@);
        i = i + 1;
    }
    false
}

/// Whether a run overlaps one of the others.
fn overlaps_one(run: &TableRun, others: &Vec<TableRun>) -> (r: bool)
    ensures
        r == overlaps_any(run@, super::blocks::runs_of(others@)),
{
    let ghost all = super::blocks::runs_of(others@);
    let mut i: usize = 0;
    while i < others.len()
        invariant
            i <= others@.len(),
            all == super::blocks::runs_of(others@),
            forall|k: int| 0 <= k < i ==> !overlap(run@, #[trigger] all[k]),
        decreases others@.len() - i,
    {
        if do_overlap(run, &others[i]) {
            assert(overlap(run@, all[i as int]));
            return true;
        }
        assert(all[i as int] == others@[i as int]@);
        i = i + 1;
    }
    false
}

/// Merge ruled-grid runs with borderless runs into a single sorted list. When
/// ranges overlap the ruled run wins (path-based geometry is strictly stronger
/// than text-alignment heuristics) — overlapping borderless runs are dropped.
///
/// A 1-column ruled run is ambiguous: it can come from a real single-column table or from a
/// multi-column table whose vertical separators are implicit. It yields to a multi-column
/// borderless run that covers the same range.
pub fn merge_table_runs(ruled: Vec<TableRun>, borderless: Vec<TableRun>) -> (r: Vec<TableRun>)
    ensures
        super::blocks::runs_of(r@) == merged_runs(
            super::blocks::runs_of(ruled@),
            super::blocks::runs_of(borderless@),
        ),
{
    let ghost first = super::blocks::runs_of(ruled@);
    let ghost second = super::blocks::runs_of(borderless@);
    let ghost keep = |r: super::blocks::Run| !is_beaten(r, second);
    let mut rest: Vec<TableRun> = ruled;
    let mut out: Vec<TableRun> = Vec::new();
    let ghost mut done: int = 0;
    assert(super::blocks::runs_of(out@) =~= first.take(0).filter(keep)) by {
        reveal(Seq::filter);
    }
    assert(first.skip(0) =~= first);
    while rest.len() > 0
        invariant
            0 <= done <= first.len(),
            second == super::blocks::runs_of(borderless@),
            keep == (|r: super::blocks::Run| !is_beaten(r, second)),
            super::blocks::runs_of(rest@) == first.skip(done),
            super::blocks::runs_of(out@) == first.take(done).filter(keep),
        decreases rest@.len(),
    {
        let ghost left = super::blocks::runs_of(rest@);
        let ghost whole = rest@;
        assert(left.len() == whole.len());
        assert(left[0] == whole[0]@);
        let run: TableRun = rest.remove(0);
        let ghost model = run@;
        assert(left[0] == first[done]);
        assert(super::blocks::runs_of(rest@) =~= left.skip(1));
        assert(left.skip(1) =~= first.skip(done + 1));
        reveal(Seq::filter);
        assert(first.take(done + 1).drop_last() =~= first.take(done));
        if !yields(&run, &borderless) {
            let ghost before = super::blocks::runs_of(out@);
            out.push(run);
            assert(super::blocks::runs_of(out@) =~= before.push(model));
        }
        proof {
            done = done + 1;
        }
    }
    assert(done == first.len()) by {
        assert(super::blocks::runs_of(rest@).len() == 0);
    }
    assert(first.take(done) =~= first);
    let ghost kept = super::blocks::runs_of(out@);
    let mut others: Vec<TableRun> = borderless;
    let ghost mut seen: int = 0;
    assert(second.take(0) =~= Seq::empty());
    assert(second.skip(0) =~= second);
    while others.len() > 0
        invariant
            0 <= seen <= second.len(),
            super::blocks::runs_of(others@) == second.skip(seen),
            super::blocks::runs_of(out@) == with_free(kept, second.take(seen)),
        decreases others@.len(),
    {
        let ghost left = super::blocks::runs_of(others@);
        let ghost whole = others@;
        assert(left.len() == whole.len());
        assert(left[0] == whole[0]@);
        let run: TableRun = others.remove(0);
        let ghost model = run@;
        assert(left[0] == second[seen]);
        assert(super::blocks::runs_of(others@) =~= left.skip(1));
        assert(left.skip(1) =~= second.skip(seen + 1));
        assert(second.take(seen + 1).drop_last() =~= second.take(seen));
        if !overlaps_one(&run, &out) {
            let ghost before = super::blocks::runs_of(out@);
            out.push(run);
            assert(super::blocks::runs_of(out@) =~= before.push(model));
        }
        proof {
            seen = seen + 1;
        }
    }
    assert(seen == second.len()) by {
        assert(super::blocks::runs_of(others@).len() == 0);
    }
    assert(second.take(seen) =~= second);
    sort_runs(out)
}

/// A character as it stands in a table cell.
pub open spec fn escaped_char(c: char) -> Seq<char> {
    if c == '\\' {
        seq!['\\', '\\']
    } else if c == '|' {
        seq!['\\', '|']
    } else if c == '\n' {
        seq![' ']
    } else {
        seq![c]
    }
}

/// A text as it stands in a table cell.
pub open spec fn escaped(s: Seq<char>) -> Seq<char>
    decreases s.len(),
{
    if s.len() == 0 {
        s
    } else {
        escaped(s.drop_last()) + escaped_char(s.last())
    }
}

/// How many backslashes a text ends in.
pub open spec fn trailing_backslashes(s: Seq<char>) -> nat
    decreases s.len(),
{
    if s.len() > 0 && s.last() == '\\' {
        trailing_backslashes(s.drop_last()) + 1
    } else {
        0
    }
}

/// The backslashes at the end of an escaped text pair up.
proof fn lemma_trailing_pairs(s: Seq<char>)
    ensures
        trailing_backslashes(escaped(s)) % 2 == 0,
    decreases s.len(),
{
    if s.len() > 0 {
        lemma_trailing_pairs(s.drop_last());
        let before = escaped(s.drop_last());
        let all = escaped(s);
        if s.last() == '\\' {
            assert(all.drop_last() =~= before.push('\\'));
            assert(before.push('\\').drop_last() =~= before);
            assert(trailing_backslashes(before.push('\\')) == trailing_backslashes(before) + 1);
            assert(trailing_backslashes(all) == trailing_backslashes(before) + 2);
        } else {
            assert(all.last() == escaped_char(s.last()).last());
        }
    }
}

/// In an escaped text no line ends, and an odd number of backslashes stands before each bar: the
/// last of them belongs to the bar, since those before it pair up.
pub proof fn escaped_cells_stay_in_their_column(s: Seq<char>)
    ensures
        !escaped(s).contains('\n'),
        forall|i: int|
            0 <= i < escaped(s).len() && #[trigger] escaped(s)[i] == '|' ==> trailing_backslashes(
                escaped(s).take(i),
            ) % 2 == 1,
    decreases s.len(),
{
    if s.len() > 0 {
        escaped_cells_stay_in_their_column(s.drop_last());
        lemma_trailing_pairs(s.drop_last());
        let before = escaped(s.drop_last());
        let piece = escaped_char(s.last());
        let all = escaped(s);
        assert forall|i: int| 0 <= i < all.len() implies all[i] != '\n' by {
            if i < before.len() {
                assert(before[i] == all[i]);
                assert(!before.contains('\n'));
            } else {
                assert(piece[i - before.len()] == all[i]);
            }
        }
        assert forall|i: int| 0 <= i < all.len() && #[trigger] all[i] == '|' implies
            trailing_backslashes(all.take(i)) % 2 == 1 by {
            if i < before.len() {
                assert(before[i] == '|');
                assert(all.take(i) =~= before.take(i));
            } else {
                assert(piece[i - before.len()] == '|');
                assert(all.take(i) =~= before.push('\\'));
                assert(before.push('\\').drop_last() =~= before);
            }
        }
    }
}

/// The text with a blank for each line end.
pub open spec fn on_one_line(s: Seq<char>) -> Seq<char> {
    s.map_values(
        |c: char|
            if c == '\n' {
                ' '
            } else {
                c
            },
    )
}

/// Escaping loses nothing but line ends: two texts are escaped alike if and only if they are the
/// same but for line ends that stand for blanks.
pub proof fn escaping_loses_only_line_ends(s: Seq<char>, t: Seq<char>)
    ensures
        escaped(s) == escaped(t) <==> on_one_line(s) == on_one_line(t),
    decreases s.len() + t.len(),
{
    let (a, b) = (escaped(s), escaped(t));
    let (x, y) = (on_one_line(s), on_one_line(t));
    if s.len() == 0 || t.len() == 0 {
        lemma_escaped_len(s);
        lemma_escaped_len(t);
        assert(x.len() == s.len() && y.len() == t.len());
        if s.len() == t.len() {
            assert(a =~= b && x =~= y);
        }
    } else {
        let (d, e) = (s.drop_last(), t.drop_last());
        let (p, q) = (escaped_char(s.last()), escaped_char(t.last()));
        escaping_loses_only_line_ends(d, e);
        assert(x =~= on_one_line(d).push(x.last()));
        assert(y =~= on_one_line(e).push(y.last()));
        assert(a.last() == p.last() && b.last() == q.last());
        if a == b {
            assert(p == q);
            assert(a.take(a.len() - p.len()) =~= escaped(d));
            assert(b.take(b.len() - q.len()) =~= escaped(e));
            assert(x.last() == y.last());
        }
        if x == y {
            assert(on_one_line(d) =~= x.drop_last());
            assert(on_one_line(e) =~= y.drop_last());
            assert(p =~= q);
        }
    }
}

proof fn lemma_escaped_len(s: Seq<char>)
    ensures
        escaped(s).len() >= s.len(),
    decreases s.len(),
{
    if s.len() > 0 {
        lemma_escaped_len(s.drop_last());
    }
}

/// Escape `|` and `\n` inside a markdown table cell so the pipe-table grammar
/// stays valid. Newlines should be impossible inside a single cell (we built
/// cells from spans on the same projected line) but guard anyway.
pub fn escape_table_cell(s: &str) -> (r: String)
    ensures
        r@ == escaped(s@),
{
    let v: Vec<char> = chars_of(s);
    let mut r: String = String::new();
    let mut i: usize = 0;
    while i < v.len()
        invariant
            i <= v@.len(),
            v@ == s@,
            r@ == escaped(s@.take(i as int)),
        decreases v@.len() - i,
    {
        let c: char = v[i];
        let ghost before = r@;
        assert(s@.take(i + 1).drop_last() =~= s@.take(i as int));
        if c == '\\' {
            r.push('\\');
            r.push('\\');
        } else if c == '|' {
            r.push('\\');
            r.push('|');
        } else if c == '\n' {
            r.push(' ');
        } else {
            r.push(c);
        }
        assert(r@ =~= before + escaped_char(c));
        i = i + 1;
    }
    assert(s@.take(i as int) =~= s@);
    r
}

/// Runs that have lines overlap exactly if there is a line that both take up.
pub proof fn overlapping_runs_share_a_line(a: super::blocks::Run, b: super::blocks::Run)
    requires
        a.start < a.end,
        b.start < b.end,
    ensures
        overlap(a, b) <==> exists|k: int|
            a.start <= k < a.end && #[trigger] takes_up(b, k),
{
    if overlap(a, b) {
        let k = if a.start <= b.start { b.start } else { a.start };
        assert(takes_up(b, k));
    }
}

/// Whether a run takes up a line.
pub open spec fn takes_up(run: super::blocks::Run, k: int) -> bool {
    run.start <= k < run.end
}

/// A ruled table with one column that shares a line with a borderless table of two columns or more
/// is left out, unless it is one of the borderless runs itself.
pub proof fn single_ruled_columns_yield_to_wide_tables(
    ruled: Seq<super::blocks::Run>,
    borderless: Seq<super::blocks::Run>,
    run: super::blocks::Run,
    j: int,
    k: int,
)
    requires
        run.block matches super::blocks::Content::Table { rows, .. } && rows.len() > 0
            && rows[0].len() <= 1,
        0 <= j < borderless.len(),
        borderless[j].block matches super::blocks::Content::Table { rows, .. } && rows.len() > 0
            && rows[0].len() >= 2,
        takes_up(run, k),
        takes_up(borderless[j], k),
        !borderless.contains(run),
    ensures
        !merged_runs(ruled, borderless).contains(run),
{
    let keep = |r: super::blocks::Run| !is_beaten(r, borderless);
    let kept = unbeaten(ruled, borderless);
    let all = with_free(kept, borderless);
    let out = merged_runs(ruled, borderless);
    assert(overlap(borderless[j], run));
    assert(is_beaten(run, borderless));
    lemma_free_sources(kept, borderless);
    crate::sorting::sorting_permutes_into_order(all);
    crate::permutations::lemma_same_elements(out, all);
    if out.contains(run) {
        let i = choose|i: int| 0 <= i < all.len() && all[i] == run;
        if kept.contains(run) {
            let m = choose|m: int| 0 <= m < kept.len() && kept[m] == run;
            ruled.lemma_filter_pred(keep, m);
        }
        assert(kept.contains(all[i]) || borderless.contains(all[i]));
    }
}

proof fn lemma_free_sources(runs: Seq<super::blocks::Run>, others: Seq<super::blocks::Run>)
    ensures
        forall|i: int|
            0 <= i < with_free(runs, others).len() ==> runs.contains(
                #[trigger] with_free(runs, others)[i],
            ) || others.contains(with_free(runs, others)[i]),
    decreases others.len(),
{
    let all = with_free(runs, others);
    if others.len() == 0 {
        assert forall|i: int| 0 <= i < all.len() implies runs.contains(#[trigger] all[i])
            || others.contains(all[i]) by {
            assert(runs[i] == all[i]);
        }
    } else {
        let d = others.drop_last();
        let before = with_free(runs, d);
        lemma_free_sources(runs, d);
        assert forall|i: int| 0 <= i < all.len() implies runs.contains(#[trigger] all[i])
            || others.contains(all[i]) by {
            if i < before.len() {
                assert(all[i] == before[i]);
                if d.contains(before[i]) {
                    let k = choose|k: int| 0 <= k < d.len() && d[k] == before[i];
                    assert(others[k] == all[i]);
                }
            } else {
                assert(others[others.len() - 1] == all[i]);
            }
        }
    }
}

} // verus!
