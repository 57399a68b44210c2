//! Searching and replacing in texts.
use vstd::prelude::*;

verus! {

/// Whether a pattern stands in a text at a position.
pub open spec fn matches_at(s: Seq<char>, pattern: Seq<char>, i: int) -> bool {
    0 <= i && i + pattern.len() <= s.len() && s.subrange(i, i + pattern.len()) == pattern
}

/// The first position from `i` on at which a pattern stands in a text.
pub open spec fn position(s: Seq<char>, pattern: Seq<char>, i: int) -> Option<int>
    decreases s.len() + 1 - i,
{
    if i + pattern.len() > s.len() {
        None
    } else if matches_at(s, pattern, i) {
        Some(i)
    } else {
        position(s, pattern, i + 1)
    }
}

/// Whether a pattern stands somewhere in a text.
pub open spec fn occurs(s: Seq<char>, pattern: Seq<char>) -> bool {
    position(s, pattern, 0) is Some
}

/// The text with what stands from `start` up to `end` replaced.
pub open spec fn spliced(s: Seq<char>, start: int, end: int, text: Seq<char>) -> Seq<char> {
    s.take(start) + text + s.skip(end)
}

/// The text with the first occurrence of a pattern replaced.
pub open spec fn replaced_first(s: Seq<char>, pattern: Seq<char>, text: Seq<char>) -> Seq<char> {
    match position(s, pattern, 0) {
        Some(i) => spliced(s, i, i + pattern.len(), text),
        None => s,
    }
}

/// The text from `i` on with every occurrence of a pattern replaced, from the left.
pub open spec fn replaced_from(s: Seq<char>, pattern: Seq<char>, text: Seq<char>, i: int) -> Seq<char>
    decreases s.len() - i,
{
    if i < 0 || i > s.len() {
        Seq::empty()
    } else {
        match position(s, pattern, i) {
            Some(k) if pattern.len() > 0 => {
                proof {
                    search_finds_the_first(s, pattern, i);
                }
                s.subrange(i, k) + text + replaced_from(s, pattern, text, k + pattern.len())
            },
            _ => s.skip(i),
        }
    }
}

/// The text with every occurrence of a pattern replaced, from the left.
pub open spec fn replaced(s: Seq<char>, pattern: Seq<char>, text: Seq<char>) -> Seq<char> {
    replaced_from(s, pattern, text, 0)
}

/// What a search finds is the first place where the pattern stands, and it finds one if there is
/// one.
pub proof fn search_finds_the_first(s: Seq<char>, pattern: Seq<char>, i: int)
    requires
        0 <= i,
    ensures
        match position(s, pattern, i) {
            Some(k) => i <= k && matches_at(s, pattern, k) && forall|j: int|
                i <= j < k ==> !(#[trigger] matches_at(s, pattern, j)),
            None => forall|j: int| i <= j ==> !(#[trigger] matches_at(s, pattern, j)),
        },
    decreases s.len() + 1 - i,
{
    if i + pattern.len() <= s.len() && !matches_at(s, pattern, i) {
        search_finds_the_first(s, pattern, i + 1);
    }
}

/// Where a pattern does not occur, replacing changes nothing.
pub proof fn replacing_needs_an_occurrence(s: Seq<char>, pattern: Seq<char>, text: Seq<char>)
    requires
        !occurs(s, pattern),
    ensures
        replaced(s, pattern, text) == s,
        replaced_first(s, pattern, text) == s,
{
    assert(s.skip(0) =~= s);
}

/// Whether a pattern stands in a text at a position.
fn is_at(s: &Vec<char>, pattern: &Vec<char>, i: usize) -> (r: bool)
    requires
        i + pattern@.len() <= s@.len(),
    ensures
        r == matches_at(s@, pattern@, i as int),
{
    let ghost part = s@.subrange(i as int, i + pattern@.len());
    let n: usize = s.len();
    let mut k: usize = 0;
    while k < pattern.len()
        invariant
            k <= pattern@.len(),
            n == s@.len(),
            i + pattern@.len() <= n,
            part == s@.subrange(i as int, i + pattern@.len()),
            forall|j: int| 0 <= j < k ==> part[j] == pattern@[j],
        decreases pattern@.len() - k,
    {
        if s[i + k] != pattern[k] {
            assert(part[k as int] != pattern@[k as int]);
            return false;
        }
        k = k + 1;
    }
    assert(part =~= pattern@);
    true
}

/// The first position from `start` on at which a pattern stands in a text.
pub fn find_from(s: &Vec<char>, pattern: &Vec<char>, start: usize) -> (r: Option<usize>)
    requires
        start <= s@.len(),
    ensures
        match r {
            Some(k) => position(s@, pattern@, start as int) == Some(k as int) && start <= k && k
                + pattern@.len() <= s@.len(),
            None => position(s@, pattern@, start as int) is None,
        },
{
    let n: usize = s.len();
    let m: usize = pattern.len();
    if m == 0 {
        assert(s@.subrange(start as int, start as int) =~= pattern@);
        return Some(start);
    }
    if m > n {
        return None;
    }
    let mut i: usize = start;
    while i <= n - m
        invariant
            n == s@.len(),
            m == pattern@.len(),
            0 < m <= n,
            start <= i <= n,
            position(s@, pattern@, start as int) == position(s@, pattern@, i as int),
        decreases n + 1 - i,
    {
        if is_at(s, pattern, i) {
            return Some(i);
        }
        i = i + 1;
    }
    None
}

/// The text with what stands from `start` up to `end` replaced.
pub fn splice(s: &Vec<char>, start: usize, end: usize, text: &Vec<char>) -> (r: Vec<char>)
    requires
        start <= end <= s@.len(),
    ensures
        r@ == spliced(s@, start as int, end as int, text@),
{
    let mut r: Vec<char> = Vec::new();
    push_range(&mut r, s, 0, start);
    push_range(&mut r, text, 0, text.len());
    push_range(&mut r, s, end, s.len());
    assert(r@ =~= spliced(s@, start as int, end as int, text@));
    r
}

/// Appends the characters from `start` up to `end`.
pub fn push_range(r: &mut Vec<char>, s: &Vec<char>, start: usize, end: usize)
    requires
        start <= end <= s@.len(),
    ensures
        final(r)@ == old(r)@ + s@.subrange(start as int, end as int),
{
    let ghost before = r@;
    let mut i: usize = start;
    assert(before + s@.subrange(start as int, start as int) =~= before);
    while i < end
        invariant
            start <= i <= end <= s@.len(),
            r@ == before + s@.subrange(start as int, i as int),
        decreases end - i,
    {
        r.push(s[i]);
        i = i + 1;
        assert(r@ =~= before + s@.subrange(start as int, i as int));
    }
}

/// The text with the first occurrence of a pattern replaced.
pub fn replace_first(s: Vec<char>, pattern: &Vec<char>, text: &Vec<char>) -> (r: Vec<char>)
    ensures
        r@ == replaced_first(s@, pattern@, text@),
{
    let n: usize = s.len();
    match find_from(&s, pattern, 0) {
        Some(i) => splice(&s, i, i + pattern.len(), text),
        None => s,
    }
}

/// The text with every occurrence of a pattern replaced, from the left.
pub fn replace_all(s: &Vec<char>, pattern: &Vec<char>, text: &Vec<char>) -> (r: Vec<char>)
    requires
        pattern@.len() > 0,
    ensures
        r@ == replaced(s@, pattern@, text@),
{
    let n: usize = s.len();
    let mut r: Vec<char> = Vec::new();
    let mut i: usize = 0;
    let mut open: bool = true;
    assert(r@ + replaced_from(s@, pattern@, text@, 0) =~= replaced(s@, pattern@, text@));
    while open
        invariant
            n == s@.len(),
            i <= n,
            pattern@.len() > 0,
            open ==> r@ + replaced_from(s@, pattern@, text@, i as int) == replaced(
                s@,
                pattern@,
                text@,
            ),
            !open ==> r@ == replaced(s@, pattern@, text@),
        decreases s@.len() - i + (if open { 1int } else { 0 }),
    {
        let ghost before = r@;
        match find_from(s, pattern, i) {
            Some(k) => {
                push_range(&mut r, s, i, k);
                push_range(&mut r, text, 0, text.len());
                let next: usize = k + pattern.len();
                assert(text@.subrange(0, text@.len() as int) =~= text@);
                let ghost rest = replaced_from(s@, pattern@, text@, next as int);
                assert(r@ + rest =~= before + (s@.subrange(i as int, k as int) + text@ + rest));
                i = next;
            },
            None => {
                push_range(&mut r, s, i, s.len());
                assert(s@.subrange(i as int, s@.len() as int) =~= s@.skip(i as int));
                open = false;
            },
        }
    }
    r
}

proof fn lemma_position_from(s: Seq<char>, pattern: Seq<char>, i: int, j: int)
    requires
        0 <= i <= s.len(),
        j >= 0,
    ensures
        position(s.skip(i), pattern, j) == match position(s, pattern, i + j) {
            Some(k) => Some(k - i),
            None => None,
        },
    decreases s.len() + 1 - i - j,
{
    let t = s.skip(i);
    if i + j + pattern.len() <= s.len() {
        assert(t.subrange(j, j + pattern.len()) =~= s.subrange(i + j, i + j + pattern.len()));
        if !matches_at(t, pattern, j) {
            lemma_position_from(s, pattern, i, j + 1);
        }
    }
}

proof fn lemma_replaced_from(s: Seq<char>, pattern: Seq<char>, text: Seq<char>, i: int)
    requires
        0 <= i <= s.len(),
        pattern.len() > 0,
    ensures
        replaced_from(s, pattern, text, i) == replaced(s.skip(i), pattern, text),
    decreases s.len() - i,
{
    let t = s.skip(i);
    lemma_position_from(s, pattern, i, 0);
    search_finds_the_first(s, pattern, i);
    match position(s, pattern, i) {
        Some(k) => {
            let n = k + pattern.len();
            lemma_replaced_from(s, pattern, text, n);
            lemma_replaced_from(t, pattern, text, n - i);
            assert(t.skip(n - i) =~= s.skip(n));
            assert(t.subrange(0, k - i) =~= s.subrange(i, k));
        },
        None => {
            assert(t.skip(0) =~= t);
        },
    }
}

/// Replacing replaces the first occurrence of a pattern, and then all those in what follows it.
pub proof fn replacing_replaces_every_occurrence(
    s: Seq<char>,
    pattern: Seq<char>,
    text: Seq<char>,
    k: int,
)
    requires
        pattern.len() > 0,
        matches_at(s, pattern, k),
        forall|j: int| 0 <= j < k ==> !(#[trigger] matches_at(s, pattern, j)),
    ensures
        replaced(s, pattern, text) == s.take(k) + text + replaced(
            s.skip(k + pattern.len()),
            pattern,
            text,
        ),
        replaced_first(s, pattern, text) == s.take(k) + text + s.skip(k + pattern.len()),
{
    search_finds_the_first(s, pattern, 0);
    let p = position(s, pattern, 0)->0;
    if k < p {
        assert(!matches_at(s, pattern, k));
    }
    assert(p == k);
    lemma_replaced_from(s, pattern, text, k + pattern.len());
    assert(s.subrange(0, k) =~= s.take(k));
}

} // verus!
