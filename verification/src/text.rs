//! Text as sequences of characters.
use vstd::multiset::Multiset;
use vstd::prelude::*;
use vstd::slice::*;
use vstd::string::*;

verus! {

/// `String::push` appends one character to the string.
pub assume_specification[ String::push ](s: &mut String, c: char)
    ensures
        final(s)@ == old(s)@.push(c),
;

/// Whether a character has the Unicode property `White_Space`.
pub open spec fn is_space(c: char) -> bool {
    let n = c as u32;
    9 <= n <= 13 || n == 0x20 || n == 0x85 || n == 0xA0 || n == 0x1680 || 0x2000 <= n <= 0x200A || n
        == 0x2028 || n == 0x2029 || n == 0x202F || n == 0x205F || n == 0x3000
}

/// The text without its leading white space.
pub open spec fn trimmed_start(s: Seq<char>) -> Seq<char>
    decreases s.len(),
{
    if s.len() > 0 && is_space(s[0]) {
        trimmed_start(s.skip(1))
    } else {
        s
    }
}

/// The text without its trailing white space.
pub open spec fn trimmed_end(s: Seq<char>) -> Seq<char>
    decreases s.len(),
{
    if s.len() > 0 && is_space(s.last()) {
        trimmed_end(s.drop_last())
    } else {
        s
    }
}

/// The text without its leading and trailing white space.
pub open spec fn trimmed(s: Seq<char>) -> Seq<char> {
    trimmed_end(trimmed_start(s))
}

/// Whether the text has no character but white space.
pub open spec fn is_blank(s: Seq<char>) -> bool {
    forall|i: int| 0 <= i < s.len() ==> is_space(#[trigger] s[i])
}

/// The text with each run of white space made one blank.
pub open spec fn collapsed(s: Seq<char>) -> Seq<char>
    decreases s.len(),
{
    if s.len() == 0 {
        s
    } else if !is_space(s.last()) {
        collapsed(s.drop_last()).push(s.last())
    } else if s.len() >= 2 && is_space(s[s.len() - 2]) {
        collapsed(s.drop_last())
    } else {
        collapsed(s.drop_last()).push(' ')
    }
}

/// The texts one after the other, with a separator between two of them.
pub open spec fn joined(parts: Seq<Seq<char>>, separator: Seq<char>) -> Seq<char>
    decreases parts.len(),
{
    if parts.len() == 0 {
        Seq::empty()
    } else if parts.len() == 1 {
        parts[0]
    } else {
        joined(parts.drop_last(), separator) + separator + parts.last()
    }
}

/// What the strings hold.
pub open spec fn texts(strings: Seq<String>) -> Seq<Seq<char>> {
    Seq::new(strings.len(), |i: int| strings[i]@)
}

/// What the strings of a grid hold.
pub open spec fn text_rows(rows: Seq<Vec<String>>) -> Seq<Seq<Seq<char>>> {
    Seq::new(rows.len(), |i: int| texts(rows[i]@))
}

/// Whether a character has the Unicode property `White_Space`.
pub fn is_white_space(c: char) -> (r: bool)
    ensures
        r == is_space(c),
{
    let n: u32 = c as u32;
    (9 <= n && n <= 13) || n == 0x20 || n == 0x85 || n == 0xA0 || n == 0x1680 || (0x2000 <= n && n
        <= 0x200A) || n == 0x2028 || n == 0x2029 || n == 0x202F || n == 0x205F || n == 0x3000
}

/// The characters of a text.
pub fn chars_of(s: &str) -> (r: Vec<char>)
    ensures
        r@ == s@,
{
    let mut r: Vec<char> = Vec::new();
    for c in it: s.chars()
        invariant
            r@ == it.seq().take(it.index() as int),
            it.seq() == s@,
    {
        r.push(c);
    }
    assert(r@ =~= s@);
    r
}

/// The text made of some characters.
pub fn string_of(v: &Vec<char>) -> (r: String)
    ensures
        r@ == v@,
{
    string_of_range(v, 0, v.len())
}

/// The text made of the characters from `start` up to `end`.
pub fn string_of_range(v: &Vec<char>, start: usize, end: usize) -> (r: String)
    requires
        start <= end <= v@.len(),
    ensures
        r@ == v@.subrange(start as int, end as int),
{
    let mut r: String = String::new();
    let mut i: usize = start;
    while i < end
        invariant
            start <= i <= end <= v@.len(),
            r@ == v@.subrange(start as int, i as int),
        decreases end - i,
    {
        r.push(v[i]);
        i = i + 1;
        assert(v@.subrange(start as int, i as int) =~= v@.subrange(start as int, i - 1).push(v@[i - 1]));
    }
    r
}

/// Whether two texts are the same.
pub fn same_text(a: &str, b: &str) -> (r: bool)
    ensures
        r == (a@ == b@),
{
    let x: Vec<char> = chars_of(a);
    let y: Vec<char> = chars_of(b);
    if x.len() != y.len() {
        return false;
    }
    let mut i: usize = 0;
    while i < x.len()
        invariant
            i <= x@.len(),
            x@.len() == y@.len(),
            x@ == a@,
            y@ == b@,
            x@.take(i as int) =~= y@.take(i as int),
        decreases x@.len() - i,
    {
        if x[i] != y[i] {
            assert(a@[i as int] != b@[i as int]);
            return false;
        }
        i = i + 1;
        assert(x@.take(i as int) =~= x@.take(i - 1).push(x@[i - 1]));
        assert(y@.take(i as int) =~= y@.take(i - 1).push(y@[i - 1]));
    }
    assert(x@.take(i as int) =~= x@);
    assert(y@.take(i as int) =~= y@);
    true
}

proof fn lemma_trimmed_start(s: Seq<char>, k: int)
    requires
        0 <= k <= s.len(),
        forall|i: int| 0 <= i < k ==> is_space(#[trigger] s[i]),
        k < s.len() ==> !is_space(s[k]),
    ensures
        trimmed_start(s) == s.skip(k),
    decreases k,
{
    if k == 0 {
        assert(s.skip(0) =~= s);
    } else {
        assert(is_space(s[0]));
        let t = s.skip(1);
        assert forall|i: int| 0 <= i < k - 1 implies is_space(#[trigger] t[i]) by {
            assert(is_space(s[i + 1]));
        }
        lemma_trimmed_start(t, k - 1);
        assert(t.skip(k - 1) =~= s.skip(k));
    }
}

proof fn lemma_trimmed_end(s: Seq<char>, k: int)
    requires
        0 <= k <= s.len(),
        forall|i: int| k <= i < s.len() ==> is_space(#[trigger] s[i]),
        k > 0 ==> !is_space(s[k - 1]),
    ensures
        trimmed_end(s) == s.take(k),
    decreases s.len() - k,
{
    if k == s.len() {
        assert(s.take(k) =~= s);
    } else {
        assert(is_space(s[s.len() - 1]));
        lemma_trimmed_end(s.drop_last(), k);
        assert(s.drop_last().take(k) =~= s.take(k));
    }
}

/// Trimming leaves nothing exactly of blank texts.
pub proof fn trimming_empties_blank_texts(s: Seq<char>)
    ensures
        trimmed(s).len() == 0 <==> is_blank(s),
        trimmed_start(s).len() == 0 <==> is_blank(s),
    decreases s.len(),
{
    if s.len() == 0 {
    } else if is_space(s[0]) {
        let t = s.skip(1);
        trimming_empties_blank_texts(t);
        assert forall|i: int| is_blank(t) && 0 <= i < s.len() implies is_space(#[trigger] s[i]) by {
            if i > 0 {
                assert(is_space(t[i - 1]));
            }
        }
        if is_blank(s) {
            assert forall|i: int| 0 <= i < t.len() implies is_space(#[trigger] t[i]) by {
                assert(is_space(s[i + 1]));
            }
        }
    } else {
        lemma_first_stays(s);
    }
}

proof fn lemma_first_stays(s: Seq<char>)
    requires
        s.len() > 0,
        !is_space(s[0]),
    ensures
        trimmed_end(s).len() > 0,
        trimmed_end(s)[0] == s[0],
    decreases s.len(),
{
    if is_space(s.last()) {
        assert(s.len() > 1);
        lemma_first_stays(s.drop_last());
    }
}

/// A trimmed text has white space at neither end, so trimming it again changes nothing.
pub proof fn trimming_is_idempotent(s: Seq<char>)
    ensures
        trimmed(trimmed(s)) == trimmed(s),
        trimmed(s).len() > 0 ==> !is_space(trimmed(s)[0]) && !is_space(trimmed(s).last()),
{
    lemma_start_not_space(s);
    let a = trimmed_start(s);
    lemma_end_not_space(a);
    if a.len() > 0 {
        lemma_first_stays(a);
    }
}

proof fn lemma_start_not_space(s: Seq<char>)
    ensures
        trimmed_start(s).len() > 0 ==> !is_space(trimmed_start(s)[0]),
    decreases s.len(),
{
    if s.len() > 0 && is_space(s[0]) {
        lemma_start_not_space(s.skip(1));
    }
}

proof fn lemma_end_not_space(s: Seq<char>)
    ensures
        trimmed_end(s).len() > 0 ==> !is_space(trimmed_end(s).last()),
    decreases s.len(),
{
    if s.len() > 0 && is_space(s.last()) {
        lemma_end_not_space(s.drop_last());
    }
}

/// The characters of a text that are not white space, in order.
pub open spec fn ink(s: Seq<char>) -> Seq<char> {
    s.filter(|c: char| !is_space(c))
}

/// The ink of two texts, one after the other.
pub proof fn joining_joins_the_ink(s: Seq<char>, t: Seq<char>)
    ensures
        ink(s + t) == ink(s) + ink(t),
{
    Seq::filter_distributes_over_add(s, t, |c: char| !is_space(c));
}

/// A blank text has no ink.
pub proof fn blank_texts_have_no_ink(s: Seq<char>)
    requires
        is_blank(s),
    ensures
        ink(s) == Seq::<char>::empty(),
    decreases s.len(),
{
    reveal(Seq::filter);
    if s.len() > 0 {
        assert(is_space(s[s.len() - 1]));
        let d = s.drop_last();
        assert forall|i: int| 0 <= i < d.len() implies is_space(#[trigger] d[i]) by {
            assert(is_space(s[i]));
        }
        blank_texts_have_no_ink(d);
    }
}

/// The ink of several texts, one after the other.
pub open spec fn all_ink(parts: Seq<Seq<char>>) -> Seq<char>
    decreases parts.len(),
{
    if parts.len() == 0 {
        Seq::empty()
    } else {
        all_ink(parts.drop_last()) + ink(parts.last())
    }
}

/// The ink of two rows of texts, one after the other.
pub proof fn joining_rows_joins_the_ink(s: Seq<Seq<char>>, t: Seq<Seq<char>>)
    ensures
        all_ink(s + t) == all_ink(s) + all_ink(t),
    decreases t.len(),
{
    if t.len() > 0 {
        let d = t.drop_last();
        joining_rows_joins_the_ink(s, d);
        assert((s + t).drop_last() =~= s + d);
        assert(all_ink(s) + all_ink(d) + ink(t.last()) =~= all_ink(s) + (all_ink(d) + ink(
            t.last(),
        )));
    } else {
        assert(s + t =~= s);
        assert(all_ink(s) + all_ink(t) =~= all_ink(s));
    }
}

/// Trimming makes no text longer.
pub proof fn trimming_only_shortens(s: Seq<char>)
    ensures
        trimmed(s).len() <= s.len(),
{
    lemma_trimmed_start_len(s);
    lemma_trimmed_end_len(trimmed_start(s));
}

proof fn lemma_trimmed_start_len(s: Seq<char>)
    ensures
        trimmed_start(s).len() <= s.len(),
    decreases s.len(),
{
    if s.len() > 0 && is_space(s[0]) {
        lemma_trimmed_start_len(s.skip(1));
    }
}

proof fn lemma_trimmed_end_len(s: Seq<char>)
    ensures
        trimmed_end(s).len() <= s.len(),
    decreases s.len(),
{
    if s.len() > 0 && is_space(s.last()) {
        lemma_trimmed_end_len(s.drop_last());
    }
}

/// Trimming takes white space alone.
pub proof fn trimming_keeps_the_ink(s: Seq<char>)
    ensures
        ink(trimmed(s)) == ink(s),
{
    lemma_trimmed_start_ink(s);
    lemma_trimmed_end_ink(trimmed_start(s));
}

proof fn lemma_trimmed_start_ink(s: Seq<char>)
    ensures
        ink(trimmed_start(s)) == ink(s),
    decreases s.len(),
{
    if s.len() > 0 && is_space(s[0]) {
        let (first, rest) = (s.take(1), s.skip(1));
        lemma_trimmed_start_ink(rest);
        joining_joins_the_ink(first, rest);
        blank_texts_have_no_ink(first);
        assert(first + rest =~= s);
        assert(ink(first) + ink(rest) =~= ink(rest));
    }
}

proof fn lemma_trimmed_end_ink(s: Seq<char>)
    ensures
        ink(trimmed_end(s)) == ink(s),
    decreases s.len(),
{
    reveal(Seq::filter);
    if s.len() > 0 && is_space(s.last()) {
        lemma_trimmed_end_ink(s.drop_last());
    }
}

/// Collapsing takes and changes white space alone.
pub proof fn collapsing_keeps_the_ink(s: Seq<char>)
    ensures
        ink(collapsed(s)) == ink(s),
    decreases s.len(),
{
    reveal(Seq::filter);
    if s.len() > 0 {
        collapsing_keeps_the_ink(s.drop_last());
        let before = collapsed(s.drop_last());
        assert(before.push(s.last()).drop_last() =~= before);
        assert(before.push(' ').drop_last() =~= before);
    }
}

/// The characters without leading and trailing white space.
pub fn trim_chars(v: &Vec<char>) -> (r: (usize, usize))
    ensures
        r.0 <= r.1 <= v@.len(),
        v@.subrange(r.0 as int, r.1 as int) == trimmed(v@),
{
    let n: usize = v.len();
    let mut a: usize = 0;
    while a < n && is_white_space(v[a])
        invariant
            a <= n,
            n == v@.len(),
            forall|i: int| 0 <= i < a ==> is_space(#[trigger] v@[i]),
        decreases n - a,
    {
        a = a + 1;
    }
    let mut b: usize = n;
    while b > a && is_white_space(v[b - 1])
        invariant
            a <= b <= n,
            n == v@.len(),
            forall|i: int| b <= i < n ==> is_space(#[trigger] v@[i]),
        decreases b,
    {
        b = b - 1;
    }
    proof {
        lemma_trimmed_start(v@, a as int);
        let t = v@.skip(a as int);
        assert forall|i: int| b - a <= i < t.len() implies is_space(#[trigger] t[i]) by {
            assert(is_space(v@[i + a]));
        }
        lemma_trimmed_end(t, b - a);
        assert(t.take(b - a) =~= v@.subrange(a as int, b as int));
    }
    (a, b)
}

/// The text without its leading and trailing white space.
pub fn trim(s: &str) -> (r: String)
    ensures
        r@ == trimmed(s@),
{
    let v: Vec<char> = chars_of(s);
    let (a, b) = trim_chars(&v);
    string_of_range(&v, a, b)
}

/// The text without its trailing white space.
pub fn trim_end(s: &str) -> (r: String)
    ensures
        r@ == trimmed_end(s@),
{
    let v: Vec<char> = chars_of(s);
    let n: usize = v.len();
    let mut b: usize = n;
    while b > 0 && is_white_space(v[b - 1])
        invariant
            b <= n,
            n == v@.len(),
            forall|i: int| b <= i < n ==> is_space(#[trigger] v@[i]),
        decreases b,
    {
        b = b - 1;
    }
    proof {
        lemma_trimmed_end(v@, b as int);
        assert(v@.subrange(0, b as int) =~= v@.take(b as int));
    }
    string_of_range(&v, 0, b)
}

/// Whether the text has no character but white space.
pub fn blank(s: &str) -> (r: bool)
    ensures
        r == is_blank(s@),
{
    let v: Vec<char> = chars_of(s);
    let mut i: usize = 0;
    while i < v.len()
        invariant
            i <= v@.len(),
            v@ == s@,
            forall|j: int| 0 <= j < i ==> is_space(#[trigger] s@[j]),
        decreases v@.len() - i,
    {
        if !is_white_space(v[i]) {
            assert(!is_space(s@[i as int]));
            return false;
        }
        i = i + 1;
    }
    true
}

/// The text with each run of white space made one blank.
pub fn collapse_whitespace(s: &str) -> (r: String)
    ensures
        r@ == collapsed(s@),
{
    let v: Vec<char> = chars_of(s);
    let mut r: String = String::new();
    let mut i: usize = 0;
    while i < v.len()
        invariant
            i <= v@.len(),
            v@ == s@,
            r@ == collapsed(s@.take(i as int)),
        decreases v@.len() - i,
    {
        let c: char = v[i];
        proof {
            let t = s@.take(i + 1);
            assert(t.drop_last() =~= s@.take(i as int));
        }
        if !is_white_space(c) {
            r.push(c);
        } else if i == 0 || !is_white_space(v[i - 1]) {
            r.push(' ');
        }
        i = i + 1;
    }
    assert(s@.take(i as int) =~= s@);
    r
}

/// The texts one after the other, with a separator between two of them.
pub fn join(parts: &Vec<String>, separator: &str) -> (r: String)
    ensures
        r@ == joined(texts(parts@), separator@),
{
    let mut r: String = String::new();
    let mut i: usize = 0;
    let ghost all = texts(parts@);
    assert(r@ =~= joined(all.take(0), separator@));
    while i < parts.len()
        invariant
            i <= parts@.len(),
            all == texts(parts@),
            r@ == joined(all.take(i as int), separator@),
        decreases parts@.len() - i,
    {
        proof {
            assert(all.take(i + 1).drop_last() =~= all.take(i as int));
            if i == 0 {
                assert(r@ =~= Seq::empty());
            }
        }
        if i > 0 {
            r.append(separator);
        }
        r.append(parts[i].as_str());
        i = i + 1;
        if i == 1 {
            assert(r@ =~= all[0]);
        }
    }
    assert(all.take(i as int) =~= all);
    r
}

/// A digit.
pub open spec fn digit(d: nat) -> char {
    if d == 0 {
        '0'
    } else if d == 1 {
        '1'
    } else if d == 2 {
        '2'
    } else if d == 3 {
        '3'
    } else if d == 4 {
        '4'
    } else if d == 5 {
        '5'
    } else if d == 6 {
        '6'
    } else if d == 7 {
        '7'
    } else if d == 8 {
        '8'
    } else {
        '9'
    }
}

/// A number in decimal digits.
pub open spec fn decimal(n: nat) -> Seq<char>
    decreases n,
{
    if n < 10 {
        seq![digit(n)]
    } else {
        decimal(n / 10).push(digit(n % 10))
    }
}

/// Numbers as a list in square brackets.
pub open spec fn decimal_list(s: Seq<usize>) -> Seq<char> {
    seq!['['] + joined(Seq::new(s.len(), |i: int| decimal(s[i] as nat)), ", "@) + seq![']']
}

fn digit_char(d: u64) -> (c: char)
    requires
        d < 10,
    ensures
        c == digit(d as nat),
{
    match d {
        0 => '0',
        1 => '1',
        2 => '2',
        3 => '3',
        4 => '4',
        5 => '5',
        6 => '6',
        7 => '7',
        8 => '8',
        _ => '9',
    }
}

/// A number in decimal digits.
pub fn to_decimal(n: u64) -> (r: String)
    ensures
        r@ == decimal(n as nat),
    decreases n,
{
    if n < 10 {
        let mut r: String = String::new();
        r.push(digit_char(n));
        assert(r@ =~= seq![digit(n as nat)]);
        r
    } else {
        let mut r: String = to_decimal(n / 10);
        r.push(digit_char(n % 10));
        r
    }
}

/// Numbers as a list in square brackets.
pub fn to_decimal_list(s: &[usize]) -> (r: String)
    ensures
        r@ == decimal_list(s@),
{
    let mut parts: Vec<String> = Vec::new();
    let mut i: usize = 0;
    while i < s.len()
        invariant
            i <= s@.len(),
            parts@.len() == i,
            forall|k: int| 0 <= k < i ==> (#[trigger] parts@[k])@ == decimal(s@[k] as nat),
        decreases s@.len() - i,
    {
        parts.push(to_decimal(*slice_index_get(s, i) as u64));
        i = i + 1;
    }
    assert(texts(parts@) =~= Seq::new(s@.len(), |i: int| decimal(s@[i] as nat)));
    let mut r: String = String::new();
    r.push('[');
    let list: String = join(&parts, ", ");
    r.append(list.as_str());
    r.push(']');
    assert(r@ =~= decimal_list(s@));
    r
}

/// Different numbers have different digits.
pub proof fn decimal_is_injective(a: nat, b: nat)
    requires
        decimal(a) == decimal(b),
    ensures
        a == b,
    decreases a,
{
    let x = decimal(a);
    let y = decimal(b);
    assert(x.last() == digit(a % 10));
    assert(y.last() == digit(b % 10));
    lemma_decimal_len(a);
    lemma_decimal_len(b);
    if a >= 10 && b >= 10 {
        assert(x.drop_last() =~= decimal(a / 10));
        assert(y.drop_last() =~= decimal(b / 10));
        decimal_is_injective(a / 10, b / 10);
    }
}

proof fn lemma_decimal_len(n: nat)
    ensures
        n < 10 ==> decimal(n).len() == 1,
        n >= 10 ==> decimal(n).len() >= 2,
    decreases n,
{
    if n >= 10 {
        lemma_decimal_len(n / 10);
    }
}

/// A separator of white space adds no ink to the texts that are joined.
pub proof fn joining_adds_no_ink(parts: Seq<Seq<char>>, separator: Seq<char>)
    requires
        is_blank(separator),
    ensures
        ink(joined(parts, separator)) == all_ink(parts),
    decreases parts.len(),
{
    if parts.len() == 0 {
        assert(joined(parts, separator) =~= Seq::<char>::empty());
        blank_texts_have_no_ink(joined(parts, separator));
    } else if parts.len() == 1 {
        assert(parts.drop_last() =~= Seq::<Seq<char>>::empty());
        assert(all_ink(parts.drop_last()) =~= Seq::<char>::empty());
        assert(all_ink(parts) =~= ink(parts[0]));
    } else {
        let before = joined(parts.drop_last(), separator);
        joining_adds_no_ink(parts.drop_last(), separator);
        joining_joins_the_ink(before + separator, parts.last());
        joining_joins_the_ink(before, separator);
        blank_texts_have_no_ink(separator);
        assert(ink(before) + ink(separator) =~= ink(before));
    }
}

/// The texts that are not empty, with a blank between two of them.
pub open spec fn joined_shown(parts: Seq<Seq<char>>) -> Seq<char> {
    joined(parts.filter(|t: Seq<char>| t.len() > 0), seq![' '])
}

/// A further text comes behind those that are joined, after a blank where both show something.
pub proof fn joining_one_more(parts: Seq<Seq<char>>, text: Seq<char>)
    ensures
        joined_shown(parts.push(text)) == if joined_shown(parts).len() > 0 && text.len() > 0 {
            joined_shown(parts) + seq![' '] + text
        } else {
            joined_shown(parts) + text
        },
        joined_shown(parts).is_prefix_of(joined_shown(parts.push(text))),
        joined_shown(seq![text]) == text,
{
    reveal(Seq::filter);
    let shown = |t: Seq<char>| t.len() > 0;
    let before = parts.filter(shown);
    assert(parts.push(text).drop_last() =~= parts);
    lemma_joined_shows(parts);
    if text.len() > 0 {
        assert(parts.push(text).filter(shown) == before.push(text));
        assert(before.push(text).drop_last() =~= before);
        if before.len() == 0 {
            assert(joined(before, seq![' ']) =~= Seq::empty());
            assert(Seq::<char>::empty() + text =~= text);
        }
    } else {
        assert(joined_shown(parts) + text =~= joined_shown(parts));
    }
    let one = seq![text];
    assert(one.drop_last() =~= Seq::<Seq<char>>::empty());
    assert(Seq::<Seq<char>>::empty().filter(shown) =~= Seq::<Seq<char>>::empty());
    if text.len() > 0 {
        assert(one.filter(shown) =~= seq![text]);
    } else {
        assert(one.filter(shown) =~= Seq::<Seq<char>>::empty());
        assert(joined_shown(one) =~= text);
    }
}

proof fn lemma_joined_shows(parts: Seq<Seq<char>>)
    ensures
        parts.filter(|t: Seq<char>| t.len() > 0).len() > 0 <==> joined_shown(parts).len() > 0,
    decreases parts.len(),
{
    reveal(Seq::filter);
    let shown = |t: Seq<char>| t.len() > 0;
    let all = parts.filter(shown);
    if parts.len() > 0 {
        let before = parts.drop_last().filter(shown);
        lemma_joined_shows(parts.drop_last());
        if parts.last().len() > 0 {
            assert(all == before.push(parts.last()));
            assert(all.drop_last() =~= before);
        }
    }
}

/// How often each character other than white space occurs in texts.
pub open spec fn ink_amounts(parts: Seq<Seq<char>>) -> Multiset<char> {
    all_ink(parts).to_multiset()
}

/// How often each character other than white space occurs in rows of texts.
pub open spec fn row_amounts(rows: Seq<Seq<Seq<char>>>) -> Multiset<char>
    decreases rows.len(),
{
    if rows.len() == 0 {
        Multiset::empty()
    } else {
        row_amounts(rows.drop_last()).add(ink_amounts(rows.last()))
    }
}

/// The characters of two rows are those of both.
pub proof fn amounts_add_up(s: Seq<Seq<char>>, t: Seq<Seq<char>>)
    ensures
        ink_amounts(s + t) == ink_amounts(s).add(ink_amounts(t)),
{
    joining_rows_joins_the_ink(s, t);
    vstd::seq_lib::lemma_multiset_commutative(all_ink(s), all_ink(t));
}

/// A text put behind another one in a row, with white space or nothing between, adds its
/// characters to those of the row.
pub proof fn appending_adds_the_ink(
    parts: Seq<Seq<char>>,
    k: int,
    between: Seq<char>,
    text: Seq<char>,
)
    requires
        0 <= k < parts.len(),
        is_blank(between),
    ensures
        ink_amounts(parts.update(k, parts[k] + between + text)) == ink_amounts(parts).add(
            ink_amounts(seq![text]),
        ),
{
    let new = parts[k] + between + text;
    let (low, high) = (parts.take(k), parts.skip(k + 1));
    assert(parts =~= low + (seq![parts[k]] + high));
    assert(parts.update(k, new) =~= low + (seq![new] + high));
    amounts_add_up(low, seq![parts[k]] + high);
    amounts_add_up(low, seq![new] + high);
    amounts_add_up(seq![parts[k]], high);
    amounts_add_up(seq![new], high);
    joining_joins_the_ink(parts[k] + between, text);
    joining_joins_the_ink(parts[k], between);
    blank_texts_have_no_ink(between);
    lemma_one_ink(parts[k]);
    lemma_one_ink(new);
    lemma_one_ink(text);
    assert(ink(parts[k]) + Seq::<char>::empty() =~= ink(parts[k]));
    vstd::seq_lib::lemma_multiset_commutative(ink(parts[k]), ink(text));
    assert(ink_amounts(parts.update(k, new)) =~= ink_amounts(parts).add(ink_amounts(seq![text])));
}

proof fn lemma_one_ink(text: Seq<char>)
    ensures
        all_ink(seq![text]) == ink(text),
{
    let one = seq![text];
    assert(one.drop_last() =~= Seq::<Seq<char>>::empty());
    assert(all_ink(one.drop_last()) =~= Seq::<char>::empty());
    assert(all_ink(one) =~= ink(text));
}

/// The characters of rows are those of the first rows and those of the others.
pub proof fn row_amounts_add_up(s: Seq<Seq<Seq<char>>>, t: Seq<Seq<Seq<char>>>)
    ensures
        row_amounts(s + t) == row_amounts(s).add(row_amounts(t)),
    decreases t.len(),
{
    if t.len() == 0 {
        assert(s + t =~= s);
        assert(row_amounts(s).add(row_amounts(t)) =~= row_amounts(s));
    } else {
        row_amounts_add_up(s, t.drop_last());
        assert((s + t).drop_last() =~= s + t.drop_last());
        assert(row_amounts(s + t) =~= row_amounts(s).add(row_amounts(t)));
    }
}

/// The characters of a single row.
pub proof fn single_row_amounts(row: Seq<Seq<char>>)
    ensures
        row_amounts(seq![row]) == ink_amounts(row),
{
    let one = seq![row];
    assert(one.drop_last() =~= Seq::<Seq<Seq<char>>>::empty());
    reveal_with_fuel(row_amounts, 2);
    assert(row_amounts(one) =~= ink_amounts(row));
}

/// Whether a text shows something at both ends and has single blanks alone as white space.
pub open spec fn is_tidy(s: Seq<char>) -> bool {
    &&& s.len() > 0
    &&& !is_space(s[0])
    &&& !is_space(s.last())
    &&& forall|i: int| 0 < i < s.len() && is_space(#[trigger] s[i]) ==> s[i] == ' ' && !is_space(s[i - 1])
}

/// Tidying a tidy text changes nothing.
pub proof fn tidy_texts_stay(s: Seq<char>)
    requires
        is_tidy(s),
    ensures
        trimmed(s) == s,
        collapsed(s) == s,
{
    assert(trimmed_start(s) == s);
    assert(trimmed_end(s) == s);
    lemma_collapsed_stays(s);
}

proof fn lemma_collapsed_stays(s: Seq<char>)
    requires
        s.len() > 0 ==> !is_space(s[0]),
        forall|i: int| 0 < i < s.len() && is_space(#[trigger] s[i]) ==> s[i] == ' ' && !is_space(s[i - 1]),
    ensures
        collapsed(s) == s,
    decreases s.len(),
{
    if s.len() > 0 {
        let d = s.drop_last();
        assert forall|i: int| 0 < i < d.len() && is_space(#[trigger] d[i]) implies d[i] == ' '
            && !is_space(d[i - 1]) by {
            assert(s[i] == d[i]);
        }
        lemma_collapsed_stays(d);
        let n = s.len() - 1;
        if is_space(s[n]) {
            assert(n > 0);
            assert(!is_space(s[n - 1]));
            assert(d.last() == s[n - 1]);
        }
        assert(d.push(s.last()) =~= s);
    }
}

/// Tidy texts with a blank between two of them are tidy.
pub proof fn joining_keeps_tidy(s: Seq<char>, t: Seq<char>)
    requires
        is_tidy(s),
        is_tidy(t),
    ensures
        is_tidy(s + seq![' '] + t),
{
    let r = s + seq![' '] + t;
    let n = s.len() as int;
    assert(r[0] == s[0]);
    assert(r.last() == t.last());
    assert forall|i: int| 0 < i < r.len() && is_space(#[trigger] r[i]) implies r[i] == ' '
        && !is_space(r[i - 1]) by {
        if i < n {
            assert(r[i] == s[i] && r[i - 1] == s[i - 1]);
        } else if i == n {
            assert(r[i - 1] == s.last());
        } else {
            assert(r[i] == t[i - n - 1]);
            if i > n + 1 {
                assert(r[i - 1] == t[i - n - 2]);
            }
        }
    }
}

/// Trimming takes white space off both ends and leaves what is between: what is left shows something
/// at both ends, and what was taken off shows nothing.
pub proof fn trimming_takes_the_blanks_at_both_ends(s: Seq<char>) -> (r: (Seq<char>, Seq<char>))
    ensures
        s == r.0 + trimmed(s) + r.1,
        is_blank(r.0),
        is_blank(r.1),
        trimmed(s).len() > 0 ==> !is_space(trimmed(s)[0]) && !is_space(trimmed(s).last()),
{
    let t = trimmed_start(s);
    let a = lemma_taken_start(s);
    let b = lemma_taken_end(t);
    assert(s =~= a + trimmed(s) + b);
    if trimmed(s).len() > 0 {
        assert(trimmed(s)[0] == t[0]);
    }
    (a, b)
}

proof fn lemma_taken_start(s: Seq<char>) -> (a: Seq<char>)
    ensures
        s == a + trimmed_start(s),
        is_blank(a),
        trimmed_start(s).len() > 0 ==> !is_space(trimmed_start(s)[0]),
    decreases s.len(),
{
    if s.len() > 0 && is_space(s[0]) {
        let b = lemma_taken_start(s.skip(1));
        let a = seq![s[0]] + b;
        assert(s =~= a + trimmed_start(s)) by {
            assert(s =~= seq![s[0]] + s.skip(1));
        }
        a
    } else {
        assert(s =~= Seq::<char>::empty() + s);
        Seq::empty()
    }
}

proof fn lemma_taken_end(s: Seq<char>) -> (b: Seq<char>)
    ensures
        s == trimmed_end(s) + b,
        is_blank(b),
        trimmed_end(s).len() > 0 ==> !is_space(trimmed_end(s).last()),
    decreases s.len(),
{
    if s.len() > 0 && is_space(s.last()) {
        let a = lemma_taken_end(s.drop_last());
        let b = a.push(s.last());
        assert(s =~= trimmed_end(s) + b) by {
            assert(s =~= s.drop_last().push(s.last()));
        }
        b
    } else {
        assert(s =~= s + Seq::<char>::empty());
        Seq::empty()
    }
}

/// Collapsing leaves single blanks alone as white space.
pub proof fn collapsing_leaves_single_blanks(s: Seq<char>, i: int)
    requires
        0 <= i < collapsed(s).len(),
        is_space(collapsed(s)[i]),
    ensures
        collapsed(s)[i] == ' ',
        i > 0 ==> !is_space(collapsed(s)[i - 1]),
    decreases s.len(),
{
    if s.len() > 0 {
        let d = s.drop_last();
        let before = collapsed(d);
        lemma_collapsed_last(d);
        if i < before.len() {
            collapsing_leaves_single_blanks(d, i);
        }
    }
}

proof fn lemma_collapsed_last(s: Seq<char>)
    ensures
        s.len() > 0 ==> collapsed(s).len() > 0 && is_space(collapsed(s).last()) == is_space(s.last()),
        s.len() == 0 ==> collapsed(s).len() == 0,
    decreases s.len(),
{
    if s.len() > 0 {
        lemma_collapsed_last(s.drop_last());
    }
}

/// The number that decimal digits stand for.
pub open spec fn number_of(s: Seq<char>) -> int
    decreases s.len(),
{
    if s.len() == 0 {
        0
    } else {
        10 * number_of(s.drop_last()) + (s.last() as int - '0' as int)
    }
}

/// The decimal form of a number stands for it, in digits, and starts with no zero but for zero
/// itself.
pub proof fn decimals_stand_for_their_number(n: nat)
    ensures
        number_of(decimal(n)) == n,
        decimal(n).len() > 0,
        forall|i: int| 0 <= i < decimal(n).len() ==> '0' <= #[trigger] decimal(n)[i] <= '9',
        n > 0 ==> decimal(n)[0] != '0',
    decreases n,
{
    if n >= 10 {
        decimals_stand_for_their_number(n / 10);
        assert(decimal(n).drop_last() =~= decimal(n / 10));
    } else {
        assert(decimal(n).drop_last() =~= Seq::<char>::empty());
        assert(number_of(decimal(n).drop_last()) == 0);
    }
}

} // verus!
