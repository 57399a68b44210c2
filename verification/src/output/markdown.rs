//! The markdown form of parsed pages.
use crate::config::ImageMode;
use crate::markdown_layout::blocks::Block;
use crate::text::join;
use crate::types::{OutlineTarget, ParsedPage};
use vstd::prelude::*;
use vstd::slice::*;
use vstd::string::*;

verus! {

/// The blocks without the rules that they start with.
pub open spec fn without_leading_rules(blocks: Seq<Block>) -> Seq<Block>
    decreases blocks.len(),
{
    if blocks.len() > 0 && blocks.first() is HorizontalRule {
        without_leading_rules(blocks.drop_first())
    } else {
        blocks
    }
}

/// The blocks without the rules that they end with.
pub open spec fn without_trailing_rules(blocks: Seq<Block>) -> Seq<Block>
    decreases blocks.len(),
{
    if blocks.len() > 0 && blocks.last() is HorizontalRule {
        without_trailing_rules(blocks.drop_last())
    } else {
        blocks
    }
}

/// The blocks with one rule for each run of rules.
pub open spec fn with_single_rules(blocks: Seq<Block>) -> Seq<Block>
    decreases blocks.len(),
{
    if blocks.len() == 0 {
        blocks
    } else {
        let before = with_single_rules(blocks.drop_last());
        if blocks.last() is HorizontalRule && blocks.len() > 1 && blocks[blocks.len() - 2] is HorizontalRule {
            before
        } else {
            before.push(blocks.last())
        }
    }
}

/// The blocks without the rules at either end, and with one rule for each run of rules.
pub open spec fn deduped(blocks: Seq<Block>) -> Seq<Block> {
    with_single_rules(without_trailing_rules(without_leading_rules(blocks)))
}

/// Whether a block is anything but a rule.
pub open spec fn is_not_rule(block: Block) -> bool {
    !(block is HorizontalRule)
}

/// The blocks that are no rules.
pub open spec fn other_blocks(blocks: Seq<Block>) -> Seq<Block> {
    blocks.filter(|block: Block| is_not_rule(block))
}

/// Whether the blocks hold anything but rules and figures.
pub open spec fn has_content(blocks: Seq<Block>) -> bool {
    exists|i: int|
        0 <= i < blocks.len() && !(#[trigger] blocks[i] is HorizontalRule) && !(blocks[i] is Figure)
}

/// The blocks that are rendered: a page without content has no rules.
pub open spec fn tidied(blocks: Seq<Block>) -> Seq<Block> {
    deduped(
        if has_content(blocks) {
            blocks
        } else {
            other_blocks(blocks)
        },
    )
}

/// Whether the blocks have no rule at either end and no two rules in a row.
pub open spec fn is_deduped(blocks: Seq<Block>) -> bool {
    &&& blocks.len() > 0 ==> !(blocks.first() is HorizontalRule) && !(blocks.last() is HorizontalRule)
    &&& no_double_rules(blocks)
}

/// Whether there are no two rules in a row.
pub open spec fn no_double_rules(blocks: Seq<Block>) -> bool {
    forall|i: int|
        0 < i < blocks.len() && #[trigger] blocks[i] is HorizontalRule ==> !(blocks[i
            - 1] is HorizontalRule)
}

proof fn lemma_leading(blocks: Seq<Block>)
    ensures
        ({
            let r = without_leading_rules(blocks);
            &&& r.len() > 0 ==> !(r.first() is HorizontalRule)
            &&& other_blocks(r) == other_blocks(blocks)
            &&& blocks.len() > 0 && !(blocks.first() is HorizontalRule) ==> r == blocks
        }),
    decreases blocks.len(),
{
    let f = |block: Block| is_not_rule(block);
    if blocks.len() > 0 && blocks.first() is HorizontalRule {
        lemma_leading(blocks.drop_first());
        let head = seq![blocks.first()];
        assert(blocks =~= head + blocks.drop_first());
        Seq::filter_distributes_over_add(head, blocks.drop_first(), f);
        assert(head.filter(f) =~= Seq::empty()) by {
            reveal_with_fuel(Seq::filter, 2);
            assert(!is_not_rule(head.last()));
            assert(head.drop_last().len() == 0);
        }
        assert(other_blocks(blocks) =~= other_blocks(blocks.drop_first()));
    }
}

proof fn lemma_trailing(blocks: Seq<Block>)
    ensures
        ({
            let r = without_trailing_rules(blocks);
            &&& r.len() > 0 ==> !(r.last() is HorizontalRule)
            &&& r.len() > 0 ==> r.first() == blocks.first()
            &&& other_blocks(r) == other_blocks(blocks)
        }),
    decreases blocks.len(),
{
    if blocks.len() > 0 && blocks.last() is HorizontalRule {
        lemma_trailing(blocks.drop_last());
        reveal(Seq::filter);
    }
}

proof fn lemma_single(blocks: Seq<Block>)
    ensures
        ({
            let r = with_single_rules(blocks);
            &&& r.len() <= blocks.len()
            &&& blocks.len() > 0 ==> r.len() > 0 && r.first() == blocks.first()
            &&& blocks.len() > 0 ==> (r.last() is HorizontalRule <==> blocks.last() is HorizontalRule)
            &&& blocks.len() > 0 && !(blocks.last() is HorizontalRule) ==> r.last() == blocks.last()
            &&& no_double_rules(r)
            &&& other_blocks(r) == other_blocks(blocks)
            &&& no_double_rules(blocks) ==> r == blocks
        }),
    decreases blocks.len(),
{
    if blocks.len() > 0 {
        let d = blocks.drop_last();
        lemma_single(d);
        let before = with_single_rules(d);
        let r = with_single_rules(blocks);
        reveal(Seq::filter);
        if d.len() > 0 {
            assert(d.last() == blocks[blocks.len() - 2]);
        }
        if r != before {
            assert(r.drop_last() =~= before);
        }
        if no_double_rules(blocks) {
            assert forall|i: int| 0 < i < d.len() && #[trigger] d[i] is HorizontalRule implies !(d[i
                - 1] is HorizontalRule) by {
                assert(blocks[i] is HorizontalRule);
            }
            assert(blocks.last() == blocks[blocks.len() - 1]);
            assert(r =~= blocks);
        }
    }
}

/// Deduplicated blocks have no rule at either end and no two rules in a row.
pub proof fn deduping_leaves_single_rules(blocks: Seq<Block>)
    ensures
        is_deduped(deduped(blocks)),
{
    let a = without_leading_rules(blocks);
    let b = without_trailing_rules(a);
    lemma_leading(blocks);
    lemma_trailing(a);
    lemma_single(b);
}

/// Deduplicating keeps every block that is no rule, in order.
pub proof fn deduping_keeps_other_blocks(blocks: Seq<Block>)
    ensures
        other_blocks(deduped(blocks)) == other_blocks(blocks),
{
    let a = without_leading_rules(blocks);
    let b = without_trailing_rules(a);
    lemma_leading(blocks);
    lemma_trailing(a);
    lemma_single(b);
}

/// Blocks that need no deduplication are left alone; so a second one changes nothing.
pub proof fn deduping_is_idempotent(blocks: Seq<Block>)
    ensures
        is_deduped(blocks) ==> deduped(blocks) == blocks,
        deduped(deduped(blocks)) == deduped(blocks),
{
    deduping_leaves_single_rules(blocks);
    lemma_single(blocks);
    lemma_single(deduped(blocks));
}

/// For each block that is no rule, whether a rule stands right before it. Between two such blocks
/// in a row there are only rules, so that this tells whether a rule stands between them.
pub open spec fn rules_before(blocks: Seq<Block>) -> Seq<bool>
    decreases blocks.len(),
{
    if blocks.len() == 0 {
        Seq::empty()
    } else {
        let before = rules_before(blocks.drop_last());
        if blocks.last() is HorizontalRule {
            before
        } else {
            before.push(blocks.len() > 1 && blocks[blocks.len() - 2] is HorizontalRule)
        }
    }
}

/// Whether two sequences are alike but for their first element.
spec fn alike_behind_first(a: Seq<bool>, b: Seq<bool>) -> bool {
    a.len() == b.len() && forall|k: int| 0 < k < a.len() ==> a[k] == #[trigger] b[k]
}

proof fn lemma_leading_gaps(blocks: Seq<Block>, n: nat)
    requires
        0 < n <= blocks.len(),
        blocks.first() is HorizontalRule,
    ensures
        alike_behind_first(
            rules_before(blocks.take(n as int)),
            rules_before(blocks.take(n as int).drop_first()),
        ),
    decreases n,
{
    let s = blocks.take(n as int);
    let t = s.drop_first();
    if n > 1 {
        lemma_leading_gaps(blocks, (n - 1) as nat);
        assert(s.drop_last() =~= blocks.take(n - 1));
        assert(t.drop_last() =~= blocks.take(n - 1).drop_first());
        let a = rules_before(s.drop_last());
        let b = rules_before(t.drop_last());
        if !(s.last() is HorizontalRule) {
            if a.len() > 0 {
                // A block that is no rule stands before, so the one before the last is kept.
                lemma_gaps_need_blocks(t.drop_last());
                assert(t.len() > 1);
                assert(t[t.len() - 2] == s[s.len() - 2]);
            }
            assert forall|k: int| 0 < k < rules_before(s).len() implies rules_before(s)[k]
                == #[trigger] rules_before(t)[k] by {
                if k < a.len() {
                    assert(a[k] == b[k]);
                }
            }
        }
    } else {
        assert(s.drop_last() =~= Seq::empty());
        assert(t =~= Seq::empty());
    }
}

proof fn lemma_gaps_need_blocks(blocks: Seq<Block>)
    ensures
        rules_before(blocks).len() == other_blocks(blocks).len(),
        rules_before(blocks).len() <= blocks.len(),
    decreases blocks.len(),
{
    reveal(Seq::filter);
    if blocks.len() > 0 {
        lemma_gaps_need_blocks(blocks.drop_last());
    }
}

proof fn lemma_without_leading_gaps(blocks: Seq<Block>)
    ensures
        alike_behind_first(rules_before(blocks), rules_before(without_leading_rules(blocks))),
    decreases blocks.len(),
{
    if blocks.len() > 0 && blocks.first() is HorizontalRule {
        assert(blocks.take(blocks.len() as int) =~= blocks);
        lemma_leading_gaps(blocks, blocks.len());
        let mid = rules_before(blocks.drop_first());
        lemma_without_leading_gaps(blocks.drop_first());
        let last = rules_before(without_leading_rules(blocks));
        assert forall|k: int| 0 < k < last.len() implies rules_before(blocks)[k]
            == #[trigger] last[k] by {
            assert(mid[k] == last[k]);
            assert(rules_before(blocks)[k] == mid[k]);
        }
    }
}

proof fn lemma_without_trailing_gaps(blocks: Seq<Block>)
    ensures
        rules_before(without_trailing_rules(blocks)) == rules_before(blocks),
    decreases blocks.len(),
{
    if blocks.len() > 0 && blocks.last() is HorizontalRule {
        lemma_without_trailing_gaps(blocks.drop_last());
    }
}

proof fn lemma_single_gaps(blocks: Seq<Block>)
    ensures
        rules_before(with_single_rules(blocks)) == rules_before(blocks),
    decreases blocks.len(),
{
    if blocks.len() > 0 {
        let d = blocks.drop_last();
        lemma_single_gaps(d);
        lemma_single(d);
        let before = with_single_rules(d);
        let r = with_single_rules(blocks);
        if d.len() > 0 {
            assert(d.last() == blocks[blocks.len() - 2]);
        }
        if r != before {
            assert(r.drop_last() =~= before);
            if before.len() > 0 {
                assert(r[r.len() - 2] == before.last());
            }
        }
    }
}

/// Deduplicating leaves a rule between two blocks if and only if there was one between them.
pub proof fn deduping_keeps_the_divisions(blocks: Seq<Block>)
    ensures
        rules_before(blocks).len() == other_blocks(blocks).len(),
        rules_before(deduped(blocks)).len() == rules_before(blocks).len(),
        forall|k: int|
            0 < k < rules_before(blocks).len() ==> #[trigger] rules_before(deduped(blocks))[k]
                == rules_before(blocks)[k],
{
    let a = without_leading_rules(blocks);
    let b = without_trailing_rules(a);
    lemma_gaps_need_blocks(blocks);
    lemma_without_leading_gaps(blocks);
    lemma_without_trailing_gaps(a);
    lemma_single_gaps(b);
}

/// Whether a block is a rule.
fn is_rule(block: &Block) -> (r: bool)
    ensures
        r == (*block is HorizontalRule),
{
    match block {
        Block::HorizontalRule => true,
        _ => false,
    }
}

/// Collapse cosmetic horizontal-rule noise on a single page's block stream:
/// drop leading/trailing rules (which would otherwise abut the `-----` page
/// separator) and collapse runs of consecutive rules to one. Rules come from
/// two sources — vector-graphics detection and decorative divider text — and
/// doubling up reads as sloppy output to a human, while carrying no extra
/// structure for an LLM.
pub fn dedupe_rules(blocks: &mut Vec<Block>)
    ensures
        final(blocks)@ == deduped(old(blocks)@),
{
    while blocks.len() > 0 && is_rule(&blocks[0])
        invariant
            without_leading_rules(blocks@) == without_leading_rules(old(blocks)@),
        decreases blocks@.len(),
    {
        assert(blocks@.drop_first() =~= blocks@.remove(0));
        blocks.remove(0);
    }
    let ghost a = without_leading_rules(old(blocks)@);
    assert(blocks@ == a);
    while blocks.len() > 0 && is_rule(&blocks[blocks.len() - 1])
        invariant
            without_trailing_rules(blocks@) == without_trailing_rules(a),
        decreases blocks@.len(),
    {
        blocks.pop();
    }
    let ghost b = without_trailing_rules(a);
    assert(blocks@ == b);
    let mut rest: Vec<Block> = Vec::new();
    std::mem::swap(&mut rest, blocks);
    let ghost mut done: int = 0;
    let mut after_rule: bool = false;
    while rest.len() > 0
        invariant
            0 <= done <= b.len(),
            rest@ == b.skip(done),
            blocks@ == with_single_rules(b.take(done)),
            after_rule == (done > 0 && b[done - 1] is HorizontalRule),
        decreases rest@.len(),
    {
        proof {
            let t = b.take(done + 1);
            assert(t.drop_last() =~= b.take(done));
            assert(b.skip(done)[0] == b[done]);
            assert(b.skip(done).remove(0) =~= b.skip(done + 1));
        }
        let block: Block = rest.remove(0);
        let rule: bool = is_rule(&block);
        if !(rule && after_rule) {
            blocks.push(block);
        }
        after_rule = rule;
        proof {
            done = done + 1;
        }
    }
    assert(b.take(done) =~= b);
}

/// Drops the rules of a page without content, and deduplicates those of another.
pub fn tidy_blocks(blocks: &mut Vec<Block>)
    ensures
        final(blocks)@ == tidied(old(blocks)@),
{
    let mut content: bool = false;
    let mut i: usize = 0;
    while i < blocks.len()
        invariant
            i <= blocks@.len(),
            blocks@ == old(blocks)@,
            content == has_content(blocks@.take(i as int)),
        decreases blocks@.len() - i,
    {
        let other: bool = match &blocks[i] {
            Block::HorizontalRule => false,
            Block::Figure { .. } => false,
            _ => true,
        };
        proof {
            let t = blocks@.take(i as int);
            let u = blocks@.take(i + 1);
            if other {
                assert(!(u[i as int] is HorizontalRule));
            }
            if has_content(t) {
                let k = choose|k: int|
                    0 <= k < t.len() && !(#[trigger] t[k] is HorizontalRule) && !(t[k] is Figure);
                assert(!(u[k] is HorizontalRule));
            }
            if has_content(u) && !other {
                let k = choose|k: int|
                    0 <= k < u.len() && !(#[trigger] u[k] is HorizontalRule) && !(u[k] is Figure);
                assert(!(t[k] is HorizontalRule));
            }
        }
        content = content || other;
        i = i + 1;
    }
    assert(blocks@.take(i as int) =~= blocks@);
    if !content {
        let ghost all = blocks@;
        let ghost f = |block: Block| is_not_rule(block);
        let mut rest: Vec<Block> = Vec::new();
        std::mem::swap(&mut rest, blocks);
        let ghost mut done: int = 0;
        assert(blocks@ =~= all.take(0).filter(f)) by {
            reveal(Seq::filter);
        }
        while rest.len() > 0
            invariant
                0 <= done <= all.len(),
                f == (|block: Block| is_not_rule(block)),
                rest@ == all.skip(done),
                blocks@ == all.take(done).filter(f),
            decreases rest@.len(),
        {
            proof {
                reveal(Seq::filter);
                assert(all.take(done + 1).drop_last() =~= all.take(done));
                assert(all.skip(done)[0] == all[done]);
                assert(all.skip(done).remove(0) =~= all.skip(done + 1));
            }
            let block: Block = rest.remove(0);
            if !is_rule(&block) {
                blocks.push(block);
            }
            proof {
                done = done + 1;
            }
        }
        assert(all.take(done) =~= all);
    }
    dedupe_rules(blocks);
}

/// The index of a page in the outline, from its number.
pub open spec fn outline_index(page_number: usize) -> i32 {
    let n = page_number as i32;
    if n == i32::MIN {
        i32::MIN
    } else {
        (n - 1) as i32
    }
}

/// The outline entries that point to a page.
pub open spec fn targets_on(outline: Seq<OutlineTarget>, page_number: usize) -> Seq<OutlineTarget> {
    outline.filter(|target: OutlineTarget| target.page_index == outline_index(page_number))
}

/// The outline entries that point to a page.
pub fn page_targets(outline: &[OutlineTarget], page_number: usize) -> (r: Vec<OutlineTarget>)
    ensures
        r@ == targets_on(outline@, page_number),
{
    let n: i32 = #[verifier::truncate]
    (page_number as i32);
    let index: i32 = if n == i32::MIN {
        i32::MIN
    } else {
        n - 1
    };
    let ghost f = |target: OutlineTarget| target.page_index == outline_index(page_number);
    let mut r: Vec<OutlineTarget> = Vec::new();
    let mut i: usize = 0;
    assert(r@ =~= outline@.take(0).filter(f)) by {
        reveal(Seq::filter);
    }
    while i < outline.len()
        invariant
            i <= outline@.len(),
            index == outline_index(page_number),
            f == (|target: OutlineTarget| target.page_index == outline_index(page_number)),
            r@ == outline@.take(i as int).filter(f),
        decreases outline@.len() - i,
    {
        proof {
            reveal(Seq::filter);
            assert(outline@.take(i + 1).drop_last() =~= outline@.take(i as int));
        }
        let target: &OutlineTarget = slice_index_get(outline, i);
        if target.page_index == index {
            r.push(target.clone());
        }
        i = i + 1;
    }
    assert(outline@.take(i as int) =~= outline@);
    r
}

/// A text in a fence.
pub open spec fn fenced(text: Seq<char>) -> Seq<char> {
    "```text\n"@ + text + (if text.len() > 0 && text.last() == '\n' {
        Seq::empty()
    } else {
        "\n"@
    }) + "```"@
}

/// A fence holds the text as it is.
pub proof fn fencing_keeps_the_text(text: Seq<char>)
    ensures
        fenced(text).len() >= text.len() + 8,
        fenced(text).subrange(8, 8 + text.len() as int) == text,
{
    reveal_strlit("```text\n");
    assert(fenced(text).subrange(8, 8 + text.len() as int) =~= text);
}

/// A text in a fence.
pub fn fence(text: &str) -> (r: String)
    ensures
        r@ == fenced(text@),
{
    let mut r: String = "```text\n".to_owned();
    r.append(text);
    let length: usize = text.unicode_len();
    let ends: bool = length > 0 && text.get_char(length - 1) == '\n';
    if !ends {
        r.append("\n");
    }
    r.append("```");
    assert(r@ =~= fenced(text@));
    r
}

/// Whether a text is what a page looks like in markdown. A page without lines is its text in a
/// fence. Any other page is classified into blocks, with the signals of the whole document and
/// with the outline entries that point to the page, and the blocks are tidied and rendered.
pub open spec fn is_section<D, C, R>(
    signals: D,
    page: ParsedPage,
    outline: Seq<OutlineTarget>,
    image_mode: ImageMode,
    classify: C,
    render: R,
    section: Seq<char>,
) -> bool where
    C: Fn(&D, &ParsedPage, &Vec<OutlineTarget>, ImageMode) -> Vec<Block>,
    R: Fn(&Vec<Block>) -> String,
 {
    if page.projected_lines@.len() == 0 {
        section == fenced(page.text@)
    } else {
        exists|targets: Vec<OutlineTarget>, blocks: Vec<Block>, kept: Vec<Block>, text: String|
            targets@ == targets_on(outline, page.page_number) && #[trigger] call_ensures(
                classify,
                (&signals, &page, &targets, image_mode),
                blocks,
            ) && kept@ == tidied(blocks@) && #[trigger] call_ensures(render, (&kept,), text)
                && section == text@
    }
}

/// Whether texts are what the pages look like in markdown, in order, with the same signals for
/// all of them.
pub open spec fn sections_of<D, C, R>(
    signals: D,
    pages: Seq<ParsedPage>,
    outline: Seq<OutlineTarget>,
    image_mode: ImageMode,
    classify: C,
    render: R,
    sections: Seq<Seq<char>>,
) -> bool where
    C: Fn(&D, &ParsedPage, &Vec<OutlineTarget>, ImageMode) -> Vec<Block>,
    R: Fn(&Vec<Block>) -> String,
 {
    &&& sections.len() == pages.len()
    &&& forall|k: int|
        0 <= k < pages.len() ==> is_section(
            signals,
            pages[k],
            outline,
            image_mode,
            classify,
            render,
            #[trigger] sections[k],
        )
}

/// Whether signals are what `prepare` makes of all the pages of a document.
pub open spec fn are_signals<D, P>(pages: Seq<ParsedPage>, prepare: P, signals: D) -> bool where
    P: Fn(&[ParsedPage]) -> D,
 {
    exists|all: &[ParsedPage]| all@ == pages && #[trigger] call_ensures(prepare, (all,), signals)
}

/// Whether a text is the markdown form of the pages: nothing for no pages, and otherwise the
/// pages in order with a separator between two of them, each classified with the signals that
/// all the pages give.
pub open spec fn is_markdown<D, P, C, R>(
    pages: Seq<ParsedPage>,
    outline: Seq<OutlineTarget>,
    image_mode: ImageMode,
    prepare: P,
    classify: C,
    render: R,
    text: Seq<char>,
) -> bool where
    P: Fn(&[ParsedPage]) -> D,
    C: Fn(&D, &ParsedPage, &Vec<OutlineTarget>, ImageMode) -> Vec<Block>,
    R: Fn(&Vec<Block>) -> String,
 {
    if pages.len() == 0 {
        text.len() == 0
    } else {
        exists|signals: D, sections: Seq<Seq<char>>|
            {
                &&& #[trigger] are_signals(pages, prepare, signals)
                &&& #[trigger] sections_of(
                    signals,
                    pages,
                    outline,
                    image_mode,
                    classify,
                    render,
                    sections,
                )
                &&& text == crate::text::joined(sections, "\n\n-----\n\n"@)
            }
    }
}

/// Format one page as markdown.
fn format_page<D, C, R>(
    signals: &D,
    page: &ParsedPage,
    outline: &[OutlineTarget],
    image_mode: ImageMode,
    classify: &C,
    render: &R,
) -> (r: String) where
    C: Fn(&D, &ParsedPage, &Vec<OutlineTarget>, ImageMode) -> Vec<Block>,
    R: Fn(&Vec<Block>) -> String,

    requires
        forall|d: &D, p: &ParsedPage, o: &Vec<OutlineTarget>, m: ImageMode|
            call_requires(*classify, (d, p, o, m)),
        forall|b: &Vec<Block>| call_requires(*render, (b,)),
    ensures
        is_section(*signals, *page, outline@, image_mode, *classify, *render, r@),
{
    if page.projected_lines.len() == 0 {
        return fence(page.text.as_str());
    }
    let targets: Vec<OutlineTarget> = page_targets(outline, page.page_number);
    let mut blocks: Vec<Block> = classify(signals, page, &targets, image_mode);
    let ghost classified = blocks;
    tidy_blocks(&mut blocks);
    let text: String = render(&blocks);
    proof {
        assert(call_ensures(*classify, (signals, page, &targets, image_mode), classified));
        assert(call_ensures(*render, (&blocks,), text));
    }
    text
}

/// Format parsed pages as markdown.
///
/// Whole-document signals (such as the body font size, the heading levels and the repeating
/// headers and footers) are computed once up front by `prepare`, then each page is classified
/// into blocks by `classify`, with these signals, and rendered by `render`.
///
/// Pages are emitted in order, separated by `\n\n-----\n\n`.
/// Pages that contain no projected lines (e.g. blank
/// or fully-OCR pages without font-size info) fall back to the projected text
/// wrapped in a fenced block so we never silently drop content.
pub fn format_markdown<D, P, C, R>(
    pages: &[ParsedPage],
    outline: &[OutlineTarget],
    image_mode: ImageMode,
    prepare: P,
    classify: C,
    render: R,
) -> (r: String) where
    P: Fn(&[ParsedPage]) -> D,
    C: Fn(&D, &ParsedPage, &Vec<OutlineTarget>, ImageMode) -> Vec<Block>,
    R: Fn(&Vec<Block>) -> String,

    requires
        forall|all: &[ParsedPage]| call_requires(prepare, (all,)),
        forall|d: &D, p: &ParsedPage, o: &Vec<OutlineTarget>, m: ImageMode|
            call_requires(classify, (d, p, o, m)),
        forall|b: &Vec<Block>| call_requires(render, (b,)),
    ensures
        is_markdown(pages@, outline@, image_mode, prepare, classify, render, r@),
{
    if pages.len() == 0 {
        return String::new();
    }
    let signals: D = prepare(pages);
    assert(call_ensures(prepare, (pages,), signals));
    let mut sections: Vec<String> = Vec::new();
    let mut i: usize = 0;
    while i < pages.len()
        invariant
            i <= pages@.len(),
            sections@.len() == i,
            forall|d: &D, p: &ParsedPage, o: &Vec<OutlineTarget>, m: ImageMode|
                call_requires(classify, (d, p, o, m)),
            forall|b: &Vec<Block>| call_requires(render, (b,)),
            forall|k: int|
                0 <= k < i ==> is_section(
                    signals,
                    pages@[k],
                    outline@,
                    image_mode,
                    classify,
                    render,
                    (#[trigger] sections@[k])@,
                ),
        decreases pages@.len() - i,
    {
        sections.push(
            format_page(
                &signals,
                slice_index_get(pages, i),
                outline,
                image_mode,
                &classify,
                &render,
            ),
        );
        i = i + 1;
    }
    let text: String = join(&sections, "\n\n-----\n\n");
    assert(are_signals(pages@, prepare, signals));
    assert(sections_of(
        signals,
        pages@,
        outline@,
        image_mode,
        classify,
        render,
        crate::text::texts(sections@),
    ));
    text
}

/// A page that shows something besides figures keeps the rules between its blocks, a single one for
/// each run; a page of figures and rules alone keeps its figures and no rule.
pub proof fn pages_without_content_have_no_rules(blocks: Seq<Block>)
    ensures
        other_blocks(tidied(blocks)) == other_blocks(blocks),
        (exists|i: int|
            0 <= i < blocks.len() && !(#[trigger] blocks[i] is HorizontalRule)
                && !(blocks[i] is Figure)) ==> tidied(blocks) == deduped(blocks),
        (forall|i: int|
            0 <= i < blocks.len() ==> #[trigger] blocks[i] is HorizontalRule
                || blocks[i] is Figure) ==> tidied(blocks) == other_blocks(blocks) && forall|i: int|
            0 <= i < tidied(blocks).len() ==> !(#[trigger] tidied(blocks)[i] is HorizontalRule),
{
    let f = |block: Block| is_not_rule(block);
    let kept = other_blocks(blocks);
    assert forall|i: int| 0 <= i < kept.len() implies !(#[trigger] kept[i] is HorizontalRule) by {
        blocks.lemma_filter_pred(f, i);
    }
    assert(is_deduped(kept));
    deduping_is_idempotent(kept);
    deduping_keeps_other_blocks(blocks);
    deduping_keeps_other_blocks(kept);
    if !has_content(blocks) {
        lemma_all_kept(kept);
    }
}

proof fn lemma_all_kept(blocks: Seq<Block>)
    requires
        forall|i: int| 0 <= i < blocks.len() ==> !(#[trigger] blocks[i] is HorizontalRule),
    ensures
        other_blocks(blocks) == blocks,
    decreases blocks.len(),
{
    reveal(Seq::filter);
    if blocks.len() > 0 {
        let d = blocks.drop_last();
        assert forall|i: int| 0 <= i < d.len() implies !(#[trigger] d[i] is HorizontalRule) by {
            assert(blocks[i] == d[i]);
        }
        lemma_all_kept(d);
        assert(is_not_rule(blocks[blocks.len() - 1]));
        assert(other_blocks(blocks) =~= blocks);
    } else {
        assert(other_blocks(blocks) =~= blocks);
    }
}

/// The outline entries of a page are those that point to it, where entries count pages from zero.
pub proof fn outline_entries_belong_to_their_page(
    outline: Seq<OutlineTarget>,
    page_number: usize,
    k: int,
)
    requires
        0 < page_number <= i32::MAX,
        0 <= k < outline.len(),
    ensures
        targets_on(outline, page_number).contains(outline[k]) <==> outline[k].page_index
            == page_number - 1,
{
    let f = |target: OutlineTarget| target.page_index == outline_index(page_number);
    let on = targets_on(outline, page_number);
    if f(outline[k]) {
        outline.lemma_filter_contains(f, k);
    }
    if on.contains(outline[k]) {
        let i = choose|i: int| 0 <= i < on.len() && on[i] == outline[k];
        outline.lemma_filter_pred(f, i);
    }
}

/// A fence opens on a line of its own and closes on a line of its own, with the text between.
pub proof fn fences_stand_on_their_own_lines(text: Seq<char>)
    ensures
        "```text\n"@.is_prefix_of(fenced(text)),
        fenced(text).len() >= 12,
        fenced(text).skip(fenced(text).len() - 4) == "\n```"@,
        fenced(text).len() <= text.len() + 12,
{
    reveal_strlit("```text\n");
    reveal_strlit("\n");
    reveal_strlit("```");
    reveal_strlit("\n```");
    let r = fenced(text);
    let n = r.len() as int;
    assert(r[n - 4] == '\n' && r[n - 3] == '`' && r[n - 2] == '`' && r[n - 1] == '`') by {
        if text.len() > 0 && text.last() == '\n' {
            assert(r[n - 4] == text.last());
        }
    }
    assert(r.skip(n - 4) =~= "\n```"@);
}

} // verus!
