//! Writing a section's content and reading the document again. What the parser makes of a text that
//! the renderer wrote is theirs to say; here it is taken to be the blocks that were rendered.
use vstd::prelude::*;

use crate::block::{parsed, rendered, BlockView};
use crate::document::replaced;
use crate::editing::lemma_parent_place;
use crate::names::seen_after;
use crate::outline::occurs;
use crate::reflow::reflowed;
use crate::section::{
    body_start, closing_heading, lemma_closing_heading, next_heading, sections, tree_of, SectionView,
};
use crate::shifting::{
    alike, contents, law_replaced_content_leaves_the_tree, law_splice_keeps_all_other_blocks,
    plain_content, shifted_tree,
};

verus! {

/// Whether `text` is read as the blocks `bs`, up to where they stand.
pub open spec fn reads_as(text: Seq<char>, bs: Seq<BlockView>) -> bool {
    parsed(text) is Ok && contents(parsed(text)->Ok_0) == contents(bs)
}

spec fn all_alike(bs: Seq<BlockView>, bs2: Seq<BlockView>) -> bool {
    &&& bs2.len() == bs.len()
    &&& forall|j: int| 0 <= j < bs.len() ==> alike(#[trigger] bs[j], bs2[j])
}

proof fn lemma_alike_closing(bs: Seq<BlockView>, bs2: Seq<BlockView>, x: int, to: int, depth: u8)
    requires
        all_alike(bs, bs2),
        0 <= x <= to <= bs.len(),
    ensures
        closing_heading(bs2, x, to, depth) == closing_heading(bs, x, to, depth),
    decreases to - x,
{
    if x < to {
        assert(alike(bs[x], bs2[x]));
        lemma_alike_closing(bs, bs2, x + 1, to, depth);
    }
}

proof fn lemma_alike_next(bs: Seq<BlockView>, bs2: Seq<BlockView>, x: int)
    requires
        all_alike(bs, bs2),
        0 <= x <= bs.len(),
    ensures
        next_heading(bs2, x) == next_heading(bs, x),
    decreases bs.len() - x,
{
    if x < bs.len() {
        assert(alike(bs[x], bs2[x]));
        lemma_alike_next(bs, bs2, x + 1);
    }
}

proof fn lemma_alike_sections(
    bs: Seq<BlockView>,
    bs2: Seq<BlockView>,
    x: int,
    to: int,
    seen: Set<Seq<char>>,
)
    requires
        all_alike(bs, bs2),
        0 <= x <= to <= bs.len(),
    ensures
        sections(bs2, x, to, seen) == sections(bs, x, to, seen),
    decreases to - x,
{
    if x < to {
        assert(alike(bs[x], bs2[x]));
        if !bs[x].is_heading() {
            lemma_alike_sections(bs, bs2, x + 1, to, seen);
        } else {
            let end = closing_heading(bs, x + 1, to, bs[x].depth());
            lemma_closing_heading(bs, x + 1, to, bs[x].depth());
            lemma_alike_closing(bs, bs2, x + 1, to, bs[x].depth());
            lemma_alike_next(bs, bs2, x + 1);
            lemma_alike_sections(bs, bs2, x + 1, end, Set::empty());
            lemma_alike_sections(bs, bs2, end, to, seen_after(seen, bs[x].title()));
        }
    }
}

/// The directory tree does not depend on where the blocks stand.
pub proof fn law_tree_goes_by_contents(bs: Seq<BlockView>, bs2: Seq<BlockView>)
    requires
        contents(bs2) == contents(bs),
    ensures
        tree_of(bs2) == tree_of(bs),
{
    assert(contents(bs).len() == bs.len() && contents(bs2).len() == bs2.len());
    assert forall|j: int| 0 <= j < bs.len() implies alike(#[trigger] bs[j], bs2[j]) by {
        assert(contents(bs)[j] == bs[j].content);
        assert(contents(bs2)[j] == bs2[j].content);
    }
    if bs.len() > 0 {
        assert(contents(bs)[0] == bs[0].content);
        assert(contents(bs2)[0] == bs2[0].content);
    }
    lemma_alike_next(bs, bs2, body_start(bs));
    lemma_alike_sections(bs, bs2, body_start(bs), bs.len() as int, Set::empty());
}

/// Writing a section's own content back changes no block and no directory, where the content is read
/// as it was rendered.
pub proof fn law_own_content_written_back_changes_nothing(bs: Seq<BlockView>, s: SectionView)
    requires
        occurs(tree_of(bs).root, s),
        reads_as(rendered(bs.subrange(s.start, s.end)), bs.subrange(s.start, s.end)),
    ensures
        ({
            let outcome = replaced(bs, s.start, s.end, rendered(bs.subrange(s.start, s.end)));
            &&& outcome is Ok
            &&& contents(outcome->Ok_0) == contents(bs)
            &&& tree_of(outcome->Ok_0) == tree_of(bs)
        }),
{
    let first = lemma_parent_place(bs, s);
    let own = bs.subrange(s.start, s.end);
    let new = parsed(rendered(own))->Ok_0;
    let after = reflowed(bs, s.start, s.end, new);
    law_splice_keeps_all_other_blocks(bs, s.start, s.end, new);
    assert(contents(bs.take(s.start)) + contents(own) + contents(bs.skip(s.end)) =~= contents(bs));
    law_tree_goes_by_contents(bs, after);
}

/// A body without headings leaves the directories as they are, also once the document was saved and
/// read again, and the section then holds the body, where the document is read as it was rendered.
pub proof fn law_plain_body_is_read_again(bs: Seq<BlockView>, s: SectionView, body: Seq<char>)
    requires
        occurs(tree_of(bs).root, s),
        parsed(body) is Ok,
        plain_content(parsed(body)->Ok_0, s.start),
        ({
            let after = replaced(bs, s.start, s.end, body)->Ok_0;
            reads_as(rendered(after), after)
        }),
    ensures
        ({
            let new = parsed(body)->Ok_0;
            let after = replaced(bs, s.start, s.end, body)->Ok_0;
            let again = parsed(rendered(after))->Ok_0;
            let d = new.len() - (s.end - s.start);
            &&& replaced(bs, s.start, s.end, body) is Ok
            &&& tree_of(again) == shifted_tree(tree_of(bs), s.end, d)
            &&& contents(again).subrange(s.start, s.start + new.len()) == contents(new)
        }),
{
    let first = lemma_parent_place(bs, s);
    let new = parsed(body)->Ok_0;
    let after = reflowed(bs, s.start, s.end, new);
    law_replaced_content_leaves_the_tree(bs, s, new);
    law_tree_goes_by_contents(after, parsed(rendered(after))->Ok_0);
    assert(contents(after).subrange(s.start, s.start + new.len()) =~= contents(new));
}

} // verus!
