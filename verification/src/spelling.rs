//! What edits make of a document, block by block.
use vstd::prelude::*;

use crate::block::{text_node_of, BlockView, ContentView};
use crate::document::{
    deepened, depth_below, depth_shift, inserted, new_heading, place_below, removed, renamed,
    reparented, relocated, retitled, Refusal,
};
use crate::editing::{
    law_move_keeps_all_other_blocks, lemma_move_target, lemma_parent_place, lemma_splice_len,
};
use crate::mount::lemma_child_index;
use crate::naming::lemma_occurs_child;
use crate::outline::{
    lemma_closing_heading_first, lemma_next_heading_first, lemma_placed, lemma_section_form,
    lemma_sections_placed, occurs,
};
use crate::reflow::reflowed;
use crate::section::{child_index, tree_of, SectionView};
use crate::shifting::{contents, law_splice_keeps_all_other_blocks};

verus! {

/// Whether one of the sections is called `name`.
pub open spec fn has_child_named(parent: SectionView, name: Seq<char>) -> bool {
    exists|k: int| 0 <= k < parent.children.len() && (#[trigger] parent.children[k]).name == name
}

/// Whether `after` is `bs` with another title for the heading at `h`, which spells it as text; no
/// other block is changed.
pub open spec fn retitles(bs: Seq<BlockView>, after: Seq<BlockView>, h: int, name: Seq<char>) -> bool {
    &&& 0 <= h < bs.len()
    &&& after.len() == bs.len()
    &&& after[h].content == (ContentView::Heading {
        depth: bs[h].depth(),
        title: name,
        markup: seq![text_node_of(name)],
    })
    &&& after[h].span == bs[h].span
    &&& forall|j: int| 0 <= j < bs.len() && j != h ==> #[trigger] after[j] == bs[j]
}

/// Whether `after` is `bs` with one more heading, apart from where the blocks stand: it spells its
/// title as text, one level below `parent`, and is behind the own content of `parent` and the deeper
/// headings that follow there.
pub open spec fn gains_heading(
    bs: Seq<BlockView>,
    after: Seq<BlockView>,
    parent: SectionView,
    name: Seq<char>,
) -> bool {
    exists|at: int|
        #![trigger bs.take(at)]
        {
            &&& parent.end <= at <= bs.len()
            &&& contents(after) == contents(bs.take(at)) + seq![
                ContentView::Heading {
                    depth: (parent.depth + 1) as u8,
                    title: name,
                    markup: seq![text_node_of(name)],
                },
            ] + contents(bs.skip(at))
            &&& forall|j: int|
                parent.end <= j < at && (#[trigger] bs[j]).is_heading() ==> bs[j].depth()
                    > parent.depth + 1
            &&& at < bs.len() ==> bs[at].is_heading() && bs[at].depth() <= parent.depth + 1
        }
}

/// Whether nothing is below the heading at `h`: it is the last block, or a heading follows it that is
/// not deeper.
pub open spec fn is_empty_heading(bs: Seq<BlockView>, h: int) -> bool {
    h + 1 == bs.len() || (bs[h + 1].is_heading() && bs[h + 1].depth() <= bs[h].depth())
}

/// Renaming a section makes its heading spell the new title, as text, at the same depth and place. No
/// other block changes. Only a section without a heading cannot be renamed.
pub proof fn law_renamed_heading_spells_its_title(
    bs: Seq<BlockView>,
    section: SectionView,
    name: Seq<char>,
)
    requires
        section.heading is Some ==> 0 <= section.heading->0 < bs.len()
            && bs[section.heading->0].is_heading(),
    ensures
        match section.heading {
            None => renamed(bs, section, name) == Err::<Seq<BlockView>, Refusal>(
                Refusal::NotADirectory,
            ),
            Some(h) => {
                let after = renamed(bs, section, name)->Ok_0;
                renamed(bs, section, name) is Ok && retitles(bs, after, h, name)
            },
        },
{
}

/// A heading is inserted unless the section has a subdirectory of that name or is as deep as headings
/// go. It spells its title, as text, one level below the section, and stands behind the section's own
/// content and behind the deeper headings that follow there. Every other block stays as it is, in its
/// order.
pub proof fn law_inserted_heading_spells_its_title(
    bs: Seq<BlockView>,
    parent: SectionView,
    name: Seq<char>,
)
    requires
        occurs(tree_of(bs).root, parent),
    ensures
        has_child_named(parent, name) ==> inserted(bs, parent, name) == Err::<
            Seq<BlockView>,
            Refusal,
        >(Refusal::AlreadyExists(name)),
        !has_child_named(parent, name) && parent.depth >= 6 ==> inserted(bs, parent, name) == Err::<
            Seq<BlockView>,
            Refusal,
        >(Refusal::TooDeep),
        !has_child_named(parent, name) && parent.depth < 6 ==> {
            let after = inserted(bs, parent, name)->Ok_0;
            inserted(bs, parent, name) is Ok && gains_heading(bs, after, parent, name)
        },
{
    lemma_child_index(parent.children, name);
    let depth = depth_below(parent);
    let first = lemma_parent_place(bs, parent);
    if child_index(parent.children, name) is None && parent.depth < 6 {
        let at = place_below(bs, parent.end, depth);
        lemma_closing_heading_first(bs, parent.end, bs.len() as int, depth);
        let new = seq![new_heading(depth, name)];
        law_splice_keeps_all_other_blocks(bs, at, at, new);
        assert(contents(new) =~= seq![
            ContentView::Heading {
                depth: (parent.depth + 1) as u8,
                title: name,
                markup: seq![text_node_of(name)],
            },
        ]);
        assert(bs.take(at) == bs.take(at));
    }
}

/// A section is removed exactly if nothing is below its heading: the heading is the last block, or one
/// that is not deeper follows it. Its heading goes, and every other block stays as it is, in its order.
pub proof fn law_only_an_empty_heading_is_removed(bs: Seq<BlockView>, section: SectionView)
    requires
        occurs(tree_of(bs).root, section),
        section.heading is Some,
    ensures
        ({
            let h = section.heading->0;
            let empty = is_empty_heading(bs, h);
            &&& 0 <= h < bs.len()
            &&& !empty ==> removed(bs, section) == Err::<Seq<BlockView>, Refusal>(Refusal::NotEmpty)
            &&& empty ==> removed(bs, section) is Ok && contents(removed(bs, section)->Ok_0)
                == contents(bs.take(h)) + contents(bs.skip(h + 1))
        }),
{
    let h = section.heading->0;
    lemma_placed(bs, section);
    lemma_section_form(bs, section);
    lemma_next_heading_first(bs, h + 1);
    if section.removable() {
        reveal_with_fuel(SectionView::subtree_end, 2);
        assert(section.subtree_end() == h + 1);
        law_splice_keeps_all_other_blocks(bs, h, h + 1, Seq::empty());
        let none = contents(Seq::<BlockView>::empty());
        assert(contents(bs.take(h)) + none + contents(bs.skip(h + 1)) =~= contents(bs.take(h))
            + contents(bs.skip(h + 1)));
    } else if h + 1 < bs.len() && bs[h + 1].is_heading() && bs[h + 1].depth() <= bs[h].depth() {
        assert(section.end == h + 1);
        assert(section.subtree_end() > h + 1) by {
            let c = section.children.last();
            lemma_occurs_child(tree_of(bs).root, section, section.children.len() - 1);
            assert(c != tree_of(bs).root) by {
                assert(occurs(c, c));
                lemma_sections_placed(
                    bs,
                    h + 1,
                    section.subtree_end(),
                    Set::empty(),
                    section.children.len() - 1,
                    c,
                );
            }
            lemma_placed(bs, c);
            assert(occurs(c, c));
            lemma_sections_placed(
                bs,
                h + 1,
                section.subtree_end(),
                Set::empty(),
                section.children.len() - 1,
                c,
            );
        }
        assert(false);
    }
}

/// The root of a document is never removed.
pub proof fn law_the_root_is_not_removed(bs: Seq<BlockView>)
    ensures
        removed(bs, tree_of(bs).root) is Err,
        forall|name: Seq<char>| #[trigger]
            renamed(bs, tree_of(bs).root, name) == Err::<Seq<BlockView>, Refusal>(
                Refusal::NotADirectory,
            ),
{
}

/// The deepest heading of a section's subtree is one of the headings there.
proof fn lemma_deepest_heading(bs: Seq<BlockView>, s: SectionView) -> (j: int)
    requires
        occurs(tree_of(bs).root, s),
        s.heading is Some,
    ensures
        s.heading->0 <= j < s.subtree_end(),
        bs[j].is_heading(),
        bs[j].depth() == s.max_depth(),
    decreases s, s.children.len() + 1,
{
    lemma_placed(bs, s);
    lemma_deepest_of_first(bs, s, s.children.len())
}

proof fn lemma_deepest_of_first(bs: Seq<BlockView>, s: SectionView, n: nat) -> (j: int)
    requires
        occurs(tree_of(bs).root, s),
        s.heading is Some,
        n <= s.children.len(),
    ensures
        s.heading->0 <= j < s.subtree_end(),
        bs[j].is_heading(),
        bs[j].depth() == s.max_depth_of_first(n),
    decreases s, n,
{
    lemma_placed(bs, s);
    if n == 0 {
        s.heading->0
    } else {
        let before = lemma_deepest_of_first(bs, s, (n - 1) as nat);
        let c = s.children[n - 1];
        lemma_section_form(bs, s);
        assert(occurs(c, c));
        lemma_sections_placed(
            bs,
            s.heading->0 + 1,
            s.subtree_end(),
            Set::empty(),
            n - 1,
            c,
        );
        lemma_occurs_child(tree_of(bs).root, s, n - 1);
        let j = lemma_deepest_heading(bs, c);
        assert(c.subtree_end() <= s.subtree_end());
        if c.max_depth() > s.max_depth_of_first((n - 1) as nat) {
            j
        } else {
            before
        }
    }
}

/// What a block of a subtree is once it was moved: a heading is `shift` levels deeper and keeps its
/// title and its markup, anything else stays as it is.
pub open spec fn carried_along(before: ContentView, after: ContentView, shift: int) -> bool {
    match before {
        ContentView::Heading { depth, title, markup } => {
            &&& after is Heading
            &&& after->depth == depth + shift
            &&& after->title == title
            &&& after->markup == markup
        },
        _ => after == before,
    }
}

/// Where a subtree ends: behind its heading and all that follows it before the next heading that is
/// not deeper.
pub open spec fn ends_subtree(bs: Seq<BlockView>, start: int, end: int) -> bool {
    &&& 0 <= start < end <= bs.len()
    &&& forall|j: int|
        start < j < end && (#[trigger] bs[j]).is_heading() ==> bs[j].depth() > bs[start].depth()
    &&& end < bs.len() ==> bs[end].is_heading() && bs[end].depth() <= bs[start].depth()
}

/// Whether `after` is `bs` with the subtree `start..end` elsewhere, apart from where the blocks stand:
/// its blocks are, together and in their order, behind the own content of `parent` and the deeper
/// headings that follow there. Its first heading spells `name` as text, one level below `parent`; the
/// headings below it follow by as many levels and are otherwise as they were. Every other block is as
/// it was, in its order.
pub open spec fn moves_subtree(
    bs: Seq<BlockView>,
    after: Seq<BlockView>,
    start: int,
    end: int,
    parent: SectionView,
    name: Seq<char>,
) -> bool {
    let shift = parent.depth + 1 - bs[start].depth();
    let others = contents(bs.take(start)) + contents(bs.skip(end));
    let content_end = if parent.end <= start {
        parent.end
    } else {
        parent.end - (end - start)
    };
    exists|at: int, moved: Seq<ContentView>|
        #![trigger others.take(at), moved.len()]
        {
            &&& content_end <= at <= others.len()
            &&& contents(after) == others.take(at) + moved + others.skip(at)
            &&& moved.len() == end - start
            &&& moved[0] == (ContentView::Heading {
                depth: (parent.depth + 1) as u8,
                title: name,
                markup: seq![text_node_of(name)],
            })
            &&& forall|i: int|
                0 < i < end - start ==> carried_along(
                    bs[start + i].content,
                    #[trigger] moved[i],
                    shift,
                )
            &&& forall|j: int|
                content_end <= j < at && (#[trigger] others[j]) is Heading ==> others[j]->depth
                    > parent.depth + 1
            &&& at < others.len() ==> others[at] is Heading && others[at]->depth <= parent.depth + 1
        }
}

/// Whether some heading in `start..end` would be deeper than headings go if they all were `shift`
/// levels deeper.
pub open spec fn gets_too_deep(bs: Seq<BlockView>, start: int, end: int, shift: int) -> bool {
    exists|j: int|
        start <= j < end && (#[trigger] bs[j]).is_heading() && bs[j].depth() + shift > 6
}

/// What moving a section does. It is refused where the new parent has a subdirectory of the new name,
/// where the new parent is the section itself or below it, and where some heading of the section would
/// be deeper than headings go, in this order. Otherwise the blocks of the section go, together and in
/// their order, behind the own content of the new parent and behind the deeper headings that follow
/// there. The heading of the section spells the new title, as text, one level below the new parent;
/// the headings below it follow by as many levels and are otherwise as they were. Every other block
/// stays as it is, in its order.
pub proof fn law_moved_heading_spells_its_title(
    bs: Seq<BlockView>,
    section: SectionView,
    parent: SectionView,
    name: Seq<char>,
    end: int,
)
    requires
        occurs(tree_of(bs).root, section),
        section.heading is Some,
        occurs(tree_of(bs).root, parent),
        ends_subtree(bs, section.heading->0, end),
    ensures
        ({
            let start = section.heading->0;
            let shift = parent.depth + 1 - bs[start].depth();
            let exists_already = has_child_named(parent, name);
            let cycle = parent.heading is Some && start <= parent.heading->0 < end;
            let too_deep = gets_too_deep(bs, start, end, shift);
            let r = reparented(bs, section, parent, name);
            let after = r->Ok_0;
            &&& exists_already ==> r == Err::<Seq<BlockView>, Refusal>(Refusal::AlreadyExists(name))
            &&& !exists_already && cycle ==> r == Err::<Seq<BlockView>, Refusal>(
                Refusal::WouldCreateCycle,
            )
            &&& !exists_already && !cycle && too_deep ==> r == Err::<Seq<BlockView>, Refusal>(
                Refusal::TooDeep,
            )
            &&& !exists_already && !cycle && !too_deep ==> r is Ok && moves_subtree(
                bs,
                after,
                start,
                end,
                parent,
                name,
            )
        }),
{
    let start = section.heading->0;
    lemma_placed(bs, section);
    assert(end == section.subtree_end()) by {
        let e = section.subtree_end();
        if e < end {
            assert(bs[e].is_heading());
        } else if end < e {
            assert(bs[end].is_heading());
        }
    }
    lemma_child_index(parent.children, name);
    let shift = parent.depth + 1 - bs[start].depth();
    assert(shift == depth_shift(section, parent));
    let deepest = lemma_deepest_heading(bs, section);
    let cycle = parent.heading is Some && start <= parent.heading->0 < end;
    if child_index(parent.children, name) is None && !cycle {
        if section.max_depth() + shift > 6 {
            assert(bs[deepest].is_heading() && bs[deepest].depth() + shift > 6);
        } else {
            assert forall|j: int|
                start <= j < end && (#[trigger] bs[j]).is_heading() implies bs[j].depth() + shift
                <= 6 by {}
            lemma_moved_block_by_block(bs, section, parent, name);
        }
    }
}

proof fn lemma_moved_block_by_block(
    bs: Seq<BlockView>,
    section: SectionView,
    parent: SectionView,
    name: Seq<char>,
)
    requires
        occurs(tree_of(bs).root, section),
        section.heading is Some,
        occurs(tree_of(bs).root, parent),
        reparented(bs, section, parent, name) is Ok,
    ensures
        moves_subtree(
            bs,
            reparented(bs, section, parent, name)->Ok_0,
            section.heading->0,
            section.subtree_end(),
            parent,
            name,
        ),
{
    let start = section.heading->0;
    let end = section.subtree_end();
    let shift = depth_shift(section, parent);
    let depth = depth_below(parent);
    lemma_placed(bs, section);
    let taken = bs.subrange(start, end);
    let new = relocated(taken, shift, name);
    let moved = contents(new);
    let others = contents(bs.take(start)) + contents(bs.skip(end));
    let rest = reflowed(bs, start, end, Seq::empty());
    let (end0, d) = lemma_move_target(bs, section, parent);
    law_splice_keeps_all_other_blocks(bs, start, end, Seq::empty());
    lemma_splice_len(bs, start, end, Seq::empty());
    let none = contents(Seq::<BlockView>::empty());
    assert(contents(rest) =~= others) by {
        assert(contents(bs.take(start)) + none + contents(bs.skip(end)) =~= others);
    }
    lemma_closing_heading_first(rest, end0, rest.len() as int, depth);
    let at = place_below(rest, end0, depth);
    law_move_keeps_all_other_blocks(bs, section, parent, name);
    assert(taken[0] == bs[start]);
    assert(moved[0] == retitled(deepened(bs[start], shift), name).content);
    assert forall|i: int| 0 < i < end - start implies carried_along(
        bs[start + i].content,
        #[trigger] moved[i],
        shift,
    ) by {
        assert(taken[i] == bs[start + i]);
        assert(moved[i] == deepened(taken[i], shift).content);
    }
    assert forall|j: int| 0 <= j < rest.len() implies #[trigger] others[j] == rest[j].content by {
        assert(contents(rest)[j] == rest[j].content);
    }
    assert forall|j: int| end0 <= j < at && (#[trigger] others[j]) is Heading implies others[j]->depth
        > parent.depth + 1 by {
        assert(others[j] == rest[j].content);
        assert(rest[j].is_heading());
    }
    if at < others.len() {
        assert(others[at] == rest[at].content);
    }
    assert(others.take(at) + moved + others.skip(at) == contents(
        reparented(bs, section, parent, name)->Ok_0,
    ));
}

} // verus!
