//! What edits do to the directory tree.
use vstd::prelude::*;

use crate::block::BlockView;
use crate::document::{
    deepened, depth_below, depth_shift, end_without, inserted, matches_within, new_heading,
    place_below, pruned, pruned_first, removed, renamed, reparented, relocated, retitled, MAX_DEPTH,
};
use crate::grafting::{
    deeper_up_to, grafted, lemma_graft_level, lemma_moved_sections, lemma_sections_without,
    lemma_split_sections, seen_through,
};
use crate::inode::section_names;
use crate::mount::lemma_child_index;
use crate::names::{slug, unique};
use crate::outline::{
    law_every_heading_is_a_directory, lemma_closing_heading_first, lemma_next_heading_first,
    lemma_outside, lemma_placed, lemma_root_end, lemma_section_form, occurs, well_placed,
};
use crate::reflow::reflowed;
use crate::section::{body_start, child_index, next_heading, sections, tree_of, SectionView};
use crate::shifting::{alike, all_shifted, contents, law_splice_keeps_all_other_blocks};

verus! {

/// The blocks of a splice, apart from where they stand.
pub proof fn lemma_spliced_content(
    bs: Seq<BlockView>,
    start: int,
    end: int,
    new: Seq<BlockView>,
    j: int,
)
    requires
        0 <= start <= end <= bs.len(),
        0 <= j < reflowed(bs, start, end, new).len(),
    ensures
        reflowed(bs, start, end, new).len() == bs.len() - (end - start) + new.len(),
        reflowed(bs, start, end, new)[j].content == (if j < start {
            bs[j].content
        } else if j < start + new.len() {
            new[j - start].content
        } else {
            bs[j - new.len() + (end - start)].content
        }),
{
    law_splice_keeps_all_other_blocks(bs, start, end, new);
    let after = reflowed(bs, start, end, new);
    let c = contents(after);
    assert(c.len() == after.len());
    assert(c[j] == after[j].content);
    let left = contents(bs.take(start));
    let right = contents(bs.skip(end));
    if j < start {
        assert(c[j] == left[j]);
    } else if j < start + new.len() {
        assert(c[j] == contents(new)[j - start]);
    } else {
        assert(c[j] == right[j - start - new.len()]);
    }
}

/// How many blocks there are after a splice.
pub proof fn lemma_splice_len(bs: Seq<BlockView>, start: int, end: int, new: Seq<BlockView>)
    requires
        0 <= start <= end <= bs.len(),
    ensures
        reflowed(bs, start, end, new).len() == bs.len() - (end - start) + new.len(),
{
    law_splice_keeps_all_other_blocks(bs, start, end, new);
    assert(contents(reflowed(bs, start, end, new)).len() == reflowed(bs, start, end, new).len());
}

/// Whether `s` has the `k`-th subdirectory for the heading at `at`, named after its title and told
/// apart from the subdirectories before it.
pub open spec fn child_at(bs: Seq<BlockView>, s: SectionView, k: int, at: int) -> bool {
    &&& 0 <= k < s.children.len()
    &&& s.children[k].heading == Some(at)
    &&& s.children[k].name == unique(
        section_names(s.children.take(k)).to_set(),
        bs[at].title(),
    )
    &&& s.children[k].depth == bs[at].depth()
    &&& s.children[k].start == at + 1
    &&& s.children[k].end == next_heading(bs, at + 1)
}

/// Whether the subdirectories of `s` are those of `parent` and one more, which is the `k`-th and whose
/// heading is at `at`: those before it stay as they are, and those behind it move on by one block.
pub open spec fn one_more_child(parent: SectionView, s: SectionView, k: int, at: int) -> bool {
    &&& 0 <= k <= parent.children.len()
    &&& s.children.len() == parent.children.len() + 1
    &&& s.children.take(k) == parent.children.take(k)
    &&& s.children.skip(k + 1) == all_shifted(parent.children.skip(k), at, 1)
    &&& s.children[k].heading == Some(at)
}

/// Where the subdirectories of a section stand.
pub proof fn lemma_children_range(bs: Seq<BlockView>, s: SectionView) -> (to: int)
    requires
        occurs(tree_of(bs).root, s),
    ensures
        s.children == sections(bs, s.start, to, Set::empty()),
        s.start <= s.end <= to <= bs.len(),
        s.heading is None ==> to == bs.len() && s == tree_of(bs).root,
        s.heading is Some ==> to == s.subtree_end() && well_placed(bs, s) && body_start(bs)
            <= s.heading->0,
{
    lemma_next_heading_first(bs, body_start(bs));
    if s == tree_of(bs).root {
        bs.len() as int
    } else {
        lemma_placed(bs, s);
        lemma_section_form(bs, s);
        s.subtree_end()
    }
}

/// The blocks after a heading was inserted.
pub proof fn lemma_inserted_grafts(bs: Seq<BlockView>, parent: SectionView, name: Seq<char>)
    requires
        occurs(tree_of(bs).root, parent),
        inserted(bs, parent, name) is Ok,
    ensures
        ({
            let depth = depth_below(parent);
            let at = place_below(bs, parent.end, depth);
            let after = inserted(bs, parent, name)->Ok_0;
            &&& parent.end <= at <= bs.len()
            &&& grafted(bs, after, at, 1, depth)
            &&& deeper_up_to(bs, parent.start, at, depth)
            &&& after[at].content == new_heading(depth, name).content
            &&& body_start(after) == body_start(bs)
        }),
{
    let depth = depth_below(parent);
    let at = place_below(bs, parent.end, depth);
    let new = seq![new_heading(depth, name)];
    let after = inserted(bs, parent, name)->Ok_0;
    let first = lemma_parent_place(bs, parent);
    lemma_closing_heading_first(bs, parent.end, bs.len() as int, depth);
    lemma_splice_len(bs, at, at, new);
    lemma_spliced_content(bs, at, at, new, at);
    assert forall|j: int| 0 <= j < at implies alike(#[trigger] bs[j], after[j]) by {
        lemma_spliced_content(bs, at, at, new, j);
    }
    assert forall|j: int| at <= j < bs.len() implies alike(#[trigger] bs[j], after[j + 1]) by {
        lemma_spliced_content(bs, at, at, new, j + 1);
    }
    if at > 0 {
        lemma_spliced_content(bs, at, at, new, 0);
    }
}

/// An inserted heading is an empty subdirectory of its parent, in which all others stay, under their
/// names and with all that is below them.
pub proof fn law_inserted_heading_is_one_more_subdirectory(
    bs: Seq<BlockView>,
    parent: SectionView,
    name: Seq<char>,
)
    requires
        occurs(tree_of(bs).root, parent),
        inserted(bs, parent, name) is Ok,
        child_index(parent.children, slug(name)) is None,
    ensures
        ({
            let after = inserted(bs, parent, name)->Ok_0;
            let at = place_below(bs, parent.end, depth_below(parent));
            exists|s: SectionView, k: int|
                #![trigger occurs(tree_of(after).root, s), one_more_child(parent, s, k, at)]
                {
                    &&& occurs(tree_of(after).root, s)
                    &&& s.heading == parent.heading
                    &&& one_more_child(parent, s, k, at)
                    &&& s.children[k].name == slug(name)
                    &&& s.children[k].depth == parent.depth + 1
                    &&& s.children[k].start == s.children[k].end
                    &&& s.children[k].children.len() == 0
                }
        }),
{
    let depth = depth_below(parent);
    let at = place_below(bs, parent.end, depth);
    let after = inserted(bs, parent, name)->Ok_0;
    let root2 = tree_of(after).root;
    lemma_inserted_grafts(bs, parent, name);
    let to = lemma_children_range(bs, parent);
    lemma_closing_heading_first(bs, parent.end, bs.len() as int, depth);
    let first = lemma_parent_place(bs, parent);
    let s = match parent.heading {
        None => root2,
        Some(i) => {
            assert(alike(bs[i], after[i]));
            law_every_heading_is_a_directory(after, i);
            choose|s: SectionView| #[trigger] occurs(root2, s) && s.heading == Some(i)
        },
    };
    assert(occurs(root2, root2));
    let to2 = lemma_children_range(after, s);
    assert(at <= to);
    if parent.heading is Some {
        let i = parent.heading->0;
        assert(alike(bs[i], after[i]));
        if to < bs.len() {
            assert(alike(bs[to], after[to + 1]));
        }
        if to2 < to + 1 {
            if to2 < at {
                assert(alike(bs[to2], after[to2]));
            } else if to2 > at {
                assert(alike(bs[to2 - 1], after[to2 - 1 + 1]));
            }
            assert(false);
        }
        assert(to2 == to + 1);
    }
    let none = Set::<Seq<char>>::empty();
    let pre = sections(bs, first, at, none);
    let seen = seen_through(none, pre);
    let post = sections(bs, at, to, seen);
    lemma_split_sections(bs, first, at, to, depth, none);
    lemma_graft_level(bs, after, at, 1, depth, first, to + 1, none);
    assert(parent.children == pre + post);
    lemma_child_index(parent.children, slug(name));
    assert(!section_names(pre).contains(slug(name))) by {
        if section_names(pre).contains(slug(name)) {
            let j = choose|j: int|
                0 <= j < section_names(pre).len() && section_names(pre)[j] == slug(name);
            assert(parent.children[j].name == slug(name));
        }
    }
    assert(!section_names(post).contains(slug(name))) by {
        if section_names(post).contains(slug(name)) {
            let j = choose|j: int|
                0 <= j < section_names(post).len() && section_names(post)[j] == slug(name);
            assert(parent.children[pre.len() + j].name == slug(name));
        }
    }
    assert(unique(seen, name) == slug(name));
    vstd::seq_lib::seq_to_set_is_finite(section_names(pre));
    lemma_sections_without(bs, at, to, seen, slug(name));
    lemma_moved_sections(bs, after, at, 1, depth, at, to, seen.insert(slug(name)));
    let k = pre.len() as int;
    assert(s.children.take(k) =~= parent.children.take(k));
    assert(parent.children.skip(k) =~= post);
    assert(s.children.skip(k + 1) =~= all_shifted(post, at, 1));
    assert(next_heading(after, at + 1) == at + 1) by {
        if at < bs.len() {
            assert(alike(bs[at], after[at + 1]));
        }
    }
    assert(one_more_child(parent, s, k, at));
}

/// Where the own content of a section begins: from there to its end no block is a heading, and it
/// ends at a heading or at the end of the document.
pub proof fn lemma_parent_place(bs: Seq<BlockView>, parent: SectionView) -> (first: int)
    requires
        occurs(tree_of(bs).root, parent),
    ensures
        body_start(bs) <= first <= parent.end <= bs.len(),
        first == parent.start,
        forall|j: int| first <= j < parent.end ==> !(#[trigger] bs[j]).is_heading(),
        parent.end < bs.len() ==> bs[parent.end].is_heading(),
        match parent.heading {
            None => first == body_start(bs) && parent == tree_of(bs).root,
            Some(i) => {
                &&& body_start(bs) <= i
                &&& first == i + 1
                &&& bs[i].is_heading()
                &&& bs[i].depth() == parent.depth
            },
        },
{
    if parent == tree_of(bs).root {
        lemma_next_heading_first(bs, body_start(bs));
        body_start(bs)
    } else {
        lemma_placed(bs, parent);
        lemma_next_heading_first(bs, parent.heading->0 + 1);
        parent.heading->0 + 1
    }
}

/// Inserting a heading and taking it out again leaves all blocks as they were, apart from where they
/// stand.
pub proof fn law_insert_then_remove_restores_the_document(
    bs: Seq<BlockView>,
    parent: SectionView,
    name: Seq<char>,
    section: SectionView,
)
    requires
        0 <= parent.end <= bs.len(),
        inserted(bs, parent, name) is Ok,
        section.heading == Some(place_below(bs, parent.end, depth_below(parent))),
        section.removable(),
    ensures
        removed(inserted(bs, parent, name)->Ok_0, section) is Ok,
        contents(removed(inserted(bs, parent, name)->Ok_0, section)->Ok_0) == contents(bs),
{
    let at = place_below(bs, parent.end, depth_below(parent));
    lemma_closing_heading_first(bs, parent.end, bs.len() as int, depth_below(parent));
    let new = seq![new_heading(depth_below(parent), name)];
    let with = inserted(bs, parent, name)->Ok_0;
    let after = removed(with, section)->Ok_0;
    lemma_splice_len(bs, at, at, new);
    lemma_splice_len(with, at, at + 1, Seq::empty());
    assert forall|j: int| 0 <= j < bs.len() implies contents(after)[j] == contents(bs)[j] by {
        lemma_spliced_content(with, at, at + 1, Seq::empty(), j);
        if j < at {
            lemma_spliced_content(bs, at, at, new, j);
        } else {
            lemma_spliced_content(bs, at, at, new, j + 1);
        }
    }
    assert(contents(after) =~= contents(bs));
}

/// Renaming a section changes one title and nothing else, not even a position.
pub proof fn law_rename_changes_one_title(bs: Seq<BlockView>, section: SectionView, name: Seq<char>)
    requires
        section.heading is Some,
        0 <= section.heading->0 < bs.len(),
        bs[section.heading->0].is_heading(),
    ensures
        ({
            let i = section.heading->0;
            let after = renamed(bs, section, name)->Ok_0;
            &&& renamed(bs, section, name) is Ok
            &&& after.len() == bs.len()
            &&& after[i].is_heading() && after[i].title() == name && after[i].depth()
                == bs[i].depth() && after[i].span == bs[i].span
            &&& forall|j: int| 0 <= j < bs.len() && j != i ==> #[trigger] after[j] == bs[j]
        }),
{
}

/// Where the heading of `parent` is once the subtree of `section` is put below it.
pub open spec fn parent_after_move(section: SectionView, parent: SectionView) -> Option<int> {
    match parent.heading {
        None => None,
        Some(i) => if i < section.heading->0 {
            Some(i)
        } else {
            Some(i - (section.subtree_end() - section.heading->0))
        },
    }
}

/// The blocks after `start..end` was taken out and `new` was put in at `at`, apart from where they
/// stand.
pub(crate) proof fn lemma_moved_content(
    bs: Seq<BlockView>,
    start: int,
    end: int,
    at: int,
    new: Seq<BlockView>,
    j: int,
)
    requires
        0 <= start <= end <= bs.len(),
        new.len() == end - start,
        0 <= at <= bs.len() - (end - start),
        0 <= j < bs.len(),
    ensures
        ({
            let count = end - start;
            let rest = reflowed(bs, start, end, Seq::empty());
            let after = reflowed(rest, at, at, new);
            let k = if j < at {
                j
            } else {
                j - count
            };
            &&& after.len() == bs.len()
            &&& after[j].content == (if at <= j < at + count {
                new[j - at].content
            } else if k < start {
                bs[k].content
            } else {
                bs[k + count].content
            })
        }),
{
    let count = end - start;
    let rest = reflowed(bs, start, end, Seq::empty());
    lemma_splice_len(bs, start, end, Seq::empty());
    lemma_splice_len(rest, at, at, new);
    lemma_spliced_content(rest, at, at, new, j);
    if j < at {
        lemma_spliced_content(bs, start, end, Seq::empty(), j);
    } else if j >= at + count {
        lemma_spliced_content(bs, start, end, Seq::empty(), j - count);
    }
}

/// Where the own content of its new parent ends once a subtree is taken out, and how far the parent
/// moves then.
pub(crate) proof fn lemma_move_target(bs: Seq<BlockView>, section: SectionView, parent: SectionView) -> (r: (
    int,
    int,
))
    requires
        occurs(tree_of(bs).root, section),
        section.heading is Some,
        occurs(tree_of(bs).root, parent),
        parent.heading is Some ==> !(section.heading->0 <= parent.heading->0
            < section.subtree_end()),
    ensures
        ({
            let (at, d) = r;
            let start = section.heading->0;
            let end = section.subtree_end();
            &&& at == parent.end - d
            &&& at == end_without(section, parent)
            &&& (d == 0 && parent.end <= start) || (d == end - start && parent.start >= end
                && parent.end >= end)
            &&& body_start(bs) <= start < end <= bs.len()
            &&& body_start(bs) <= parent.start - d <= at <= bs.len() - (end - start)
            &&& match parent.heading {
                Some(i) => body_start(bs) <= i && parent.start == i + 1 && parent_after_move(
                    section,
                    parent,
                ) == Some(i - d) && (d > 0 ==> i >= end),
                None => d == 0,
            }
        }),
{
    let start = section.heading->0;
    let end = section.subtree_end();
    lemma_placed(bs, section);
    lemma_outside(bs, section, parent);
    let first = lemma_parent_place(bs, parent);
    lemma_root_end(bs, start);
    if parent.end <= start {
        (parent.end, 0)
    } else {
        assert(parent.heading is Some);
        let i = parent.heading->0;
        assert(i >= end) by {
            if i < start {
                assert(bs[start].is_heading());
            }
        }
        (parent.end - (end - start), end - start)
    }
}

/// A move keeps the front matter where it is.
proof fn lemma_move_keeps_front_matter(
    bs: Seq<BlockView>,
    start: int,
    end: int,
    at: int,
    new: Seq<BlockView>,
)
    requires
        body_start(bs) <= start < end <= bs.len(),
        body_start(bs) <= at <= bs.len() - (end - start),
        new.len() == end - start,
        bs[start].is_heading(),
        new[0].is_heading(),
        end < bs.len() ==> bs[end].is_heading(),
    ensures
        body_start(reflowed(reflowed(bs, start, end, Seq::empty()), at, at, new)) == body_start(bs),
{
    lemma_moved_content(bs, start, end, at, new, 0);
}

/// The blocks after a section was moved.
#[verifier::spinoff_prover]
pub(crate) proof fn lemma_moved_grafts(
    bs: Seq<BlockView>,
    section: SectionView,
    parent: SectionView,
    name: Seq<char>,
) -> (r: (int, int))
    requires
        occurs(tree_of(bs).root, section),
        occurs(tree_of(bs).root, parent),
        reparented(bs, section, parent, name) is Ok,
    ensures
        ({
            let (at, d) = r;
            let start = section.heading->0;
            let end = section.subtree_end();
            let count = end - start;
            let depth = depth_below(parent);
            let rest = reflowed(bs, start, end, Seq::empty());
            let after = reparented(bs, section, parent, name)->Ok_0;
            &&& count > 0
            &&& depth == parent.depth + 1
            &&& body_start(after) == body_start(bs)
            &&& grafted(rest, after, at, count, depth)
            &&& deeper_up_to(rest, parent.start - d, at, depth)
            &&& after[at].title() == name
            &&& at == place_below(rest, end_without(section, parent), depth)
            &&& forall|j: int|
                at <= j < at + count && (#[trigger] after[j]).is_heading() ==> parent.depth
                    < after[j].depth() <= MAX_DEPTH
            &&& match parent.heading {
                Some(i) => body_start(bs) <= i - d < at && parent_after_move(section, parent)
                    == Some(i - d) && alike(bs[i], after[i - d]),
                None => d == 0,
            }
        }),
{
    let start = section.heading->0;
    let end = section.subtree_end();
    let count = end - start;
    let depth = depth_below(parent);
    let new = relocated(bs.subrange(start, end), depth_shift(section, parent), name);
    let rest = reflowed(bs, start, end, Seq::empty());
    let after = reparented(bs, section, parent, name)->Ok_0;
    lemma_placed(bs, section);
    let (end0, d) = lemma_move_target(bs, section, parent);
    lemma_splice_len(bs, start, end, Seq::empty());
    lemma_closing_heading_first(rest, end0, rest.len() as int, depth);
    let at = place_below(rest, end0, depth);
    assert(after == reflowed(rest, at, at, new));
    lemma_moved_headings(bs, section, parent, name, at, after);
    lemma_move_keeps_front_matter(bs, start, end, at, new);
    let first = lemma_parent_place(bs, parent);
    assert forall|j: int| 0 <= j < at implies alike(#[trigger] rest[j], after[j]) by {
        lemma_spliced_content(rest, at, at, new, j);
    }
    assert forall|j: int| at <= j < rest.len() implies alike(#[trigger] rest[j], after[j + count]) by {
        lemma_spliced_content(rest, at, at, new, j + count);
    }
    assert forall|j: int| first - d <= j < end0 implies !(#[trigger] rest[j]).is_heading() by {
        lemma_spliced_content(bs, start, end, Seq::empty(), j);
        assert(rest[j].content == bs[j + d].content);
    }
    if parent.heading is Some {
        let i = parent.heading->0;
        lemma_spliced_content(bs, start, end, Seq::empty(), i - d);
        assert(rest[i - d].content == bs[i].content);
        assert(alike(rest[i - d], after[i - d]));
    }
    (at, d)
}

/// The directory for a moved section, and where its heading stands: the `r.1`-th subdirectory of `r.0`,
/// at `r.2`.
pub(crate) proof fn lemma_moved_child(
    bs: Seq<BlockView>,
    section: SectionView,
    parent: SectionView,
    name: Seq<char>,
) -> (r: (SectionView, int, int))
    requires
        occurs(tree_of(bs).root, section),
        occurs(tree_of(bs).root, parent),
        reparented(bs, section, parent, name) is Ok,
    ensures
        ({
            let (s, k, at) = r;
            let after = reparented(bs, section, parent, name)->Ok_0;
            let rest = reflowed(bs, section.heading->0, section.subtree_end(), Seq::empty());
            let count = section.subtree_end() - section.heading->0;
            &&& occurs(tree_of(after).root, s)
            &&& s.heading == parent_after_move(section, parent)
            &&& 0 <= at <= at + count <= after.len()
            &&& after[at].is_heading()
            &&& after[at].title() == name
            &&& after[at].depth() == parent.depth + 1
            &&& child_at(after, s, k, at)
            &&& s.children.take(k) == sections(rest, s.start, at, Set::empty())
            &&& deeper_up_to(rest, s.start, at, depth_below(parent))
            &&& s.children[k].children == sections(after, at + 1, at + count, Set::empty())
            &&& at == place_below(rest, end_without(section, parent), depth_below(parent))
            &&& forall|j: int|
                at <= j < at + count && (#[trigger] after[j]).is_heading() ==> parent.depth
                    < after[j].depth() <= MAX_DEPTH
        }),
{
    let start = section.heading->0;
    let end = section.subtree_end();
    let count = end - start;
    let depth = depth_below(parent);
    let rest = reflowed(bs, start, end, Seq::empty());
    let after = reparented(bs, section, parent, name)->Ok_0;
    let root2 = tree_of(after).root;
    let (at, d) = lemma_moved_grafts(bs, section, parent, name);
    let first = lemma_parent_place(bs, parent);
    let s = match parent.heading {
        None => root2,
        Some(i) => {
            law_every_heading_is_a_directory(after, i - d);
            choose|s: SectionView| #[trigger] occurs(root2, s) && s.heading == Some(i - d)
        },
    };
    assert(occurs(root2, root2));
    let to2 = lemma_children_range(after, s);
    if parent.heading is Some {
        if to2 < at + count {
            if to2 < at {
                assert(alike(rest[to2], after[to2]));
            }
            assert(false);
        }
    }
    let none = Set::<Seq<char>>::empty();
    lemma_graft_level(rest, after, at, count, depth, first - d, to2, none);
    let pre = sections(rest, first - d, at, none);
    let k = pre.len() as int;
    assert(s.children.take(k) =~= pre);
    assert(seen_through(none, pre) =~= section_names(pre).to_set());
    assert(child_at(after, s, k, at));
    (s, k, at)
}

/// A moved section is a subdirectory of its new parent, under its new name; its headings are directly
/// below the parent, and none is deeper than Markdown can express.
pub proof fn law_moved_section_is_a_subdirectory(
    bs: Seq<BlockView>,
    section: SectionView,
    parent: SectionView,
    name: Seq<char>,
)
    requires
        occurs(tree_of(bs).root, section),
        occurs(tree_of(bs).root, parent),
        reparented(bs, section, parent, name) is Ok,
    ensures
        ({
            let after = reparented(bs, section, parent, name)->Ok_0;
            let count = section.subtree_end() - section.heading->0;
            exists|s: SectionView, k: int, at: int|
                #![trigger occurs(tree_of(after).root, s), child_at(after, s, k, at)]
                {
                    &&& occurs(tree_of(after).root, s)
                    &&& s.heading == parent_after_move(section, parent)
                    &&& 0 <= at <= at + count <= after.len()
                    &&& after[at].is_heading()
                    &&& after[at].title() == name
                    &&& after[at].depth() == parent.depth + 1
                    &&& child_at(after, s, k, at)
                    &&& s.children[k].children == sections(after, at + 1, at + count, Set::empty())
                    &&& forall|j: int|
                        at <= j < at + count && (#[trigger] after[j]).is_heading() ==> parent.depth
                            < after[j].depth() <= MAX_DEPTH
                }
        }),
{
    let (s, k, at) = lemma_moved_child(bs, section, parent, name);
    assert(child_at(reparented(bs, section, parent, name)->Ok_0, s, k, at));
}

/// The headings of a moved subtree.
proof fn lemma_moved_headings(
    bs: Seq<BlockView>,
    section: SectionView,
    parent: SectionView,
    name: Seq<char>,
    at: int,
    after: Seq<BlockView>,
)
    requires
        well_placed(bs, section),
        section.max_depth() + depth_shift(section, parent) <= MAX_DEPTH,
        0 <= at <= bs.len() - (section.subtree_end() - section.heading->0),
        after == reflowed(
            reflowed(bs, section.heading->0, section.subtree_end(), Seq::empty()),
            at,
            at,
            relocated(
                bs.subrange(section.heading->0, section.subtree_end()),
                depth_shift(section, parent),
                name,
            ),
        ),
    ensures
        after.len() == bs.len(),
        after[at].is_heading(),
        after[at].title() == name,
        after[at].depth() == parent.depth + 1,
        relocated(
            bs.subrange(section.heading->0, section.subtree_end()),
            depth_shift(section, parent),
            name,
        )[0].is_heading(),
        forall|j: int|
            at <= j < at + section.subtree_end() - section.heading->0 && (
            #[trigger] after[j]).is_heading() ==> parent.depth < after[j].depth() <= MAX_DEPTH && (j
                > at ==> parent.depth + 1 < after[j].depth()),
{
    let start = section.heading->0;
    let end = section.subtree_end();
    let shift = depth_shift(section, parent);
    let taken = bs.subrange(start, end);
    let new = relocated(taken, shift, name);
    lemma_moved_content(bs, start, end, at, new, at);
    assert(taken[0] == bs[start]);
    assert(new[0] == retitled(deepened(bs[start], shift), name));
    assert forall|j: int|
        at <= j < at + end - start && (#[trigger] after[j]).is_heading() implies parent.depth
        < after[j].depth() <= MAX_DEPTH && (j > at ==> parent.depth + 1 < after[j].depth()) by {
        lemma_moved_content(bs, start, end, at, new, j);
        assert(taken[j - at] == bs[start + (j - at)]);
        lemma_relocated_depth(bs, section, parent, name, j - at);
    }
}

proof fn lemma_relocated_depth(
    bs: Seq<BlockView>,
    section: SectionView,
    parent: SectionView,
    name: Seq<char>,
    k: int,
)
    requires
        well_placed(bs, section),
        section.max_depth() + depth_shift(section, parent) <= MAX_DEPTH,
        0 <= k < section.subtree_end() - section.heading->0,
        bs[section.heading->0 + k].is_heading(),
    ensures
        ({
            let taken = bs.subrange(section.heading->0, section.subtree_end());
            let new = relocated(taken, depth_shift(section, parent), name);
            &&& new[k].is_heading()
            &&& parent.depth < new[k].depth() <= MAX_DEPTH
            &&& k > 0 ==> parent.depth + 1 < new[k].depth()
        }),
{
    let taken = bs.subrange(section.heading->0, section.subtree_end());
    assert(taken[k] == bs[section.heading->0 + k]);
}

/// A move changes no block but the headings that it moves, apart from where they all stand: what was
/// before, between and behind stays in its order.
pub proof fn law_move_keeps_all_other_blocks(
    bs: Seq<BlockView>,
    section: SectionView,
    parent: SectionView,
    name: Seq<char>,
)
    requires
        occurs(tree_of(bs).root, section),
        occurs(tree_of(bs).root, parent),
        reparented(bs, section, parent, name) is Ok,
    ensures
        ({
            let after = reparented(bs, section, parent, name)->Ok_0;
            let start = section.heading->0;
            let end = section.subtree_end();
            let moved = relocated(bs.subrange(start, end), depth_shift(section, parent), name);
            let others = contents(bs.take(start)) + contents(bs.skip(end));
            let rest = reflowed(bs, start, end, Seq::empty());
            let at = place_below(rest, end_without(section, parent), depth_below(parent));
            contents(after) == others.take(at) + contents(moved) + others.skip(at)
        }),
{
    let start = section.heading->0;
    let end = section.subtree_end();
    let count = end - start;
    let new = relocated(bs.subrange(start, end), depth_shift(section, parent), name);
    let after = reparented(bs, section, parent, name)->Ok_0;
    lemma_placed(bs, section);
    let (end0, d) = lemma_move_target(bs, section, parent);
    let rest = reflowed(bs, start, end, Seq::empty());
    lemma_splice_len(bs, start, end, Seq::empty());
    lemma_closing_heading_first(rest, end0, rest.len() as int, depth_below(parent));
    let at = place_below(rest, end0, depth_below(parent));
    let others = contents(bs.take(start)) + contents(bs.skip(end));
    let target = others.take(at) + contents(new) + others.skip(at);
    lemma_moved_content(bs, start, end, at, new, start);
    assert forall|j: int| 0 <= j < bs.len() implies contents(after)[j] == target[j] by {
        lemma_moved_content(bs, start, end, at, new, j);
        if j < at {
            assert(target[j] == others[j]);
        } else if j < at + count {
            assert(target[j] == contents(new)[j - at]);
        } else {
            assert(target[j] == others[j - count]);
        }
    }
    assert(contents(after) =~= target);
}

/// Whether a section is shown: its heading is to be kept, or one below it.
pub open spec fn shown_below(s: SectionView, keep: Seq<bool>, x: SectionView) -> bool {
    exists|y: SectionView| #[trigger]
        occurs(s, y) && x == pruned(y, keep) && (y == s || matches_within(y, keep))
}

/// Nothing is shown but sections whose heading is to be kept, and those on the way to one.
pub proof fn law_filter_shows_nothing_else(s: SectionView, keep: Seq<bool>, x: SectionView)
    requires
        occurs(pruned(s, keep), x),
    ensures
        shown_below(s, keep, x),
    decreases s, s.children.len() + 1,
{
    if x == pruned(s, keep) {
        assert(occurs(s, s));
    } else {
        let p = pruned(s, keep);
        let k = choose|k: int| 0 <= k < p.children.len() && occurs(#[trigger] p.children[k], x);
        lemma_filter_first(s, s.children.len(), keep, k, x);
    }
}

proof fn lemma_filter_first(s: SectionView, n: nat, keep: Seq<bool>, k: int, x: SectionView)
    requires
        n <= s.children.len(),
        0 <= k < pruned_first(s, n, keep).len(),
        occurs(pruned_first(s, n, keep)[k], x),
    ensures
        shown_below(s, keep, x),
    decreases s, n,
{
    let child = s.children[n - 1];
    let before = pruned_first(s, (n - 1) as nat, keep);
    if k < before.len() {
        lemma_filter_first(s, (n - 1) as nat, keep, k, x);
    } else {
        assert(matches_within(child, keep));
        assert(pruned_first(s, n, keep)[k] == pruned(child, keep));
        law_filter_shows_nothing_else(child, keep, x);
        let y = choose|y: SectionView| #[trigger]
            occurs(child, y) && x == pruned(y, keep) && (y == child || matches_within(y, keep));
        assert(occurs(s, y));
        assert(matches_within(y, keep));
    }
}

/// Every section whose heading is to be kept is shown, and so are the sections above it.
pub proof fn law_filter_shows_matches_and_their_ancestors(
    s: SectionView,
    keep: Seq<bool>,
    y: SectionView,
)
    requires
        occurs(s, y),
        matches_within(y, keep),
    ensures
        matches_within(s, keep),
        occurs(pruned(s, keep), pruned(y, keep)),
    decreases s,
{
    if y != s {
        let k = choose|k: int| 0 <= k < s.children.len() && occurs(#[trigger] s.children[k], y);
        law_filter_shows_matches_and_their_ancestors(s.children[k], keep, y);
        let l = lemma_filter_has(s, s.children.len(), keep, k);
        let p = pruned(s, keep);
        assert(p.children[l] == pruned(s.children[k], keep));
        assert(occurs(p.children[l], pruned(y, keep)));
    }
}

proof fn lemma_filter_has(s: SectionView, n: nat, keep: Seq<bool>, k: int) -> (l: int)
    requires
        n <= s.children.len(),
        0 <= k < n,
        matches_within(s.children[k], keep),
    ensures
        0 <= l < pruned_first(s, n, keep).len(),
        pruned_first(s, n, keep)[l] == pruned(s.children[k], keep),
    decreases n,
{
    let before = pruned_first(s, (n - 1) as nat, keep);
    if k == n - 1 {
        before.len() as int
    } else {
        lemma_filter_has(s, (n - 1) as nat, keep, k)
    }
}

} // verus!
