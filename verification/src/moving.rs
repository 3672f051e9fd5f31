//! A section that is moved is found where it was moved to.
use vstd::prelude::*;

use crate::block::{text_node_of, BlockView, ContentView};
use crate::document::{deepened, depth_below, depth_shift, relocated, reparented, retitled};
use crate::editing::{
    child_at, lemma_children_range, lemma_move_target, lemma_moved_child, lemma_moved_content,
    lemma_moved_grafts, lemma_parent_place, lemma_splice_len, lemma_spliced_content,
    parent_after_move,
};
use crate::fs::lemma_found_child;
use crate::grafting::{
    deeper_up_to, grafted, lemma_moved_sections, lemma_same_sections, lemma_split_sections,
};
use crate::inode::section_names;
use crate::making::law_changes_behind_a_heading_keep_its_path;
use crate::mount::{lemma_child_index, lemma_found_occurs};
use crate::names::{law_a_name_is_not_given_out_twice, seen_after, slug, unique};
use crate::naming::{
    law_all_sibling_names_differ, law_shown_sibling_names_differ, lemma_occurs_child,
};
use crate::numbering::{in_step, law_synced_table_is_in_step, table_uses};
use crate::outline::{
    closed_range, law_a_heading_is_one_directory, law_subdirectories_are_deeper_and_in_order,
    lemma_closed_parts, lemma_placed, lemma_section_form, lemma_sections_placed, occurs,
};
use crate::reading::{law_found_section_keeps_its_numbers, numbers_of};
use crate::reflow::reflowed;
use crate::renaming::{
    keeps_name, lemma_kept_sections, lemma_recorded_under_numbers, others_keep_names,
};
use crate::section::{
    body_start, child_index, closing_heading, find_below, heading_section, lemma_closing_heading,
    sections, tree_of, SectionView,
};
use crate::shifting::{alike, all_shifted, shifted};
use crate::state::{canonical_child, FsView, NextView, Reply, StepView};
use crate::uniqueness::{
    in_files, law_entries_are_the_numbers_in_use, law_requests_keep_numbers_apart, numbers_apart,
};
use crate::vfs::{Ino, Timestamp, VfsError};
use crate::visibility::{law_directory_above_is_where_it_was_looked_up, law_paths_lead_back};

verus! {

/// Whether the names on the way along `path` stay when the heading at `a` goes: wherever the way leads
/// past the directory for that heading, those behind it keep their names.
pub open spec fn names_on_the_way_stay(
    bs: Seq<BlockView>,
    f: Seq<SectionView>,
    path: Seq<Seq<char>>,
    a: int,
) -> bool
    decreases path.len(),
{
    path.len() > 0 ==> {
        &&& forall|k: int|
            0 <= k < f.len() && (#[trigger] f[k]).heading == Some(a) ==> others_keep_names(bs, f, k)
        &&& match child_index(f, path[0]) {
            Some(k) => names_on_the_way_stay(bs, f[k].children, path.drop_first(), a),
            None => true,
        }
    }
}

/// Whether `path` leads from `f` to the directory for the heading at `h`.
pub open spec fn leads_to(f: Seq<SectionView>, path: Seq<Seq<char>>, h: int) -> bool {
    &&& path.len() > 0
    &&& child_index(f, path[0]) is Some
    &&& find_below(f[child_index(f, path[0])->0], path.drop_first()) is Some
    &&& (find_below(f[child_index(f, path[0])->0], path.drop_first())->0).heading == Some(h)
}

proof fn lemma_shifted_index(f: Seq<SectionView>, e: int, d: int, name: Seq<char>)
    ensures
        child_index(all_shifted(f, e, d), name) == child_index(f, name),
    decreases f.len(),
{
    if f.len() > 0 {
        lemma_shifted_index(f.drop_first(), e, d, name);
        assert(all_shifted(f, e, d).drop_first() =~= all_shifted(f.drop_first(), e, d));
    }
}

proof fn lemma_shifted_below(s: SectionView, e: int, d: int, path: Seq<Seq<char>>)
    ensures
        find_below(shifted(s, e, d), path) == (match find_below(s, path) {
            Some(t) => Some(shifted(t, e, d)),
            None => None,
        }),
    decreases path.len(),
{
    if path.len() > 0 {
        lemma_shifted_index(s.children, e, d, path[0]);
        assert(shifted(s, e, d).children =~= all_shifted(s.children, e, d));
        lemma_child_index(s.children, path[0]);
        if let Some(k) = child_index(s.children, path[0]) {
            lemma_shifted_below(s.children[k], e, d, path.drop_first());
        }
    }
}

/// A path that leads to a heading behind a gap leads to where it was before the gap was made.
proof fn lemma_shifted_leads(f: Seq<SectionView>, a: int, m: int, path: Seq<Seq<char>>, h: int)
    requires
        m >= 0,
        h >= a + m,
        leads_to(all_shifted(f, a, m), path, h),
    ensures
        leads_to(f, path, h - m),
{
    lemma_shifted_index(f, a, m, path[0]);
    lemma_child_index(f, path[0]);
    let k = child_index(f, path[0])->0;
    assert(all_shifted(f, a, m)[k] == shifted(f[k], a, m));
    lemma_shifted_below(f[k], a, m, path.drop_first());
}

/// Whether `bs` is `rest` with one subtree of `m` blocks in front of the block at `a`.
spec fn holds_subtree(rest: Seq<BlockView>, bs: Seq<BlockView>, a: int, m: int, d: u8) -> bool {
    &&& grafted(rest, bs, a, m, d)
    &&& a + m < bs.len() ==> bs[a + m].is_heading() && bs[a + m].depth() <= d
}

proof fn lemma_closing_behind(
    rest: Seq<BlockView>,
    bs: Seq<BlockView>,
    a: int,
    m: int,
    d: u8,
    x: int,
    to: int,
    depth: u8,
)
    requires
        holds_subtree(rest, bs, a, m, d),
        a + m <= x <= to <= bs.len(),
    ensures
        closing_heading(rest, x - m, to - m, depth) == closing_heading(bs, x, to, depth) - m,
    decreases to - x,
{
    if x < to {
        assert(alike(rest[x - m], bs[x - m + m]));
        if !(bs[x].is_heading() && bs[x].depth() <= depth) {
            lemma_closing_behind(rest, bs, a, m, d, x + 1, to, depth);
        }
    }
}

proof fn lemma_closing_passes(bs: Seq<BlockView>, x: int, y: int, to: int, depth: u8)
    requires
        0 <= x <= y <= to <= bs.len(),
        forall|j: int| x <= j < y && (#[trigger] bs[j]).is_heading() ==> depth < bs[j].depth(),
    ensures
        closing_heading(bs, x, to, depth) == closing_heading(bs, y, to, depth),
    decreases y - x,
{
    if x < y {
        lemma_closing_passes(bs, x + 1, y, to, depth);
    }
}

/// Where a heading before the subtree is closed without the subtree.
proof fn lemma_closing_without(
    rest: Seq<BlockView>,
    bs: Seq<BlockView>,
    a: int,
    m: int,
    d: u8,
    x: int,
    to: int,
    depth: u8,
)
    requires
        holds_subtree(rest, bs, a, m, d),
        0 <= x <= a,
        a + m <= to <= bs.len(),
    ensures
        ({
            let c = closing_heading(bs, x, to, depth);
            &&& c <= a || a + m <= c
            &&& closing_heading(rest, x, to - m, depth) == (if c <= a {
                c
            } else {
                c - m
            })
        }),
    decreases a - x,
{
    if x < a {
        assert(alike(rest[x], bs[x]));
        if !(bs[x].is_heading() && bs[x].depth() <= depth) {
            lemma_closing_without(rest, bs, a, m, d, x + 1, to, depth);
        }
    } else if bs[a].depth() <= depth {
        if a + m < to {
            assert(alike(rest[a], bs[a + m]));
        }
    } else {
        lemma_closing_passes(bs, a, a + m, to, depth);
        lemma_closing_behind(rest, bs, a, m, d, a + m, to, depth);
        lemma_closing_heading(bs, a + m, to, depth);
    }
}

/// A way to a heading behind a subtree is the same without the subtree, where the names on it stay.
proof fn lemma_way_without(
    rest: Seq<BlockView>,
    bs: Seq<BlockView>,
    a: int,
    m: int,
    d: u8,
    x: int,
    to: int,
    seen: Set<Seq<char>>,
    path: Seq<Seq<char>>,
    h: int,
)
    requires
        holds_subtree(rest, bs, a, m, d),
        closed_range(bs, x, to),
        x <= a,
        a + m <= h < to,
        seen.finite(),
        leads_to(sections(bs, x, to, seen), path, h),
        names_on_the_way_stay(bs, sections(bs, x, to, seen), path, a),
    ensures
        leads_to(sections(rest, x, to - m, seen), path, h - m),
    decreases to - x,
{
    let f = sections(bs, x, to, seen);
    let g = sections(rest, x, to - m, seen);
    if !bs[x].is_heading() {
        assert(alike(rest[x], bs[x]));
        lemma_way_without(rest, bs, a, m, d, x + 1, to, seen, path, h);
    } else {
        let depth = bs[x].depth();
        let title = bs[x].title();
        let name = unique(seen, title);
        let seen2 = seen_after(seen, title);
        let c = closing_heading(bs, x + 1, to, depth);
        lemma_closed_parts(bs, x, to);
        law_a_name_is_not_given_out_twice(seen, title);
        let children = sections(bs, x + 1, c, Set::empty());
        let top = heading_section(bs, x, name, children);
        let behind = sections(bs, c, to, seen2);
        assert(f == seq![top] + behind);
        assert(f.drop_first() =~= behind);
        lemma_child_index(f, path[0]);
        let k = child_index(f, path[0])->0;
        let s = find_below(f[k], path.drop_first())->0;
        lemma_found_occurs(f[k], path.drop_first());
        let inner = path.drop_first();
        if k == 0 && path.len() > 1 {
            lemma_child_index(children, inner[0]);
            let i = child_index(children, inner[0])->0;
            lemma_found_occurs(children[i], inner.drop_first());
            lemma_sections_placed(bs, x + 1, c, Set::empty(), i, s);
            assert(h < c);
        }
        if k > 0 {
            assert(f[k] == behind[k - 1]);
            assert(child_index(behind, path[0]) == Some(k - 1));
            assert(leads_to(behind, path, h));
            lemma_sections_placed(bs, c, to, seen2, k - 1, s);
            assert(c <= h);
        }
        if x == a {
            lemma_closing_passes(bs, a + 1, a + m, to, depth);
            assert(c == a + m);
            assert(k > 0);
            assert(f[0].heading == Some(a));
            assert(others_keep_names(bs, f, 0));
            assert forall|j: int| 0 <= j < behind.len() implies keeps_name(
                name,
                bs[(#[trigger] behind[j]).heading->0].title(),
                behind[j].name,
            ) by {
                assert(f[j + 1] == behind[j]);
            }
            lemma_kept_sections(bs, c, to, seen, name);
            lemma_moved_sections(rest, bs, a, m, d, a, to - m, seen);
            assert(behind == all_shifted(g, a, m));
            lemma_shifted_leads(g, a, m, path, h);
        } else {
            assert(alike(rest[x], bs[x]));
            lemma_closing_without(rest, bs, a, m, d, x + 1, to, depth);
            let c2 = closing_heading(rest, x + 1, to - m, depth);
            let children2 = sections(rest, x + 1, c2, Set::empty());
            let top2 = heading_section(rest, x, name, children2);
            let behind2 = sections(rest, c2, to - m, seen2);
            assert(g == seq![top2] + behind2);
            assert(g.drop_first() =~= behind2);
            if k > 0 {
                if c <= a {
                    assert(names_on_the_way_stay(bs, behind, path, a)) by {
                        assert forall|i: int|
                            0 <= i < behind.len() && (#[trigger] behind[i]).heading == Some(
                                a,
                            ) implies others_keep_names(bs, behind, i) by {
                            assert(f[i + 1] == behind[i]);
                            assert(others_keep_names(bs, f, i + 1));
                            assert forall|j: int| i < j < behind.len() implies
                                keeps_name(
                                behind[i].name,
                                bs[(#[trigger] behind[j]).heading->0].title(),
                                behind[j].name,
                            ) by {
                                assert(f[j + 1] == behind[j]);
                            }
                        }
                    }
                    lemma_way_without(rest, bs, a, m, d, c, to, seen2, path, h);
                } else {
                    lemma_moved_sections(rest, bs, a, m, d, c - m, to - m, seen2);
                    lemma_shifted_leads(behind2, a, m, path, h);
                }
                let l = child_index(behind2, path[0])->0;
                lemma_child_index(behind2, path[0]);
                assert(child_index(g, path[0]) == Some(l + 1));
                assert(g[l + 1] == behind2[l]);
            } else {
                assert(f[0] == top);
                if path.len() == 1 {
                    assert(s == top);
                    assert(false);
                }
                assert(a + m <= h < c);
                assert(leads_to(children, inner, h));
                lemma_way_without(rest, bs, a, m, d, x + 1, c, Set::empty(), inner, h);
                assert(child_index(g, path[0]) == Some(0int));
                assert(g[0] == top2);
            }
        }
    }
}

proof fn lemma_names_shifted(f: Seq<SectionView>, a: int, m: int)
    ensures
        section_names(all_shifted(f, a, m)) == section_names(f),
{
    assert(section_names(all_shifted(f, a, m)) =~= section_names(f));
}

/// The directories for a range have the same names without a subtree that is none of them but below
/// one.
proof fn lemma_names_without(
    rest: Seq<BlockView>,
    bs: Seq<BlockView>,
    a: int,
    m: int,
    d: u8,
    x: int,
    to: int,
    seen: Set<Seq<char>>,
)
    requires
        holds_subtree(rest, bs, a, m, d),
        closed_range(bs, x, to),
        x <= a,
        a + m <= to,
        forall|k: int|
            0 <= k < sections(bs, x, to, seen).len() ==> (#[trigger] sections(
                bs,
                x,
                to,
                seen,
            )[k]).heading != Some(a),
    ensures
        section_names(sections(rest, x, to - m, seen)) == section_names(sections(bs, x, to, seen)),
    decreases to - x,
{
    let f = sections(bs, x, to, seen);
    let g = sections(rest, x, to - m, seen);
    if !bs[x].is_heading() {
        assert(alike(rest[x], bs[x]));
        lemma_names_without(rest, bs, a, m, d, x + 1, to, seen);
    } else {
        let depth = bs[x].depth();
        let title = bs[x].title();
        let name = unique(seen, title);
        let seen2 = seen_after(seen, title);
        let c = closing_heading(bs, x + 1, to, depth);
        lemma_closed_parts(bs, x, to);
        let top = heading_section(bs, x, name, sections(bs, x + 1, c, Set::empty()));
        let behind = sections(bs, c, to, seen2);
        assert(f == seq![top] + behind);
        assert(f[0].heading == Some(x));
        assert(x < a);
        assert(alike(rest[x], bs[x]));
        lemma_closing_without(rest, bs, a, m, d, x + 1, to, depth);
        let c2 = closing_heading(rest, x + 1, to - m, depth);
        let top2 = heading_section(rest, x, name, sections(rest, x + 1, c2, Set::empty()));
        let behind2 = sections(rest, c2, to - m, seen2);
        assert(g == seq![top2] + behind2);
        if c <= a {
            assert forall|k: int| 0 <= k < behind.len() implies (#[trigger] behind[k]).heading
                != Some(a) by {
                assert(f[k + 1] == behind[k]);
            }
            lemma_names_without(rest, bs, a, m, d, c, to, seen2);
        } else {
            lemma_moved_sections(rest, bs, a, m, d, c - m, to - m, seen2);
            lemma_names_shifted(behind2, a, m);
        }
        assert(section_names(behind2).len() == section_names(behind).len());
        assert forall|k: int| 0 <= k < g.len() implies section_names(g)[k] == section_names(
            f,
        )[k] by {
            if k > 0 {
                assert(section_names(behind2)[k - 1] == section_names(behind)[k - 1]);
                assert(g[k] == behind2[k - 1]);
                assert(f[k] == behind[k - 1]);
            }
        }
        assert(section_names(g) =~= section_names(f));
    }
}

/// A section that is no subdirectory of its new parent yet leaves that parent with the names it has.
proof fn lemma_new_parent_keeps_names(
    bs: Seq<BlockView>,
    rest: Seq<BlockView>,
    section: SectionView,
    parent: SectionView,
    d: int,
) -> (to: int)
    requires
        occurs(tree_of(bs).root, section),
        section.heading is Some,
        occurs(tree_of(bs).root, parent),
        parent.heading is Some ==> !(section.heading->0 <= parent.heading->0
            < section.subtree_end()),
        holds_subtree(
            rest,
            bs,
            section.heading->0,
            section.subtree_end() - section.heading->0,
            section.depth,
        ),
        forall|k: int|
            0 <= k < parent.children.len() ==> (#[trigger] parent.children[k]).heading
                != section.heading,
        d == target_shift(bs, section, parent),
    ensures
        parent.start - d <= to <= rest.len(),
        to < rest.len() ==> rest[to].is_heading() && rest[to].depth() <= parent.depth,
        section_names(sections(rest, parent.start - d, to, Set::empty())) == section_names(
            parent.children,
        ),
{
    let start = section.heading->0;
    let end = section.subtree_end();
    let m = end - start;
    let (end0, d0) = lemma_move_target(bs, section, parent);
    let to = lemma_children_range(bs, parent);
    lemma_placed(bs, section);
    let none = Set::<Seq<char>>::empty();
    assert(closed_range(bs, parent.start, to)) by {
        if parent.heading is Some {
            lemma_placed(bs, parent);
        }
    }
    if d > 0 {
        lemma_moved_sections(rest, bs, start, m, section.depth, parent.start - d, to - m, none);
        lemma_names_shifted(sections(rest, parent.start - d, to - m, none), start, m);
        if to < bs.len() {
            assert(alike(rest[to - m], bs[to - m + m]));
        }
        to - m
    } else if to <= start {
        lemma_same_sections(rest, bs, start, m, section.depth, parent.start, to, none);
        if to < rest.len() {
            if to < start {
                assert(alike(rest[to], bs[to]));
            } else {
                assert(alike(rest[start], bs[start + m]));
            }
        }
        to
    } else {
        assert(end <= to) by {
            if to < end {
                assert(bs[to].is_heading());
                assert(parent.heading is Some);
                lemma_placed(bs, parent);
                assert(bs[start].depth() > parent.depth);
            }
        }
        lemma_names_without(rest, bs, start, m, section.depth, parent.start, to, none);
        if to < bs.len() {
            assert(alike(rest[to - m], bs[to - m + m]));
        }
        to - m
    }
}

/// How far its new parent moves when a section is taken out.
spec fn target_shift(bs: Seq<BlockView>, section: SectionView, parent: SectionView) -> int {
    if parent.end <= section.heading->0 {
        0
    } else {
        section.subtree_end() - section.heading->0
    }
}

/// A document holds the subtree of a section, and is what is left with it.
proof fn lemma_holds_subtree(bs: Seq<BlockView>, section: SectionView)
    requires
        occurs(tree_of(bs).root, section),
        section.heading is Some,
    ensures
        ({
            let start = section.heading->0;
            let end = section.subtree_end();
            let rest = reflowed(bs, start, end, Seq::empty());
            &&& holds_subtree(rest, bs, start, end - start, section.depth)
            &&& body_start(rest) == body_start(bs)
            &&& rest.len() == bs.len() - (end - start)
        }),
{
    let start = section.heading->0;
    let end = section.subtree_end();
    let m = end - start;
    let rest = reflowed(bs, start, end, Seq::empty());
    lemma_placed(bs, section);
    lemma_splice_len(bs, start, end, Seq::empty());
    assert forall|j: int| 0 <= j < start implies alike(#[trigger] rest[j], bs[j]) by {
        lemma_spliced_content(bs, start, end, Seq::empty(), j);
    }
    assert forall|j: int| start <= j < rest.len() implies alike(#[trigger] rest[j], bs[j + m]) by {
        lemma_spliced_content(bs, start, end, Seq::empty(), j);
    }
    if start > 0 {
        lemma_spliced_content(bs, start, end, Seq::empty(), 0);
    } else if rest.len() > 0 {
        assert(alike(rest[0], bs[m]));
        assert(bs[0].is_heading());
    }
}

/// The path to the new parent still leads to it once the section is taken out.
proof fn lemma_way_to_new_parent(
    bs: Seq<BlockView>,
    section: SectionView,
    path: Seq<Seq<char>>,
    h: int,
    d: int,
)
    requires
        occurs(tree_of(bs).root, section),
        section.heading is Some,
        find_below(tree_of(bs).root, path) is Some,
        (find_below(tree_of(bs).root, path)->0).heading == Some(h),
        (d == 0 && 0 <= h < section.heading->0) || (d == section.subtree_end() - section.heading->0
            && h >= section.subtree_end()),
        h > section.heading->0 ==> names_on_the_way_stay(
            bs,
            tree_of(bs).root.children,
            path,
            section.heading->0,
        ),
    ensures
        ({
            let rest = reflowed(bs, section.heading->0, section.subtree_end(), Seq::empty());
            &&& find_below(tree_of(rest).root, path) is Some
            &&& (find_below(tree_of(rest).root, path)->0).heading == Some(h - d)
        }),
{
    let start = section.heading->0;
    let end = section.subtree_end();
    let m = end - start;
    let rest = reflowed(bs, start, end, Seq::empty());
    lemma_placed(bs, section);
    lemma_holds_subtree(bs, section);
    lemma_found_occurs(tree_of(bs).root, path);
    lemma_placed(bs, find_below(tree_of(bs).root, path)->0);
    if d == 0 {
        assert forall|j: int| 0 <= j <= h implies alike(#[trigger] bs[j], rest[j]) by {
            assert(alike(rest[j], bs[j]));
        }
        law_changes_behind_a_heading_keep_its_path(bs, rest, h, path);
    } else {
        assert(path.len() > 0);
        assert(closed_range(bs, body_start(bs), bs.len() as int));
        lemma_way_without(
            rest,
            bs,
            start,
            m,
            section.depth,
            body_start(bs),
            bs.len() as int,
            Set::empty(),
            path,
            h,
        );
    }
}

/// The new parent of a moved section is found where it was.
proof fn lemma_new_parent_is_found(
    bs: Seq<BlockView>,
    section: SectionView,
    path: Seq<Seq<char>>,
    name: Seq<char>,
    s: SectionView,
)
    requires
        occurs(tree_of(bs).root, section),
        section.heading is Some,
        find_below(tree_of(bs).root, path) is Some,
        ({
            let parent = find_below(tree_of(bs).root, path)->0;
            &&& reparented(bs, section, parent, name) is Ok
            &&& parent.heading is Some && parent.heading->0 > section.heading->0
                ==> names_on_the_way_stay(
                bs,
                tree_of(bs).root.children,
                path,
                section.heading->0,
            )
            &&& occurs(tree_of(reparented(bs, section, parent, name)->Ok_0).root, s)
            &&& s.heading == parent_after_move(section, parent)
        }),
    ensures
        ({
            let parent = find_below(tree_of(bs).root, path)->0;
            find_below(tree_of(reparented(bs, section, parent, name)->Ok_0).root, path) == Some(s)
        }),
{
    let root = tree_of(bs).root;
    let parent = find_below(root, path)->0;
    lemma_found_occurs(root, path);
    let start = section.heading->0;
    let end = section.subtree_end();
    let rest = reflowed(bs, start, end, Seq::empty());
    let after = reparented(bs, section, parent, name)->Ok_0;
    let root2 = tree_of(after).root;
    lemma_placed(bs, section);
    let (end0, d) = lemma_move_target(bs, section, parent);
    let first = lemma_parent_place(bs, parent);
    lemma_holds_subtree(bs, section);
    let (at, d2) = lemma_moved_grafts(bs, section, parent, name);
    match parent.heading {
        None => {
            if path.len() > 0 {
                lemma_child_index(root.children, path[0]);
                let i = child_index(root.children, path[0])->0;
                lemma_found_occurs(root.children[i], path.drop_first());
                lemma_sections_placed(
                    bs,
                    body_start(bs),
                    bs.len() as int,
                    Set::empty(),
                    i,
                    parent,
                );
            }
            assert(occurs(root2, root2));
            law_a_heading_is_one_directory(after, root2, s);
        },
        Some(h) => {
            let h2 = h - d;
            lemma_way_to_new_parent(bs, section, path, h, d);
            assert(alike(rest[h2], after[h2]));
            assert(rest[h2].is_heading()) by {
                lemma_spliced_content(bs, start, end, Seq::empty(), h2);
            }
            law_changes_behind_a_heading_keep_its_path(rest, after, h2, path);
            lemma_found_occurs(root2, path);
            law_a_heading_is_one_directory(after, find_below(root2, path)->0, s);
        },
    }
}

/// A section has its new name below its new parent.
proof fn lemma_moved_name(
    bs: Seq<BlockView>,
    section: SectionView,
    parent: SectionView,
    name: Seq<char>,
    s: SectionView,
    k: int,
    at: int,
)
    requires
        occurs(tree_of(bs).root, section),
        section.heading is Some,
        occurs(tree_of(bs).root, parent),
        reparented(bs, section, parent, name) is Ok,
        forall|k: int|
            0 <= k < parent.children.len() ==> (#[trigger] parent.children[k]).heading
                != section.heading,
        slug(name) == name,
        ({
            let after = reparented(bs, section, parent, name)->Ok_0;
            let rest = reflowed(bs, section.heading->0, section.subtree_end(), Seq::empty());
            &&& occurs(tree_of(after).root, s)
            &&& s.heading == parent_after_move(section, parent)
            &&& child_at(after, s, k, at)
            &&& after[at].title() == name
            &&& s.children.take(k) == sections(rest, s.start, at, Set::empty())
            &&& deeper_up_to(rest, s.start, at, depth_below(parent))
        }),
    ensures
        s.children[k].name == name,
        child_index(s.children, name) == Some(k),
{
    let start = section.heading->0;
    let end = section.subtree_end();
    let rest = reflowed(bs, start, end, Seq::empty());
    let after = reparented(bs, section, parent, name)->Ok_0;
    lemma_placed(bs, section);
    let (end0, d) = lemma_move_target(bs, section, parent);
    lemma_holds_subtree(bs, section);
    let (at2, d2) = lemma_moved_grafts(bs, section, parent, name);
    let first = lemma_parent_place(bs, parent);
    let first2 = lemma_parent_place(after, s);
    let to = lemma_new_parent_keeps_names(bs, rest, section, parent, d);
    let none = Set::<Seq<char>>::empty();
    let pre = s.children.take(k);
    assert(s.start == parent.start - d);
    assert(at <= to) by {
        if to < at {
            assert(rest[to].is_heading());
        }
    }
    lemma_split_sections(rest, s.start, at, to, depth_below(parent), none);
    lemma_child_index(parent.children, name);
    let all = sections(rest, s.start, to, none);
    assert forall|i: int| 0 <= i < section_names(pre).len() implies section_names(pre)[i]
        != name by {
        assert(all[i] == pre[i]);
        assert(section_names(all)[i] == pre[i].name);
        assert(section_names(all).len() == section_names(parent.children).len());
        assert(section_names(parent.children)[i] == parent.children[i].name);
        assert(parent.children[i].name != name);
    }
    assert(!section_names(pre).to_set().contains(name));
    lemma_child_index(s.children, name);
    law_all_sibling_names_differ(after, s);
    assert(section_names(s.children)[k] == name);
    let l = child_index(s.children, name)->0;
    assert(section_names(s.children)[l] == name);
}

/// A section that was moved below the section at `path` is the directory at `path` and its new name,
/// where that is the name of a directory. Its heading has the new name for a title, and for its text.
/// The path must still lead to the new parent when the section is gone from its place.
pub proof fn law_moved_section_is_found(
    bs: Seq<BlockView>,
    section: SectionView,
    path: Seq<Seq<char>>,
    name: Seq<char>,
)
    requires
        occurs(tree_of(bs).root, section),
        section.heading is Some,
        find_below(tree_of(bs).root, path) is Some,
        ({
            let parent = find_below(tree_of(bs).root, path)->0;
            &&& reparented(bs, section, parent, name) is Ok
            &&& forall|k: int|
                0 <= k < parent.children.len() ==> (#[trigger] parent.children[k]).heading
                    != section.heading
            &&& parent.heading is Some && parent.heading->0 > section.heading->0
                ==> names_on_the_way_stay(
                bs,
                tree_of(bs).root.children,
                path,
                section.heading->0,
            )
        }),
        slug(name) == name,
    ensures
        ({
            let parent = find_below(tree_of(bs).root, path)->0;
            let after = reparented(bs, section, parent, name)->Ok_0;
            let p = find_below(tree_of(after).root, path);
            let found = find_below(tree_of(after).root, path.push(name));
            &&& p is Some
            &&& (p->0).heading == parent_after_move(section, parent)
            &&& child_index((p->0).children, name) is Some
            &&& found is Some
            &&& (found->0).heading is Some
            &&& 0 <= (found->0).heading->0 < after.len()
            &&& after[(found->0).heading->0].content == (ContentView::Heading {
                depth: (parent.depth + 1) as u8,
                title: name,
                markup: seq![text_node_of(name)],
            })
            &&& (found->0).depth == parent.depth + 1
        }),
{
    let root = tree_of(bs).root;
    let parent = find_below(root, path)->0;
    lemma_found_occurs(root, path);
    let start = section.heading->0;
    let end = section.subtree_end();
    let after = reparented(bs, section, parent, name)->Ok_0;
    lemma_placed(bs, section);
    let (end0, d) = lemma_move_target(bs, section, parent);
    let (s, k, at) = lemma_moved_child(bs, section, parent, name);
    lemma_new_parent_is_found(bs, section, path, name, s);
    lemma_moved_name(bs, section, parent, name, s, k, at);
    lemma_found_child(tree_of(after).root, path, name);
    let taken = bs.subrange(start, end);
    let new = relocated(taken, depth_shift(section, parent), name);
    lemma_moved_content(bs, start, end, at, new, at);
    assert(taken[0] == bs[start]);
    assert(new[0] == retitled(deepened(bs[start], depth_shift(section, parent)), name));
}

/// What is found below a section stands in its subtree, behind its heading.
proof fn lemma_found_within(bs: Seq<BlockView>, s: SectionView, path: Seq<Seq<char>>)
    requires
        occurs(tree_of(bs).root, s),
        s.heading is Some,
        path.len() > 0,
        find_below(s, path) is Some,
    ensures
        (find_below(s, path)->0).heading is Some,
        s.heading->0 < (find_below(s, path)->0).heading->0 < s.subtree_end(),
{
    lemma_section_form(bs, s);
    lemma_placed(bs, s);
    lemma_child_index(s.children, path[0]);
    let k = child_index(s.children, path[0])->0;
    lemma_found_occurs(s.children[k], path.drop_first());
    lemma_sections_placed(
        bs,
        s.heading->0 + 1,
        s.subtree_end(),
        Set::empty(),
        k,
        find_below(s, path)->0,
    );
}

/// No two paths below a section lead to one heading.
proof fn lemma_one_path(bs: Seq<BlockView>, s: SectionView, p: Seq<Seq<char>>, q: Seq<Seq<char>>)
    requires
        occurs(tree_of(bs).root, s),
        p.len() > 0,
        q.len() > 0,
        find_below(s, p) is Some,
        find_below(s, q) is Some,
        (find_below(s, p)->0).heading == (find_below(s, q)->0).heading,
    ensures
        p == q,
    decreases p.len(),
{
    lemma_child_index(s.children, p[0]);
    lemma_child_index(s.children, q[0]);
    let i = child_index(s.children, p[0])->0;
    let j = child_index(s.children, q[0])->0;
    let root = tree_of(bs).root;
    lemma_occurs_child(root, s, i);
    lemma_occurs_child(root, s, j);
    let to = lemma_children_range(bs, s);
    assert(closed_range(bs, s.start, to));
    assert(occurs(s.children[i], s.children[i]));
    assert(occurs(s.children[j], s.children[j]));
    lemma_sections_placed(bs, s.start, to, Set::empty(), i, s.children[i]);
    lemma_sections_placed(bs, s.start, to, Set::empty(), j, s.children[j]);
    let p1 = p.drop_first();
    let q1 = q.drop_first();
    if p1.len() > 0 {
        lemma_found_within(bs, s.children[i], p1);
    }
    if q1.len() > 0 {
        lemma_found_within(bs, s.children[j], q1);
    }
    law_subdirectories_are_deeper_and_in_order(bs, s);
    assert(i == j) by {
        if i < j {
            assert(s.children[i].subtree_end() <= s.children[j].heading->0);
        } else if j < i {
            assert(s.children[j].subtree_end() <= s.children[i].heading->0);
        }
    }
    if p1.len() > 0 && q1.len() > 0 {
        lemma_one_path(bs, s.children[i], p1, q1);
    }
    assert(p =~= seq![p[0]] + p1);
    assert(q =~= seq![q[0]] + q1);
    assert(p1 =~= q1);
}

/// A directory that is moved to another directory of its file, under the name of a directory that is
/// not taken there, is found there: it is a directory whose heading has the new name for a title and
/// for its text, one level below the new parent, and the directory above it is the new one. This is so
/// wherever the new parent is, the file's own directory as well, as long as the numbers do not run out
/// and the directories on the way to the new parent keep their names when the moved one is gone from
/// its place.
pub proof fn law_moved_directory_is_found(
    fs: FsView,
    from: Ino,
    a: Seq<char>,
    to: Ino,
    b: Seq<char>,
    file: usize,
    source: Seq<Seq<char>>,
    path: Seq<Seq<char>>,
    now: Timestamp,
)
    requires
        fs.wf(),
        numbers_apart(fs),
        from != to,
        fs.dir_path(from) == Some((file, source)),
        fs.dir_path(to) == Some((file, path)),
        !fs.names.contains_key((from, a)),
        fs.files[file as int].child_section(source, a) is Some,
        canonical_child(path, b) is None,
        slug(b) == b,
        fs.rename(from, a, to, b, now).1 is Save,
        fs.rename(from, a, to, b, now).0.next < u64::MAX,
        ({
            let f = fs.files[file as int];
            let moved = (f.child_section(source, a)->0).heading->0;
            let parent = f.section(path)->0;
            parent.heading is Some && parent.heading->0 > moved ==> names_on_the_way_stay(
                f.document,
                f.tree.root.children,
                path,
                moved,
            )
        }),
    ensures
        ({
            let (after, step) = fs.rename(from, a, to, b, now);
            let i = after.lookup(to, b)->Ok_0;
            let g = after.files[file as int];
            let s = g.section(path.push(b));
            &&& step == (StepView::Save { file, next: NextView::Finish })
            &&& after.resumed(file, NextView::Finish, now) == (
                after,
                StepView::Finished(Ok(Reply::Done)),
            )
            &&& after.lookup(to, b) is Ok
            &&& after.getattr(i, now) is Ok
            &&& (after.getattr(i, now)->Ok_0).kind is Dir
            &&& after.dir_path(i) == Some((file, path.push(b)))
            &&& after.parent_of(i) == Ok::<Ino, VfsError>(to)
            &&& s is Some
            &&& (s->0).heading is Some
            &&& 0 <= (s->0).heading->0 < g.document.len()
            &&& g.document[(s->0).heading->0].content == (ContentView::Heading {
                depth: ((fs.files[file as int].section(path)->0).depth + 1) as u8,
                title: b,
                markup: seq![text_node_of(b)],
            })
        }),
{
    let f = fs.files[file as int];
    assert(fs.owner[to] < fs.files.len());
    assert(f.shown is None);
    assert(in_step(f.inodes, f.tree));
    let bs = f.document;
    let root = tree_of(bs).root;
    law_shown_sibling_names_differ(bs, f.shown);
    law_paths_lead_back(f.inodes, f.tree);
    assert(f.inodes.index.paths.contains_key(from));
    assert(f.inodes.index.paths.contains_key(to));
    let section = f.child_section(source, a)->0;
    let parent = f.section(path)->0;
    lemma_found_child(root, source, a);
    lemma_found_occurs(root, source.push(a));
    lemma_found_occurs(root, path);
    assert(section != root) by {
        lemma_child_index((f.section(source)->0).children, a);
        let p = f.section(source)->0;
        lemma_found_occurs(root, source);
        let t = lemma_children_range(bs, p);
        assert(closed_range(bs, p.start, t));
        assert(occurs(section, section));
        lemma_sections_placed(
            bs,
            p.start,
            t,
            Set::empty(),
            child_index(p.children, a)->0,
            section,
        );
    }
    lemma_placed(bs, section);
    assert forall|k: int| 0 <= k < parent.children.len() implies (
    #[trigger] parent.children[k]).heading != section.heading by {
        if parent.children[k].heading == section.heading {
            let n = parent.children[k].name;
            lemma_child_index(parent.children, n);
            law_all_sibling_names_differ(bs, parent);
            let l = child_index(parent.children, n)->0;
            assert(section_names(parent.children)[k] == section_names(parent.children)[l]);
            lemma_found_child(root, path, n);
            assert(occurs(root, root));
            lemma_one_path(bs, root, source.push(a), path.push(n));
            assert(source =~= source.push(a).drop_last());
            assert(path =~= path.push(n).drop_last());
            assert(false);
        }
    }
    let document = reparented(bs, section, parent, b)->Ok_0;
    let (after, step) = fs.rename(from, a, to, b, now);
    assert(after == fs.rebuilt(file, document));
    law_moved_section_is_found(bs, section, path, b);
    let g = after.files[file as int];
    law_synced_table_is_in_step(f.inodes, fs.next, tree_of(document));
    assert(after.wf());
    law_requests_keep_numbers_apart(fs, from, a, to, b, 0, Seq::empty(), now);
    law_found_section_keeps_its_numbers(f.inodes, f.tree, fs.next, g.tree, path);
    lemma_recorded_under_numbers(fs, file, path);
    lemma_recorded_under_numbers(after, file, path);
    lemma_recorded_under_numbers(after, file, path.push(b));
    assert(numbers_of(f.inodes, f.tree, path).dir == to);
    law_directory_above_is_where_it_was_looked_up(after, to, file, path, b);
    let i = after.lookup(to, b)->Ok_0;
    assert(!after.scratch.contains_key(i)) by {
        law_entries_are_the_numbers_in_use(g.inodes, i);
        assert(table_uses(after.files[file as int].inodes, i));
        assert(in_files(after.files, i));
    }
}

} // verus!
