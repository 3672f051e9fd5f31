//! How the directories of a tree lie in the block list.
use vstd::prelude::*;

use crate::block::BlockView;
use crate::section::{
    body_start, closing_heading, heading_section, next_heading, sections, tree_of, SectionView,
};
use crate::names::{seen_after, unique};

verus! {

/// Whether `s` is `root` or a directory below it.
pub open spec fn occurs(root: SectionView, s: SectionView) -> bool
    decreases root,
{
    root == s || exists|k: int|
        0 <= k < root.children.len() && occurs(#[trigger] root.children[k], s)
}

/// Whether `s` lies in the block list as a heading's directory does: its heading stands in front of
/// its content, its subtree goes on up to the next heading that is not deeper, and holds no heading
/// that is deeper than its maximal depth.
pub open spec fn well_placed(bs: Seq<BlockView>, s: SectionView) -> bool {
    &&& s.heading is Some
    &&& {
        let i = s.heading->0;
        let e = s.subtree_end();
        &&& 0 <= i < bs.len()
        &&& bs[i].is_heading()
        &&& s.depth == bs[i].depth()
        &&& s.start == i + 1
        &&& s.end == next_heading(bs, i + 1)
        &&& i + 1 <= s.end <= e <= bs.len()
        &&& e < bs.len() ==> bs[e].is_heading() && bs[e].depth() <= s.depth
        &&& s.depth <= s.max_depth()
        &&& forall|j: int|
            i < j < e && (#[trigger] bs[j]).is_heading() ==> s.depth < bs[j].depth()
                <= s.max_depth()
    }
}

/// Whether `from..to` is closed by a heading that is less deep than the headings in it, or by the
/// end of the document.
pub open spec fn closed_range(bs: Seq<BlockView>, from: int, to: int) -> bool {
    &&& 0 <= from <= to <= bs.len()
    &&& to < bs.len() ==> {
        &&& bs[to].is_heading()
        &&& forall|j: int|
            from <= j < to && (#[trigger] bs[j]).is_heading() ==> bs[to].depth() <= bs[j].depth()
    }
}

/// A section is at least as deep as the parts that are counted.
proof fn lemma_max_depth_of_first(s: SectionView, n: nat, k: int)
    requires
        n <= s.children.len(),
        0 <= k < n,
    ensures
        s.depth <= s.max_depth_of_first(n),
        s.children[k].max_depth() <= s.max_depth_of_first(n),
    decreases n,
{
    reveal_with_fuel(SectionView::max_depth_of_first, 2);
    if n > 0 && k < n - 1 {
        lemma_max_depth_of_first(s, (n - 1) as nat, k);
    } else if n > 1 {
        lemma_max_depth_of_first(s, (n - 1) as nat, 0);
    }
}

/// A section is at least as deep as its heading and its subsections.
pub proof fn lemma_max_depth(s: SectionView)
    ensures
        s.depth <= s.max_depth(),
        forall|k: int|
            0 <= k < s.children.len() ==> (#[trigger] s.children[k]).max_depth() <= s.max_depth(),
{
    reveal_with_fuel(SectionView::max_depth, 2);
    reveal_with_fuel(SectionView::max_depth_of_first, 2);
    assert forall|k: int| 0 <= k < s.children.len() implies (#[trigger] s.children[k]).max_depth()
        <= s.max_depth() by {
        lemma_max_depth_of_first(s, s.children.len(), k);
    }
    if s.children.len() > 0 {
        lemma_max_depth_of_first(s, s.children.len(), 0);
    }
}

/// What [`closing_heading`] finds: no heading before it is as shallow.
pub proof fn lemma_closing_heading_first(bs: Seq<BlockView>, from: int, to: int, depth: u8)
    requires
        0 <= from <= to <= bs.len(),
    ensures
        from <= closing_heading(bs, from, to, depth) <= to,
        closing_heading(bs, from, to, depth) < to ==> {
            &&& bs[closing_heading(bs, from, to, depth)].is_heading()
            &&& bs[closing_heading(bs, from, to, depth)].depth() <= depth
        },
        forall|j: int|
            from <= j < closing_heading(bs, from, to, depth) && (#[trigger] bs[j]).is_heading()
                ==> depth < bs[j].depth(),
    decreases to - from,
{
    if from < to && !(bs[from].is_heading() && bs[from].depth() <= depth) {
        lemma_closing_heading_first(bs, from + 1, to, depth);
    }
}

/// What [`next_heading`] finds: no block before it is a heading.
pub proof fn lemma_next_heading_first(bs: Seq<BlockView>, from: int)
    requires
        0 <= from <= bs.len(),
    ensures
        from <= next_heading(bs, from) <= bs.len(),
        next_heading(bs, from) < bs.len() ==> bs[next_heading(bs, from)].is_heading(),
        forall|j: int| from <= j < next_heading(bs, from) ==> !(#[trigger] bs[j]).is_heading(),
    decreases bs.len() - from,
{
    if from < bs.len() && !bs[from].is_heading() {
        lemma_next_heading_first(bs, from + 1);
    }
}

/// The range below a heading, and the range behind that, are closed again.
pub proof fn lemma_closed_parts(bs: Seq<BlockView>, from: int, to: int)
    requires
        closed_range(bs, from, to),
        from < to,
        bs[from].is_heading(),
    ensures
        ({
            let end = closing_heading(bs, from + 1, to, bs[from].depth());
            &&& from < end <= to
            &&& closed_range(bs, from + 1, end)
            &&& closed_range(bs, end, to)
            &&& end < bs.len() ==> bs[end].is_heading() && bs[end].depth() <= bs[from].depth()
            &&& forall|j: int|
                from < j < end && (#[trigger] bs[j]).is_heading() ==> bs[from].depth()
                    < bs[j].depth()
        }),
{
    lemma_closing_heading_first(bs, from + 1, to, bs[from].depth());
}

/// The directories for a range reach up to its end, or there is no heading in it.
proof fn lemma_sections_reach(bs: Seq<BlockView>, from: int, to: int, seen: Set<Seq<char>>)
    requires
        closed_range(bs, from, to),
    ensures
        ({
            let f = sections(bs, from, to, seen);
            if f.len() == 0 {
                next_heading(bs, from) == to
            } else {
                f.last().subtree_end() == to
            }
        }),
    decreases to - from,
{
    if from >= to {
    } else if !bs[from].is_heading() {
        lemma_sections_reach(bs, from + 1, to, seen);
    } else {
        let end = closing_heading(bs, from + 1, to, bs[from].depth());
        lemma_closed_parts(bs, from, to);
        let children = sections(bs, from + 1, end, Set::empty());
        let rest = sections(bs, end, to, seen_after(seen, bs[from].title()));
        let s = heading_section(bs, from, unique(seen, bs[from].title()), children);
        let f = sections(bs, from, to, seen);
        assert(f == seq![s] + rest);
        lemma_sections_reach(bs, end, to, seen_after(seen, bs[from].title()));
        lemma_sections_reach(bs, from + 1, end, Set::empty());
        reveal_with_fuel(SectionView::subtree_end, 2);
        if rest.len() == 0 {
            assert(f.last() == s);
            if end < to {
                assert(next_heading(bs, end) == end);
            }
        } else {
            assert(f.last() == rest.last());
        }
    }
}

/// Each heading in a range is no deeper than one of the directories for the range.
proof fn lemma_sections_depth(
    bs: Seq<BlockView>,
    from: int,
    to: int,
    seen: Set<Seq<char>>,
    j: int,
)
    requires
        closed_range(bs, from, to),
        from <= j < to,
        bs[j].is_heading(),
    ensures
        exists|k: int|
            0 <= k < sections(bs, from, to, seen).len() && bs[j].depth() <= (
            #[trigger] sections(bs, from, to, seen)[k]).max_depth(),
    decreases to - from,
{
    let f = sections(bs, from, to, seen);
    if !bs[from].is_heading() {
        lemma_sections_depth(bs, from + 1, to, seen, j);
    } else {
        let end = closing_heading(bs, from + 1, to, bs[from].depth());
        lemma_closed_parts(bs, from, to);
        let children = sections(bs, from + 1, end, Set::empty());
        let rest = sections(bs, end, to, seen_after(seen, bs[from].title()));
        let s = heading_section(bs, from, unique(seen, bs[from].title()), children);
        assert(f == seq![s] + rest);
        lemma_max_depth(s);
        if j == from {
            assert(f[0] == s);
        } else if j < end {
            lemma_sections_depth(bs, from + 1, end, Set::empty(), j);
            let k = choose|k: int|
                0 <= k < children.len() && bs[j].depth() <= (#[trigger] children[k]).max_depth();
            assert(s.children[k].max_depth() <= s.max_depth());
            assert(f[0] == s);
        } else {
            lemma_sections_depth(bs, end, to, seen_after(seen, bs[from].title()), j);
            let k = choose|k: int|
                0 <= k < rest.len() && bs[j].depth() <= (#[trigger] rest[k]).max_depth();
            assert(f[k + 1] == rest[k]);
        }
    }
}

/// Every directory for a range lies in the block list as it should.
pub proof fn lemma_sections_placed(
    bs: Seq<BlockView>,
    from: int,
    to: int,
    seen: Set<Seq<char>>,
    k: int,
    s: SectionView,
)
    requires
        closed_range(bs, from, to),
        0 <= k < sections(bs, from, to, seen).len(),
        occurs(sections(bs, from, to, seen)[k], s),
    ensures
        well_placed(bs, s),
        from <= s.heading->0 < to,
    decreases to - from,
{
    let f = sections(bs, from, to, seen);
    if !bs[from].is_heading() {
        lemma_sections_placed(bs, from + 1, to, seen, k, s);
    } else {
        let end = closing_heading(bs, from + 1, to, bs[from].depth());
        lemma_closed_parts(bs, from, to);
        let children = sections(bs, from + 1, end, Set::empty());
        let rest = sections(bs, end, to, seen_after(seen, bs[from].title()));
        let top = heading_section(bs, from, unique(seen, bs[from].title()), children);
        assert(f == seq![top] + rest);
        if k > 0 {
            assert(f[k] == rest[k - 1]);
            lemma_sections_placed(bs, end, to, seen_after(seen, bs[from].title()), k - 1, s);
        } else if s != top {
            let c = choose|c: int|
                0 <= c < top.children.len() && occurs(#[trigger] top.children[c], s);
            lemma_sections_placed(bs, from + 1, end, Set::empty(), c, s);
        } else {
            lemma_sections_reach(bs, from + 1, end, Set::empty());
            lemma_next_heading_first(bs, from + 1);
            lemma_max_depth(s);
            reveal_with_fuel(SectionView::subtree_end, 2);
            assert(s.subtree_end() == end);
            assert(s.end <= end);
            assert forall|j: int| from < j < end && (#[trigger] bs[j]).is_heading() implies s.depth
                < bs[j].depth() <= s.max_depth() by {
                lemma_sections_depth(bs, from + 1, end, Set::empty(), j);
                let c = choose|c: int|
                    0 <= c < children.len() && bs[j].depth() <= (
                    #[trigger] children[c]).max_depth();
                assert(s.children[c].max_depth() <= s.max_depth());
            }
        }
    }
}

/// Every heading's directory lies in the block list as it should.
pub proof fn lemma_placed(bs: Seq<BlockView>, s: SectionView)
    requires
        occurs(tree_of(bs).root, s),
        s != tree_of(bs).root,
    ensures
        well_placed(bs, s),
        body_start(bs) <= s.heading->0,
{
    let root = tree_of(bs).root;
    let k = choose|k: int| 0 <= k < root.children.len() && occurs(#[trigger] root.children[k], s);
    lemma_sections_placed(bs, body_start(bs), bs.len() as int, Set::empty(), k, s);
}

/// No heading stands in the root's own content, so it ends before every heading of the body.
pub proof fn lemma_root_end(bs: Seq<BlockView>, i: int)
    requires
        body_start(bs) <= i < bs.len(),
        bs[i].is_heading(),
    ensures
        body_start(bs) <= tree_of(bs).root.end <= i,
{
    lemma_next_heading_first(bs, body_start(bs));
}

/// The own content of a section outside the subtree of `s` ends before that subtree, or behind it.
pub proof fn lemma_outside(bs: Seq<BlockView>, s: SectionView, other: SectionView)
    requires
        occurs(tree_of(bs).root, s),
        s.heading is Some,
        occurs(tree_of(bs).root, other),
        other.heading is Some ==> !(s.heading->0 <= other.heading->0 < s.subtree_end()),
    ensures
        0 <= other.end <= s.heading->0 || s.subtree_end() <= other.end <= bs.len(),
{
    lemma_placed(bs, s);
    lemma_root_end(bs, s.heading->0);
    if other != tree_of(bs).root {
        lemma_placed(bs, other);
        lemma_next_heading_first(bs, other.heading->0 + 1);
    }
}

/// The directory of the heading at `i`, as the tree holds it: its subdirectories are those of the
/// headings up to the end of its subtree.
pub open spec fn is_section_at(bs: Seq<BlockView>, i: int, s: SectionView) -> bool {
    s == heading_section(bs, i, s.name, sections(bs, i + 1, s.subtree_end(), Set::empty()))
}

proof fn lemma_sections_form(
    bs: Seq<BlockView>,
    from: int,
    to: int,
    seen: Set<Seq<char>>,
    k: int,
    s: SectionView,
)
    requires
        closed_range(bs, from, to),
        0 <= k < sections(bs, from, to, seen).len(),
        occurs(sections(bs, from, to, seen)[k], s),
    ensures
        is_section_at(bs, s.heading->0, s),
    decreases to - from,
{
    let f = sections(bs, from, to, seen);
    if !bs[from].is_heading() {
        lemma_sections_form(bs, from + 1, to, seen, k, s);
    } else {
        let end = closing_heading(bs, from + 1, to, bs[from].depth());
        lemma_closed_parts(bs, from, to);
        let children = sections(bs, from + 1, end, Set::empty());
        let rest = sections(bs, end, to, seen_after(seen, bs[from].title()));
        let top = heading_section(bs, from, unique(seen, bs[from].title()), children);
        assert(f == seq![top] + rest);
        if k > 0 {
            assert(f[k] == rest[k - 1]);
            lemma_sections_form(bs, end, to, seen_after(seen, bs[from].title()), k - 1, s);
        } else if s != top {
            let c = choose|c: int|
                0 <= c < top.children.len() && occurs(#[trigger] top.children[c], s);
            lemma_sections_form(bs, from + 1, end, Set::empty(), c, s);
        } else {
            lemma_sections_reach(bs, from + 1, end, Set::empty());
            reveal_with_fuel(SectionView::subtree_end, 2);
        }
    }
}

/// Every heading's directory holds the directories of the headings up to the end of its subtree.
pub proof fn lemma_section_form(bs: Seq<BlockView>, s: SectionView)
    requires
        occurs(tree_of(bs).root, s),
        s != tree_of(bs).root,
    ensures
        is_section_at(bs, s.heading->0, s),
{
    let root = tree_of(bs).root;
    let k = choose|k: int| 0 <= k < root.children.len() && occurs(#[trigger] root.children[k], s);
    lemma_sections_form(bs, body_start(bs), bs.len() as int, Set::empty(), k, s);
}

pub(crate) proof fn lemma_sections_have(
    bs: Seq<BlockView>,
    from: int,
    to: int,
    seen: Set<Seq<char>>,
    i: int,
) -> (r: (int, SectionView))
    requires
        closed_range(bs, from, to),
        from <= i < to,
        bs[i].is_heading(),
    ensures
        0 <= r.0 < sections(bs, from, to, seen).len(),
        occurs(sections(bs, from, to, seen)[r.0], r.1),
        r.1.heading == Some(i),
    decreases to - from,
{
    let f = sections(bs, from, to, seen);
    if !bs[from].is_heading() {
        lemma_sections_have(bs, from + 1, to, seen, i)
    } else {
        let end = closing_heading(bs, from + 1, to, bs[from].depth());
        lemma_closed_parts(bs, from, to);
        let children = sections(bs, from + 1, end, Set::empty());
        let rest = sections(bs, end, to, seen_after(seen, bs[from].title()));
        let top = heading_section(bs, from, unique(seen, bs[from].title()), children);
        assert(f == seq![top] + rest);
        if i == from {
            assert(occurs(f[0], top));
            (0, top)
        } else if i < end {
            let (c, s) = lemma_sections_have(bs, from + 1, end, Set::empty(), i);
            assert(occurs(top.children[c], s));
            assert(occurs(f[0], s));
            (0, s)
        } else {
            let (c, s) = lemma_sections_have(
                bs,
                end,
                to,
                seen_after(seen, bs[from].title()),
                i,
            );
            assert(f[c + 1] == rest[c]);
            (c + 1, s)
        }
    }
}

/// Every heading of the body is a directory.
pub proof fn law_every_heading_is_a_directory(bs: Seq<BlockView>, i: int)
    requires
        body_start(bs) <= i < bs.len(),
        bs[i].is_heading(),
    ensures
        exists|s: SectionView| #[trigger]
            occurs(tree_of(bs).root, s) && s.heading == Some(i),
{
    let (k, s) = lemma_sections_have(bs, body_start(bs), bs.len() as int, Set::empty(), i);
    assert(occurs(tree_of(bs).root.children[k], s));
    assert(occurs(tree_of(bs).root, s));
}

proof fn lemma_sections_unique(
    bs: Seq<BlockView>,
    from: int,
    to: int,
    seen: Set<Seq<char>>,
    k: int,
    s: SectionView,
    l: int,
    t: SectionView,
)
    requires
        closed_range(bs, from, to),
        0 <= k < sections(bs, from, to, seen).len(),
        occurs(sections(bs, from, to, seen)[k], s),
        0 <= l < sections(bs, from, to, seen).len(),
        occurs(sections(bs, from, to, seen)[l], t),
        s.heading == t.heading,
    ensures
        s == t,
    decreases to - from,
{
    let f = sections(bs, from, to, seen);
    if !bs[from].is_heading() {
        lemma_sections_unique(bs, from + 1, to, seen, k, s, l, t);
    } else {
        let end = closing_heading(bs, from + 1, to, bs[from].depth());
        lemma_closed_parts(bs, from, to);
        let seen2 = seen_after(seen, bs[from].title());
        let children = sections(bs, from + 1, end, Set::empty());
        let rest = sections(bs, end, to, seen2);
        let top = heading_section(bs, from, unique(seen, bs[from].title()), children);
        assert(f == seq![top] + rest);
        if k > 0 {
            assert(f[k] == rest[k - 1]);
            lemma_sections_placed(bs, end, to, seen2, k - 1, s);
        } else if s != top {
            let c = choose|c: int|
                0 <= c < top.children.len() && occurs(#[trigger] top.children[c], s);
            lemma_sections_placed(bs, from + 1, end, Set::empty(), c, s);
        }
        if l > 0 {
            assert(f[l] == rest[l - 1]);
            lemma_sections_placed(bs, end, to, seen2, l - 1, t);
        } else if t != top {
            let c = choose|c: int|
                0 <= c < top.children.len() && occurs(#[trigger] top.children[c], t);
            lemma_sections_placed(bs, from + 1, end, Set::empty(), c, t);
        }
        if k > 0 && l > 0 {
            lemma_sections_unique(bs, end, to, seen2, k - 1, s, l - 1, t);
        } else if k == 0 && l == 0 && s != top && t != top {
            let c = choose|c: int|
                0 <= c < top.children.len() && occurs(#[trigger] top.children[c], s);
            let d = choose|d: int|
                0 <= d < top.children.len() && occurs(#[trigger] top.children[d], t);
            lemma_sections_unique(bs, from + 1, end, Set::empty(), c, s, d, t);
        }
    }
}

/// No two directories stand for one heading.
pub proof fn law_a_heading_is_one_directory(bs: Seq<BlockView>, s: SectionView, t: SectionView)
    requires
        occurs(tree_of(bs).root, s),
        occurs(tree_of(bs).root, t),
        s.heading == t.heading,
    ensures
        s == t,
{
    let root = tree_of(bs).root;
    if s != root {
        lemma_placed(bs, s);
    }
    if t != root {
        lemma_placed(bs, t);
    }
    if s != root && t != root {
        let k = choose|k: int|
            0 <= k < root.children.len() && occurs(#[trigger] root.children[k], s);
        let l = choose|l: int|
            0 <= l < root.children.len() && occurs(#[trigger] root.children[l], t);
        lemma_sections_unique(bs, body_start(bs), bs.len() as int, Set::empty(), k, s, l, t);
    }
}

/// The last heading in `from..i`, if there is one.
proof fn lemma_heading_before(bs: Seq<BlockView>, from: int, i: int) -> (h: Option<int>)
    requires
        0 <= from <= i < bs.len(),
        !bs[i].is_heading(),
    ensures
        match h {
            Some(j) => from <= j < i && bs[j].is_heading() && i < next_heading(bs, j + 1),
            None => i < next_heading(bs, from),
        },
    decreases i - from,
{
    if from == i {
        lemma_next_heading_first(bs, i + 1);
        None
    } else {
        match lemma_heading_before(bs, from + 1, i) {
            Some(j) => Some(j),
            None => if bs[from].is_heading() {
                Some(from)
            } else {
                None
            },
        }
    }
}

/// Every block of the body that is not a heading is in the `content.md` of some directory: that of
/// the last heading before it, or the root.
pub proof fn law_every_block_has_a_home(bs: Seq<BlockView>, i: int)
    requires
        body_start(bs) <= i < bs.len(),
        !bs[i].is_heading(),
    ensures
        exists|s: SectionView| #[trigger] occurs(tree_of(bs).root, s) && s.start <= i < s.end,
{
    let root = tree_of(bs).root;
    match lemma_heading_before(bs, body_start(bs), i) {
        Some(j) => {
            law_every_heading_is_a_directory(bs, j);
            let s = choose|s: SectionView| #[trigger]
                occurs(tree_of(bs).root, s) && s.heading == Some(j);
            lemma_placed(bs, s);
        },
        None => {
            assert(occurs(root, root));
        },
    }
}

/// No block is in the `content.md` of two directories, and none that is a heading is in one.
pub proof fn law_no_block_has_two_homes(
    bs: Seq<BlockView>,
    i: int,
    s: SectionView,
    t: SectionView,
)
    requires
        occurs(tree_of(bs).root, s),
        occurs(tree_of(bs).root, t),
        s.start <= i < s.end,
        t.start <= i < t.end,
    ensures
        s == t,
        !bs[i].is_heading(),
{
    let root = tree_of(bs).root;
    lemma_next_heading_first(bs, body_start(bs));
    if s != root {
        lemma_placed(bs, s);
        lemma_next_heading_first(bs, s.heading->0 + 1);
    }
    if t != root {
        lemma_placed(bs, t);
        lemma_next_heading_first(bs, t.heading->0 + 1);
    }
    if s != root && t != root {
        assert(s.heading == t.heading) by {
            if s.heading->0 < t.heading->0 {
                assert(bs[t.heading->0].is_heading());
            } else if t.heading->0 < s.heading->0 {
                assert(bs[s.heading->0].is_heading());
            }
        }
        law_a_heading_is_one_directory(bs, s, t);
    } else if s != root {
        assert(bs[s.heading->0].is_heading());
    } else if t != root {
        assert(bs[t.heading->0].is_heading());
    }
}

proof fn lemma_sections_order(
    bs: Seq<BlockView>,
    from: int,
    to: int,
    seen: Set<Seq<char>>,
    k: int,
    l: int,
)
    requires
        closed_range(bs, from, to),
        0 <= k < l < sections(bs, from, to, seen).len(),
    ensures
        sections(bs, from, to, seen)[k].subtree_end() <= sections(
            bs,
            from,
            to,
            seen,
        )[l].heading->0,
    decreases to - from,
{
    let f = sections(bs, from, to, seen);
    if !bs[from].is_heading() {
        lemma_sections_order(bs, from + 1, to, seen, k, l);
    } else {
        let end = closing_heading(bs, from + 1, to, bs[from].depth());
        lemma_closed_parts(bs, from, to);
        let seen2 = seen_after(seen, bs[from].title());
        let children = sections(bs, from + 1, end, Set::empty());
        let rest = sections(bs, end, to, seen2);
        let top = heading_section(bs, from, unique(seen, bs[from].title()), children);
        assert(f == seq![top] + rest);
        assert(f[l] == rest[l - 1]);
        assert(occurs(rest[l - 1], rest[l - 1]));
        lemma_sections_placed(bs, end, to, seen2, l - 1, rest[l - 1]);
        if k == 0 {
            lemma_sections_reach(bs, from + 1, end, Set::empty());
            reveal_with_fuel(SectionView::subtree_end, 2);
        } else {
            assert(f[k] == rest[k - 1]);
            lemma_sections_order(bs, end, to, seen2, k - 1, l - 1);
        }
    }
}

/// Subdirectories come in the order of the document, one subtree behind the other, and below a
/// heading they stand for deeper headings.
pub proof fn law_subdirectories_are_deeper_and_in_order(bs: Seq<BlockView>, s: SectionView)
    requires
        occurs(tree_of(bs).root, s),
    ensures
        s != tree_of(bs).root ==> forall|k: int|
            0 <= k < s.children.len() ==> s.depth < (#[trigger] s.children[k]).depth,
        forall|k: int, l: int|
            0 <= k < l < s.children.len() ==> (#[trigger] s.children[k]).subtree_end() <= (
            #[trigger] s.children[l]).heading->0,
{
    let (from, to) = if s == tree_of(bs).root {
        (body_start(bs), bs.len() as int)
    } else {
        lemma_section_form(bs, s);
        lemma_placed(bs, s);
        (s.heading->0 + 1, s.subtree_end())
    };
    assert(closed_range(bs, from, to));
    if s != tree_of(bs).root {
        assert forall|k: int| 0 <= k < s.children.len() implies s.depth < (
        #[trigger] s.children[k]).depth by {
            assert(occurs(s.children[k], s.children[k]));
            lemma_sections_placed(bs, from, to, Set::empty(), k, s.children[k]);
        }
    }
    assert forall|k: int, l: int| 0 <= k < l < s.children.len() implies (
    #[trigger] s.children[k]).subtree_end() <= (#[trigger] s.children[l]).heading->0 by {
        lemma_sections_order(bs, from, to, Set::empty(), k, l);
    }
}

} // verus!
