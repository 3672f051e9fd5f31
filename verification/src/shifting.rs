//! What replacing blocks does to the directory tree.
//!
//! Where blocks that are no headings are put in place of others, the tree stays the same, up to the
//! positions of what stands behind. New headings become directories.
use vstd::prelude::*;

use crate::block::{BlockView, ContentView};
use crate::names::{seen_after, unique};
use crate::outline::{
    law_every_heading_is_a_directory, lemma_next_heading_first, lemma_placed, occurs,
};
use crate::reflow::{end_line, moved, placed, pushed_below, reflowed, settled, spliced_in};
use crate::section::{
    body_start, closing_heading, front_matter_of, heading_section, lemma_closing_heading,
    lemma_next_heading, next_heading, sections, tree_of, SectionView, TreeView,
};

verus! {

/// What blocks are, apart from where they stand.
pub open spec fn contents(bs: Seq<BlockView>) -> Seq<ContentView> {
    Seq::new(bs.len(), |i: int| bs[i].content)
}

proof fn lemma_placed_contents(bs: Seq<BlockView>)
    ensures
        contents(placed(bs)) == contents(bs),
    decreases bs.len(),
{
    if bs.len() > 0 {
        lemma_placed_contents(bs.drop_last());
        let before = placed(bs.drop_last());
        assert(before.len() == contents(before).len());
        assert(contents(placed(bs)) =~= contents(before).push(bs.last().content));
        assert(contents(bs) =~= contents(bs.drop_last()).push(bs.last().content));
    } else {
        assert(contents(placed(bs)) =~= contents(bs));
    }
}

proof fn lemma_moved_contents(bs: Seq<BlockView>, from: usize, to: usize)
    ensures
        contents(moved(bs, from, to)) == contents(bs),
{
    assert(contents(moved(bs, from, to)) =~= contents(bs));
}

proof fn lemma_settled_contents(bs: Seq<BlockView>, above: Option<usize>)
    ensures
        contents(settled(bs, above)) == contents(bs),
        contents(pushed_below(bs, above)) == contents(bs),
{
    if crate::reflow::start_line(bs) is Some {
        lemma_moved_contents(
            bs,
            crate::reflow::start_line(bs)->0,
            crate::reflow::line_below(above),
        );
    }
}

/// A splice changes nothing but the blocks it replaces, apart from where the others stand.
pub proof fn law_splice_keeps_all_other_blocks(
    bs: Seq<BlockView>,
    start: int,
    end: int,
    new: Seq<BlockView>,
)
    requires
        0 <= start <= end <= bs.len(),
    ensures
        contents(reflowed(bs, start, end, new)) == contents(bs.take(start)) + contents(new)
            + contents(bs.skip(end)),
        reflowed(bs, start, end, new).take(start) == bs.take(start),
{
    let left = bs.take(start);
    let middle = spliced_in(left, new);
    lemma_placed_contents(new);
    lemma_settled_contents(placed(new), end_line(left));
    assert(contents(middle) == contents(new));
    assert(middle.len() == contents(middle).len());
    let anchor = if middle.len() > 0 {
        end_line(middle)
    } else {
        end_line(left)
    };
    let right = pushed_below(bs.skip(end), anchor);
    lemma_settled_contents(bs.skip(end), anchor);
    assert(right.len() == contents(right).len());
    assert(contents(left + middle + right) =~= contents(left) + contents(middle) + contents(
        right,
    ));
    assert(reflowed(bs, start, end, new).take(start) =~= left);
}

/// Whether two blocks are alike to the directory tree.
pub open spec fn alike(a: BlockView, b: BlockView) -> bool {
    &&& a.is_heading() == b.is_heading()
    &&& a.is_heading() ==> a.depth() == b.depth() && a.title() == b.title()
}

/// Whether `bs2` is `bs` with `m` blocks in place of `a..e`, none of all these a heading.
pub open spec fn respliced(bs: Seq<BlockView>, bs2: Seq<BlockView>, a: int, e: int, m: int) -> bool {
    &&& 0 <= a <= e <= bs.len()
    &&& 0 <= m
    &&& bs2.len() == bs.len() - (e - a) + m
    &&& forall|j: int| 0 <= j < a ==> alike(#[trigger] bs[j], bs2[j])
    &&& forall|j: int| e <= j < bs.len() ==> alike(#[trigger] bs[j], bs2[j + m - (e - a)])
    &&& forall|j: int| a <= j < e ==> !(#[trigger] bs[j]).is_heading()
    &&& forall|j: int| a <= j < a + m ==> !(#[trigger] bs2[j]).is_heading()
}

/// Where the index `x` is found once everything from `e` on has moved by `d`.
pub open spec fn moved_index(x: int, e: int, d: int) -> int {
    if x >= e {
        x + d
    } else {
        x
    }
}

/// `s`, once everything from `e` on has moved by `d`.
pub open spec fn shifted(s: SectionView, e: int, d: int) -> SectionView
    decreases s,
{
    let heading = match s.heading {
        Some(h) => Some(moved_index(h, e, d)),
        None => None,
    };
    SectionView {
        name: s.name,
        depth: s.depth,
        heading,
        start: match heading {
            Some(h) => h + 1,
            None => s.start,
        },
        end: moved_index(s.end, e, d),
        children: Seq::new(
            s.children.len(),
            |k: int|
                if 0 <= k < s.children.len() {
                    shifted(s.children[k], e, d)
                } else {
                    arbitrary()
                },
        ),
    }
}

/// All of `f`, once everything from `e` on has moved by `d`.
pub open spec fn all_shifted(f: Seq<SectionView>, e: int, d: int) -> Seq<SectionView> {
    Seq::new(f.len(), |k: int| shifted(f[k], e, d))
}

/// Whether a range of blocks may end at `x`: at a heading, or at the end of the document.
spec fn edge(bs: Seq<BlockView>, x: int) -> bool {
    x == bs.len() || (0 <= x < bs.len() && bs[x].is_heading())
}

/// Blocks that are no headings do not matter to where the next heading is.
pub proof fn lemma_skip_next(bs: Seq<BlockView>, x: int, y: int)
    requires
        0 <= x <= y <= bs.len(),
        forall|j: int| x <= j < y ==> !(#[trigger] bs[j]).is_heading(),
    ensures
        next_heading(bs, x) == next_heading(bs, y),
    decreases y - x,
{
    if x < y {
        lemma_skip_next(bs, x + 1, y);
    }
}

proof fn lemma_skip_closing(bs: Seq<BlockView>, x: int, y: int, to: int, depth: u8)
    requires
        0 <= x <= y <= to <= bs.len(),
        forall|j: int| x <= j < y ==> !(#[trigger] bs[j]).is_heading(),
    ensures
        closing_heading(bs, x, to, depth) == closing_heading(bs, y, to, depth),
    decreases y - x,
{
    if x < y {
        lemma_skip_closing(bs, x + 1, y, to, depth);
    }
}

proof fn lemma_skip_sections(
    bs: Seq<BlockView>,
    x: int,
    y: int,
    to: int,
    seen: Set<Seq<char>>,
)
    requires
        0 <= x <= y <= to <= bs.len(),
        forall|j: int| x <= j < y ==> !(#[trigger] bs[j]).is_heading(),
    ensures
        sections(bs, x, to, seen) == sections(bs, y, to, seen),
    decreases y - x,
{
    if x < y {
        lemma_skip_sections(bs, x + 1, y, to, seen);
    }
}

proof fn lemma_shift_next(bs: Seq<BlockView>, bs2: Seq<BlockView>, a: int, e: int, m: int, x: int)
    requires
        respliced(bs, bs2, a, e, m),
        0 <= x <= a || e <= x <= bs.len(),
    ensures
        next_heading(bs2, moved_index(x, e, m - (e - a))) == moved_index(
            next_heading(bs, x),
            e,
            m - (e - a),
        ),
        x <= a ==> next_heading(bs2, x) == moved_index(next_heading(bs, x), e, m - (e - a)),
    decreases bs.len() - x, e - x,
{
    let d = m - (e - a);
    if x < a {
        assert(alike(bs[x], bs2[x]));
        if !bs[x].is_heading() {
            lemma_shift_next(bs, bs2, a, e, m, x + 1);
        }
    } else if x == a && a < e {
        lemma_skip_next(bs, a, e);
        lemma_shift_next(bs, bs2, a, e, m, e);
        lemma_skip_next(bs2, a, a + m);
    } else {
        if x < bs.len() {
            assert(alike(bs[x], bs2[x + d]));
            lemma_next_heading(bs, x);
            if !bs[x].is_heading() {
                lemma_shift_next(bs, bs2, a, e, m, x + 1);
            }
        }
        if x == a {
            lemma_skip_next(bs2, a, a + m);
        }
    }
}

proof fn lemma_shift_closing(
    bs: Seq<BlockView>,
    bs2: Seq<BlockView>,
    a: int,
    e: int,
    m: int,
    x: int,
    to: int,
    depth: u8,
)
    requires
        respliced(bs, bs2, a, e, m),
        0 <= x <= a || e <= x,
        x <= to,
        edge(bs, to),
    ensures
        closing_heading(
            bs2,
            moved_index(x, e, m - (e - a)),
            moved_index(to, e, m - (e - a)),
            depth,
        ) == moved_index(closing_heading(bs, x, to, depth), e, m - (e - a)),
        x <= a ==> closing_heading(bs2, x, moved_index(to, e, m - (e - a)), depth) == moved_index(
            closing_heading(bs, x, to, depth),
            e,
            m - (e - a),
        ),
        edge(bs, closing_heading(bs, x, to, depth)),
    decreases to - x, e - x,
{
    let d = m - (e - a);
    if x >= to {
        if x == a && a == e {
            lemma_skip_closing(bs2, a, a + m, moved_index(to, e, d), depth);
        }
    } else if x < a {
        assert(alike(bs[x], bs2[x]));
        if !(bs[x].is_heading() && bs[x].depth() <= depth) {
            lemma_shift_closing(bs, bs2, a, e, m, x + 1, to, depth);
        }
    } else if x == a && a < e {
        lemma_skip_closing(bs, a, e, to, depth);
        lemma_shift_closing(bs, bs2, a, e, m, e, to, depth);
        lemma_skip_closing(bs2, a, a + m, moved_index(to, e, d), depth);
    } else {
        assert(alike(bs[x], bs2[x + d]));
        lemma_closing_heading(bs, x, to, depth);
        if !(bs[x].is_heading() && bs[x].depth() <= depth) {
            lemma_shift_closing(bs, bs2, a, e, m, x + 1, to, depth);
        }
        if x == a {
            lemma_skip_closing(bs2, a, a + m, moved_index(to, e, d), depth);
        }
    }
}

proof fn lemma_shift_sections(
    bs: Seq<BlockView>,
    bs2: Seq<BlockView>,
    a: int,
    e: int,
    m: int,
    x: int,
    to: int,
    seen: Set<Seq<char>>,
)
    requires
        respliced(bs, bs2, a, e, m),
        0 <= x <= a || e <= x,
        x <= to,
        edge(bs, to),
    ensures
        sections(
            bs2,
            moved_index(x, e, m - (e - a)),
            moved_index(to, e, m - (e - a)),
            seen,
        ) == all_shifted(sections(bs, x, to, seen), e, m - (e - a)),
        x <= a ==> sections(bs2, x, moved_index(to, e, m - (e - a)), seen) == all_shifted(
            sections(bs, x, to, seen),
            e,
            m - (e - a),
        ),
    decreases to - x, e - x,
{
    let d = m - (e - a);
    let to2 = moved_index(to, e, d);
    if x >= to {
        assert(all_shifted(sections(bs, x, to, seen), e, d) =~= Seq::empty());
        if x == a && a == e {
            lemma_skip_sections(bs2, a, a + m, to2, seen);
        }
    } else if x == a && a < e {
        lemma_skip_sections(bs, a, e, to, seen);
        lemma_shift_sections(bs, bs2, a, e, m, e, to, seen);
        lemma_skip_sections(bs2, a, a + m, to2, seen);
    } else {
        let x2 = moved_index(x, e, d);
        assert(alike(bs[x], bs2[x2]));
        if !bs[x].is_heading() {
            lemma_shift_sections(bs, bs2, a, e, m, x + 1, to, seen);
        } else {
            let depth = bs[x].depth();
            let title = bs[x].title();
            let end = closing_heading(bs, x + 1, to, depth);
            lemma_closing_heading(bs, x + 1, to, depth);
            lemma_shift_closing(bs, bs2, a, e, m, x + 1, to, depth);
            lemma_shift_sections(bs, bs2, a, e, m, x + 1, end, Set::empty());
            lemma_shift_sections(bs, bs2, a, e, m, end, to, seen_after(seen, title));
            lemma_shift_next(bs, bs2, a, e, m, x + 1);
            let children = sections(bs, x + 1, end, Set::empty());
            let rest = sections(bs, end, to, seen_after(seen, title));
            let top = heading_section(bs, x, unique(seen, title), children);
            let top2 = heading_section(
                bs2,
                x2,
                unique(seen, title),
                all_shifted(children, e, d),
            );
            assert(shifted(top, e, d).children =~= all_shifted(children, e, d));
            assert(shifted(top, e, d) == top2);
            assert(all_shifted(seq![top] + rest, e, d) =~= seq![top2] + all_shifted(rest, e, d));
        }
        if x == a {
            lemma_skip_sections(bs2, a, a + m, to2, seen);
        }
    }
}

/// A tree once everything from `e` on has moved by `d`.
pub open spec fn shifted_tree(t: TreeView, e: int, d: int) -> TreeView {
    TreeView { root: shifted(t.root, e, d), ..t }
}

/// Putting blocks that are no headings in place of others leaves the directory tree as it is, up to
/// the positions of what stands behind: no name, no depth and no nesting changes.
pub proof fn law_tree_without_new_headings(
    bs: Seq<BlockView>,
    bs2: Seq<BlockView>,
    a: int,
    e: int,
    m: int,
)
    requires
        respliced(bs, bs2, a, e, m),
        front_matter_of(bs2) == front_matter_of(bs),
        body_start(bs) <= a,
    ensures
        tree_of(bs2) == shifted_tree(tree_of(bs), e, m - (e - a)),
{
    let d = m - (e - a);
    let n = bs.len() as int;
    lemma_shift_sections(bs, bs2, a, e, m, body_start(bs), n, Set::empty());
    lemma_shift_next(bs, bs2, a, e, m, body_start(bs));
    assert(tree_of(bs2).root.children == all_shifted(tree_of(bs).root.children, e, d));
    assert(shifted(tree_of(bs).root, e, d).children =~= tree_of(bs2).root.children);
}

/// Whether a text that is put in place of a section's own content has no headings, nor front matter
/// at the start of the document.
pub open spec fn plain_content(new: Seq<BlockView>, start: int) -> bool {
    &&& forall|j: int| 0 <= j < new.len() ==> !(#[trigger] new[j]).is_heading()
    &&& start == 0 ==> front_matter_of(new) is None
}

/// The own content of a section holds no heading.
proof fn lemma_own_content_plain(bs: Seq<BlockView>, s: SectionView)
    requires
        occurs(tree_of(bs).root, s),
    ensures
        body_start(bs) <= s.start <= s.end <= bs.len(),
        s.end == next_heading(bs, s.start),
        forall|j: int| s.start <= j < s.end ==> !(#[trigger] bs[j]).is_heading(),
        s.end < bs.len() ==> bs[s.end].is_heading(),
{
    if s != tree_of(bs).root {
        lemma_placed(bs, s);
    }
    lemma_next_heading_first(bs, s.start);
}

/// Replacing a section's own content by text without headings leaves the directory tree as it is,
/// up to positions, and every other block too; what was put in place is the section's own content.
pub proof fn law_replaced_content_leaves_the_tree(
    bs: Seq<BlockView>,
    s: SectionView,
    new: Seq<BlockView>,
)
    requires
        occurs(tree_of(bs).root, s),
        plain_content(new, s.start),
    ensures
        ({
            let bs2 = reflowed(bs, s.start, s.end, new);
            let d = new.len() - (s.end - s.start);
            let s2 = shifted(s, s.end, d);
            &&& tree_of(bs2) == shifted_tree(tree_of(bs), s.end, d)
            &&& contents(bs2) == contents(bs.take(s.start)) + contents(new) + contents(
                bs.skip(s.end),
            )
            &&& s2.start == s.start
            &&& s2.end == s.start + new.len()
            &&& bs2.subrange(s2.start, s2.end) == spliced_in(bs.take(s.start), new)
        }),
{
    let bs2 = reflowed(bs, s.start, s.end, new);
    let m = new.len() as int;
    let d = m - (s.end - s.start);
    lemma_own_content_plain(bs, s);
    law_splice_keeps_all_other_blocks(bs, s.start, s.end, new);
    let c2 = contents(bs2);
    let left = contents(bs.take(s.start));
    let right = contents(bs.skip(s.end));
    assert(bs2.len() == c2.len());
    assert forall|j: int| 0 <= j < s.start implies alike(#[trigger] bs[j], bs2[j]) by {
        assert(c2[j] == left[j]);
    }
    assert forall|j: int| s.end <= j < bs.len() implies alike(#[trigger] bs[j], bs2[j + d]) by {
        assert(c2[j + d] == right[j - s.end]);
    }
    assert forall|j: int| s.start <= j < s.start + m implies !(
    #[trigger] bs2[j]).is_heading() by {
        assert(c2[j] == contents(new)[j - s.start]);
        assert(!new[j - s.start].is_heading());
    }
    assert(front_matter_of(bs2) == front_matter_of(bs)) by {
        if s.start > 0 {
            assert(c2[0] == left[0]);
        } else {
            assert(front_matter_of(bs) is None);
            if m > 0 {
                assert(c2[0] == contents(new)[0]);
            } else if bs2.len() > 0 {
                assert(c2[0] == right[0]);
                assert(bs[s.end].is_heading());
            }
        }
    }
    law_tree_without_new_headings(bs, bs2, s.start, s.end, m);
    if s.heading is Some {
        lemma_placed(bs, s);
    }
    let middle = spliced_in(bs.take(s.start), new);
    lemma_placed_contents(new);
    lemma_settled_contents(placed(new), end_line(bs.take(s.start)));
    assert(middle.len() == contents(middle).len());
    assert(bs2.subrange(s.start, s.start + m) =~= middle);
}

/// Replacing a section's own content by what is no front matter keeps the front matter.
pub proof fn lemma_body_start_kept(bs: Seq<BlockView>, s: SectionView, new: Seq<BlockView>)
    requires
        occurs(tree_of(bs).root, s),
        s.start == 0 ==> front_matter_of(new) is None,
    ensures
        body_start(reflowed(bs, s.start, s.end, new)) == body_start(bs),
{
    let bs2 = reflowed(bs, s.start, s.end, new);
    lemma_own_content_plain(bs, s);
    law_splice_keeps_all_other_blocks(bs, s.start, s.end, new);
    let c2 = contents(bs2);
    let left = contents(bs.take(s.start));
    let right = contents(bs.skip(s.end));
    assert(bs2.len() == c2.len());
    if s.start > 0 {
        assert(c2[0] == left[0]);
    } else if new.len() > 0 {
        assert(c2[0] == contents(new)[0]);
    } else if bs2.len() > 0 {
        assert(c2[0] == right[0]);
        assert(bs[s.end].is_heading());
    }
}

/// How many blocks a splice puts in place.
pub proof fn lemma_spliced_in_len(left: Seq<BlockView>, new: Seq<BlockView>)
    ensures
        spliced_in(left, new).len() == new.len(),
{
    lemma_placed_contents(new);
    lemma_settled_contents(placed(new), end_line(left));
    assert(contents(spliced_in(left, new)).len() == new.len());
}

/// Whatever text replaces a section's own content, the section's own content is then what stands
/// before the first heading in it, and each of its headings is a directory.
pub proof fn law_written_headings_become_directories(
    bs: Seq<BlockView>,
    s: SectionView,
    new: Seq<BlockView>,
)
    requires
        occurs(tree_of(bs).root, s),
        s.start == 0 ==> front_matter_of(new) is None,
    ensures
        exists|t: SectionView| #[trigger]
            occurs(tree_of(reflowed(bs, s.start, s.end, new)).root, t) && t.heading == s.heading
                && t.start == s.start && t.end == s.start + next_heading(new, 0),
        forall|i: int|
            0 <= i < new.len() && (#[trigger] new[i]).is_heading() ==> exists|t: SectionView| #[trigger]
                occurs(tree_of(reflowed(bs, s.start, s.end, new)).root, t) && t.heading == Some(
                    s.start + i,
                ),
{
    let bs2 = reflowed(bs, s.start, s.end, new);
    let root2 = tree_of(bs2).root;
    let k = next_heading(new, 0);
    lemma_own_content_plain(bs, s);
    law_splice_keeps_all_other_blocks(bs, s.start, s.end, new);
    lemma_next_heading_first(new, 0);
    let c2 = contents(bs2);
    let left = contents(bs.take(s.start));
    let right = contents(bs.skip(s.end));
    assert(bs2.len() == c2.len());
    assert forall|j: int| 0 <= j < new.len() implies (#[trigger] new[j]).is_heading()
        == bs2[s.start + j].is_heading() by {
        assert(c2[s.start + j] == contents(new)[j]);
    }
    lemma_body_start_kept(bs, s, new);
    assert(next_heading(bs2, s.start) == s.start + k) by {
        assert forall|j: int| s.start <= j < s.start + k implies !(#[trigger] bs2[j]).is_heading() by {
            assert(!new[j - s.start].is_heading());
        }
        lemma_skip_next(bs2, s.start, s.start + k);
        if s.start + k < bs2.len() {
            if k < new.len() {
                assert(new[k].is_heading());
            } else {
                assert(c2[s.start + k] == right[0]);
                assert(bs[s.end].is_heading());
            }
        }
    }
    if s == tree_of(bs).root {
        assert(occurs(root2, root2));
    } else {
        lemma_placed(bs, s);
        let h = s.heading->0;
        assert(c2[h] == left[h]);
        assert(bs2[h].is_heading());
        law_every_heading_is_a_directory(bs2, h);
        let t = choose|t: SectionView| #[trigger] occurs(root2, t) && t.heading == Some(h);
        lemma_placed(bs2, t);
        assert(t.start == s.start && t.end == s.start + k);
    }
    assert forall|i: int| 0 <= i < new.len() && (#[trigger] new[i]).is_heading() implies exists|
        t: SectionView,
    | #[trigger] occurs(root2, t) && t.heading == Some(s.start + i) by {
        assert(bs2[s.start + i].is_heading());
        law_every_heading_is_a_directory(bs2, s.start + i);
    }
}

} // verus!
