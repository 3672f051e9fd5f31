//! On which lines blocks stand once a document was changed.
use vstd::prelude::*;

use crate::block::{parsed, BlockView};
use crate::document::{
    depth_below, depth_shift, inserted, new_heading, place_below, relocated, removed, reparented,
    replaced,
};
use crate::editing::{lemma_move_target, lemma_parent_place};
use crate::outline::{lemma_closing_heading_first, lemma_placed, occurs};
use crate::reflow::{
    end_line, line_below, moved, placed, pushed_below, reflowed, spliced_in,
};
use crate::section::{tree_of, SectionView};

verus! {

/// Whether `after` is the line `before` moved by `by`, as far as lines go.
pub open spec fn line_moved(before: usize, by: int, after: usize) -> bool {
    &&& 0 <= before + by <= usize::MAX ==> after == before + by
    &&& before + by < 0 ==> after == 0
    &&& before + by > usize::MAX ==> after == usize::MAX
}

/// Whether `after` is `before` with its lines moved by `by`: its columns and what it is stay.
pub open spec fn block_moved(before: BlockView, by: int, after: BlockView) -> bool {
    &&& after.content == before.content
    &&& before.span is None ==> after.span is None
    &&& before.span is Some ==> {
        &&& after.span is Some
        &&& line_moved(before.span->0.start_line, by, after.span->0.start_line)
        &&& line_moved(before.span->0.end_line, by, after.span->0.end_line)
        &&& after.span->0.start_column == before.span->0.start_column
        &&& after.span->0.end_column == before.span->0.end_column
    }
}

/// Whether `line` is the one below a blank line below a block that ends on `above`, as far as lines go.
pub open spec fn leaves_a_blank(above: usize, line: usize) -> bool {
    if above + 2 <= usize::MAX {
        line == above + 2
    } else {
        line == usize::MAX
    }
}

proof fn lemma_placed_prefix(bs: Seq<BlockView>, n: int)
    requires
        0 <= n <= bs.len(),
    ensures
        placed(bs).len() == bs.len(),
        placed(bs).take(n) == placed(bs.take(n)),
    decreases bs.len(),
{
    if n == bs.len() {
        assert(bs.take(n) =~= bs);
        if bs.len() > 0 {
            lemma_placed_prefix(bs.drop_last(), bs.len() - 1);
        }
        assert(placed(bs).take(n) =~= placed(bs));
    } else {
        lemma_placed_prefix(bs.drop_last(), n);
        assert(bs.drop_last().take(n) =~= bs.take(n));
        assert(placed(bs).take(n) =~= placed(bs.drop_last()).take(n));
    }
}

/// A block that has no position gets one: a single line below a blank line below the block before it,
/// or the first line. All others stay where they are.
pub proof fn law_where_new_blocks_stand(bs: Seq<BlockView>, i: int)
    requires
        0 <= i < bs.len(),
    ensures
        ({
            let p = placed(bs);
            &&& p.len() == bs.len()
            &&& p[i].content == bs[i].content
            &&& p[i].span is Some
            &&& bs[i].span is Some ==> p[i] == bs[i]
            &&& bs[i].span is None ==> {
                let s = p[i].span->0;
                &&& s.start_line == s.end_line
                &&& s.start_column == 1
                &&& s.end_column == 1
                &&& i == 0 ==> s.start_line == 1
                &&& i > 0 ==> p[i - 1].span is Some && leaves_a_blank(
                    p[i - 1].span->0.end_line,
                    s.start_line,
                )
            }
        }),
    decreases i,
{
    lemma_placed_prefix(bs, i + 1);
    let some = bs.take(i + 1);
    assert(placed(bs)[i] == placed(bs).take(i + 1)[i]);
    assert(some.drop_last() =~= bs.take(i));
    lemma_placed_prefix(bs, i);
    lemma_placed_prefix(bs.take(i), i);
    if i > 0 {
        law_where_new_blocks_stand(bs, i - 1);
        assert(placed(bs.take(i)).last() == placed(bs)[i - 1]) by {
            assert(placed(bs).take(i)[i - 1] == placed(bs)[i - 1]);
        }
    }
}

proof fn lemma_moved_by(bs: Seq<BlockView>, from: usize, to: usize, i: int)
    requires
        0 <= i < bs.len(),
    ensures
        block_moved(bs[i], to - from, moved(bs, from, to)[i]),
{
}

/// Whether the blocks of `after` stand where those of `bs` do once `start..end` was replaced by `p`.
/// Those before stay where they are. Those of `p` move together, so that the first is below a blank
/// line below them, or on the first line where no line is known. Those behind move together, so that
/// the first is below a blank line below what is in front of it, and stay where no line is known.
pub open spec fn lines_follow(
    bs: Seq<BlockView>,
    start: int,
    end: int,
    p: Seq<BlockView>,
    after: Seq<BlockView>,
) -> bool {
    let n = p.len();
    &&& after.len() == bs.len() - (end - start) + n
    &&& forall|i: int| 0 <= i < start ==> #[trigger] after[i] == bs[i]
    &&& n > 0 ==> {
        let first = after[start].span->0.start_line;
        &&& after[start].span is Some
        &&& start > 0 && bs[start - 1].span is Some ==> leaves_a_blank(
            bs[start - 1].span->0.end_line,
            first,
        )
        &&& start == 0 || bs[start - 1].span is None ==> first == 1
        &&& forall|i: int|
            start <= i < start + n ==> block_moved(
                p[i - start],
                first - p[0].span->0.start_line,
                #[trigger] after[i],
            )
    }
    &&& end < bs.len() ==> {
        let above = if start + n > 0 {
            after[start + n - 1].span
        } else {
            None
        };
        let first = after[start + n].span->0.start_line;
        &&& above is None || bs[end].span is None ==> forall|i: int|
            start + n <= i < after.len() ==> #[trigger] after[i] == bs[end + i - n - start]
        &&& above is Some && bs[end].span is Some ==> {
            &&& after[start + n].span is Some
            &&& leaves_a_blank(above->0.end_line, first)
            &&& forall|i: int|
                start + n <= i < after.len() ==> block_moved(
                    bs[end + i - n - start],
                    first - bs[end].span->0.start_line,
                    #[trigger] after[i],
                )
        }
    }
}

/// A splice leaves one blank line at either seam, and moves blocks together.
pub proof fn law_where_spliced_blocks_stand(
    bs: Seq<BlockView>,
    start: int,
    end: int,
    new: Seq<BlockView>,
)
    requires
        0 <= start <= end <= bs.len(),
    ensures
        lines_follow(bs, start, end, placed(new), reflowed(bs, start, end, new)),
{
    let after = reflowed(bs, start, end, new);
    let n = new.len() as int;
    let p = placed(new);
    lemma_placed_prefix(new, n);
    let left = bs.take(start);
    let middle = spliced_in(left, new);
    let right = bs.skip(end);
    let anchor = if middle.len() > 0 {
        end_line(middle)
    } else {
        end_line(left)
    };
    if n > 0 {
        law_where_new_blocks_stand(new, 0);
        law_where_new_blocks_stand(new, n - 1);
    }
    assert(middle.len() == n);
    if start > 0 {
        assert(left.last() == bs[start - 1]);
    }
    let tail = pushed_below(right, anchor);
    assert(tail.len() == right.len());
    assert forall|i: int| 0 <= i < start implies #[trigger] after[i] == bs[i] by {
        assert(after[i] == left[i]);
    }
    if n > 0 {
        let from = p[0].span->0.start_line;
        let to = line_below(end_line(left));
        assert(after[start] == middle[0]);
        lemma_moved_by(p, from, to, 0);
        assert forall|i: int| start <= i < start + n implies block_moved(
            p[i - start],
            after[start].span->0.start_line - from,
            #[trigger] after[i],
        ) by {
            assert(after[i] == middle[i - start]);
            lemma_moved_by(p, from, to, i - start);
        }
    }
    if end < bs.len() {
        assert(after[start + n] == tail[0]);
        assert(right[0] == bs[end]);
        if n > 0 {
            assert(after[start + n - 1] == middle.last());
        } else if start > 0 {
            assert(after[start - 1] == left.last());
        }
        assert forall|i: int| start + n <= i < after.len() implies #[trigger] after[i] == tail[i - n
            - start] && right[i - n - start] == bs[end + i - n - start] by {}
        if anchor is Some && bs[end].span is Some {
            let first = bs[end].span->0.start_line;
            let to = line_below(anchor);
            lemma_moved_by(right, first, to, 0);
            assert forall|i: int| start + n <= i < after.len() implies block_moved(
                bs[end + i - n - start],
                after[start + n].span->0.start_line - first,
                #[trigger] after[i],
            ) by {
                lemma_moved_by(right, first, to, i - n - start);
            }
        }
    }
}

/// Blocks that all have a position keep it.
pub proof fn law_known_positions_are_kept(bs: Seq<BlockView>)
    requires
        forall|i: int| 0 <= i < bs.len() ==> (#[trigger] bs[i]).span is Some,
    ensures
        placed(bs) == bs,
{
    lemma_placed_prefix(bs, 0);
    assert forall|i: int| 0 <= i < bs.len() implies placed(bs)[i] == bs[i] by {
        assert(bs[i].span is Some);
        law_where_new_blocks_stand(bs, i);
    }
    assert(placed(bs) =~= bs);
}

/// A heading that is inserted is a line of its own, with a blank line above and below it.
pub proof fn law_where_an_inserted_heading_stands(
    bs: Seq<BlockView>,
    parent: SectionView,
    name: Seq<char>,
)
    requires
        occurs(tree_of(bs).root, parent),
        inserted(bs, parent, name) is Ok,
    ensures
        exists|at: int, p: Seq<BlockView>|
            {
                &&& 0 <= at <= bs.len()
                &&& p.len() == 1
                &&& p[0].is_heading() && p[0].title() == name
                &&& p[0].span is Some
                &&& p[0].span->0.start_line == p[0].span->0.end_line
                &&& p[0].span->0.start_column == 1
                &&& p[0].span->0.end_column == 1
                &&& #[trigger] lines_follow(bs, at, at, p, inserted(bs, parent, name)->Ok_0)
            },
{
    let first = lemma_parent_place(bs, parent);
    let depth = depth_below(parent);
    lemma_closing_heading_first(bs, parent.end, bs.len() as int, depth);
    let at = place_below(bs, parent.end, depth);
    let new = seq![new_heading(depth, name)];
    law_where_spliced_blocks_stand(bs, at, at, new);
    law_where_new_blocks_stand(new, 0);
    assert(lines_follow(bs, at, at, placed(new), inserted(bs, parent, name)->Ok_0));
}

/// Where a heading is removed, what is behind it moves up, below a blank line.
pub proof fn law_where_blocks_stand_behind_a_removed_heading(
    bs: Seq<BlockView>,
    section: SectionView,
)
    requires
        section.heading is Some,
        0 <= section.heading->0 < bs.len(),
        removed(bs, section) is Ok,
    ensures
        lines_follow(
            bs,
            section.heading->0,
            section.heading->0 + 1,
            Seq::empty(),
            removed(bs, section)->Ok_0,
        ),
{
    let h = section.heading->0;
    law_where_spliced_blocks_stand(bs, h, h + 1, Seq::empty());
}

/// Blocks that are put in place of a section's own content stand together, with a blank line above and
/// below them.
pub proof fn law_where_new_content_stands(
    bs: Seq<BlockView>,
    start: int,
    end: int,
    text: Seq<char>,
)
    requires
        0 <= start <= end <= bs.len(),
        parsed(text) is Ok,
    ensures
        replaced(bs, start, end, text) is Ok,
        lines_follow(
            bs,
            start,
            end,
            placed(parsed(text)->Ok_0),
            replaced(bs, start, end, text)->Ok_0,
        ),
{
    law_where_spliced_blocks_stand(bs, start, end, parsed(text)->Ok_0);
}

/// A subtree that is moved leaves one blank line where it was, and has one above and below it where it
/// went; its own blocks keep their distances.
pub proof fn law_where_a_moved_section_stands(
    bs: Seq<BlockView>,
    section: SectionView,
    parent: SectionView,
    name: Seq<char>,
)
    requires
        occurs(tree_of(bs).root, section),
        section.heading is Some,
        occurs(tree_of(bs).root, parent),
        reparented(bs, section, parent, name) is Ok,
    ensures
        exists|rest: Seq<BlockView>, at: int, p: Seq<BlockView>|
            {
                &&& #[trigger] lines_follow(
                    bs,
                    section.heading->0,
                    section.subtree_end(),
                    Seq::empty(),
                    rest,
                )
                &&& 0 <= at <= rest.len()
                &&& p.len() == section.subtree_end() - section.heading->0
                &&& forall|i: int|
                    0 <= i < p.len() && bs[section.heading->0 + i].span is Some ==> (
                    #[trigger] p[i]).span == bs[section.heading->0 + i].span
                &&& #[trigger] lines_follow(
                    rest,
                    at,
                    at,
                    p,
                    reparented(bs, section, parent, name)->Ok_0,
                )
            },
{
    let start = section.heading->0;
    let end = section.subtree_end();
    lemma_placed(bs, section);
    let (end0, d) = lemma_move_target(bs, section, parent);
    let rest = reflowed(bs, start, end, Seq::empty());
    let depth = depth_below(parent);
    law_where_spliced_blocks_stand(bs, start, end, Seq::empty());
    lemma_closing_heading_first(rest, end0, rest.len() as int, depth);
    let at = place_below(rest, end0, depth);
    let taken = bs.subrange(start, end);
    let new = relocated(taken, depth_shift(section, parent), name);
    law_where_spliced_blocks_stand(rest, at, at, new);
    let p = placed(new);
    lemma_placed_prefix(new, 0);
    assert forall|i: int| 0 <= i < p.len() && bs[start + i].span is Some implies (
    #[trigger] p[i]).span == bs[start + i].span by {
        assert(taken[i] == bs[start + i]);
        assert(new[i].span == taken[i].span);
        law_where_new_blocks_stand(new, i);
    }
    assert(placed(Seq::<BlockView>::empty()) =~= Seq::empty());
    assert(lines_follow(bs, start, end, Seq::empty(), rest));
    assert(lines_follow(rest, at, at, p, reparented(bs, section, parent, name)->Ok_0));
}

} // verus!
