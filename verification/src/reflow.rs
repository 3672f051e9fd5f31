//! Line numbers of spliced blocks.
//!
//! The renderer infers blank lines, and with them lists, tables and paragraphs, from the line
//! numbers of neighbouring blocks. A splice therefore moves blocks only as a whole: the new blocks
//! by one distance, the blocks behind them by another, so that a single blank line stands at either
//! seam.
use vstd::prelude::*;

use crate::block::{Block, BlockView, Span};
use crate::model::{group_views, views};

verus! {

/// The line below a blank line below `line`.
pub open spec fn two_below(line: usize) -> usize {
    if line + 2 <= usize::MAX {
        (line + 2) as usize
    } else {
        usize::MAX
    }
}

/// `line`, moved as far as from `from` to `to`, and kept between 0 and `usize::MAX`.
pub open spec fn moved_line(line: usize, from: usize, to: usize) -> usize {
    let target = line + to - from;
    if target < 0 {
        0
    } else if target > usize::MAX {
        usize::MAX
    } else {
        target as usize
    }
}

/// `b` with its lines moved as far as from `from` to `to`.
pub open spec fn moved_block(b: BlockView, from: usize, to: usize) -> BlockView {
    match b.span {
        Some(s) => BlockView {
            span: Some(
                Span {
                    start_line: moved_line(s.start_line, from, to),
                    end_line: moved_line(s.end_line, from, to),
                    ..s
                },
            ),
            ..b
        },
        None => b,
    }
}

/// All of `bs`, moved as far as from `from` to `to`.
pub open spec fn moved(bs: Seq<BlockView>, from: usize, to: usize) -> Seq<BlockView> {
    Seq::new(bs.len(), |i: int| moved_block(bs[i], from, to))
}

/// The line on which the last of `bs` ends, if it is known.
pub open spec fn end_line(bs: Seq<BlockView>) -> Option<usize> {
    if bs.len() > 0 && bs.last().span is Some {
        Some(bs.last().span->0.end_line)
    } else {
        None
    }
}

/// The line on which the first of `bs` starts, if it is known.
pub open spec fn start_line(bs: Seq<BlockView>) -> Option<usize> {
    if bs.len() > 0 && bs[0].span is Some {
        Some(bs[0].span->0.start_line)
    } else {
        None
    }
}

/// Where a block goes that follows text ending on `above`: below a blank line, or on the first line
/// where nothing is known to stand above.
pub open spec fn line_below(above: Option<usize>) -> usize {
    match above {
        Some(line) => two_below(line),
        None => 1,
    }
}

/// `bs`, with a position for each block that has none: a single line below the block before it.
pub open spec fn placed(bs: Seq<BlockView>) -> Seq<BlockView>
    decreases bs.len(),
{
    if bs.len() == 0 {
        bs
    } else {
        let before = placed(bs.drop_last());
        before.push(placed_block(bs.last(), line_below(end_line(before))))
    }
}

/// `b`, on `line` if it has no position.
pub open spec fn placed_block(b: BlockView, line: usize) -> BlockView {
    if b.span is Some {
        b
    } else {
        BlockView {
            span: Some(
                Span { start_line: line, start_column: 1, end_line: line, end_column: 1 },
            ),
            ..b
        }
    }
}

/// `bs`, moved so that it starts below text that ends on `above`.
pub open spec fn settled(bs: Seq<BlockView>, above: Option<usize>) -> Seq<BlockView> {
    match start_line(bs) {
        Some(first) => moved(bs, first, line_below(above)),
        None => bs,
    }
}

/// `bs`, moved so that it starts below text that ends on `above`, if that line is known.
pub open spec fn pushed_below(bs: Seq<BlockView>, above: Option<usize>) -> Seq<BlockView> {
    if above is Some {
        settled(bs, above)
    } else {
        bs
    }
}

/// The new blocks of a splice behind `left`.
pub open spec fn spliced_in(left: Seq<BlockView>, new: Seq<BlockView>) -> Seq<BlockView> {
    settled(placed(new), end_line(left))
}

/// `bs` with `start..end` replaced by `new`: what stands before stays as it is, `new` starts below
/// it, and what stands behind starts below `new`.
pub open spec fn reflowed(bs: Seq<BlockView>, start: int, end: int, new: Seq<BlockView>) -> Seq<
    BlockView,
> {
    let left = bs.take(start);
    let middle = spliced_in(left, new);
    let anchor = if middle.len() > 0 {
        end_line(middle)
    } else {
        end_line(left)
    };
    left + middle + pushed_below(bs.skip(end), anchor)
}

fn line_two_below(line: usize) -> (r: usize)
    ensures
        r == two_below(line),
{
    line.saturating_add(2)
}

fn move_line(line: usize, from: usize, to: usize) -> (r: usize)
    ensures
        r == moved_line(line, from, to),
{
    if to >= from {
        line.saturating_add(to - from)
    } else {
        line.saturating_sub(from - to)
    }
}

/// Moves the lines of all `blocks` as far as from `from` to `to`.
pub fn shift_top_level_positions(blocks: &mut Vec<Block>, from: usize, to: usize)
    ensures
        views(final(blocks)@) == moved(views(old(blocks)@), from, to),
{
    let ghost before = views(blocks@);
    let n = blocks.len();
    let mut i: usize = 0;
    while i < n
        invariant
            n == blocks@.len() == before.len(),
            i <= n,
            forall|j: int| 0 <= j < i ==> #[trigger] blocks@[j]@ == moved_block(before[j], from, to),
            forall|j: int| i <= j < n ==> #[trigger] blocks@[j]@ == before[j],
        decreases n - i,
    {
        let ghost blocks_before = blocks@;
        assert(blocks@[i as int]@ == before[i as int]);
        if let Some(span) = blocks[i].span {
            let moved_span = Span {
                start_line: move_line(span.start_line, from, to),
                start_column: span.start_column,
                end_line: move_line(span.end_line, from, to),
                end_column: span.end_column,
            };
            blocks[i].span = Some(moved_span);
        }
        assert(forall|j: int| 0 <= j < n && j != i ==> blocks@[j] == blocks_before[j]);
        assert(blocks@[i as int]@ == moved_block(before[i as int], from, to));
        i += 1;
    }
    assert(views(blocks@) =~= moved(before, from, to));
}

/// Gives a position to each block that has none.
pub fn normalize_missing_positions(blocks: &mut Vec<Block>)
    ensures
        views(final(blocks)@) == placed(views(old(blocks)@)),
{
    let ghost before = views(blocks@);
    let n = blocks.len();
    let mut above: Option<usize> = None;
    let mut i: usize = 0;
    while i < n
        invariant
            n == blocks@.len() == before.len(),
            i <= n,
            views(blocks@.take(i as int)) == placed(before.take(i as int)),
            above == end_line(placed(before.take(i as int))),
            forall|j: int| i <= j < n ==> #[trigger] blocks@[j]@ == before[j],
        decreases n - i,
    {
        let ghost blocks_before = blocks@;
        let line = match above {
            Some(l) => line_two_below(l),
            None => 1,
        };
        assert(blocks@[i as int]@ == before[i as int]);
        if blocks[i].span.is_none() {
            blocks[i].span = Some(
                Span { start_line: line, start_column: 1, end_line: line, end_column: 1 },
            );
        }
        above = match blocks[i].span {
            Some(span) => Some(span.end_line),
            None => None,
        };
        proof {
            assert(forall|j: int| 0 <= j < n && j != i ==> blocks@[j] == blocks_before[j]);
            assert(blocks@[i as int]@ == placed_block(before[i as int], line));
            assert(before.take(i + 1).drop_last() =~= before.take(i as int));
            assert(before.take(i + 1).last() == before[i as int]);
            assert(blocks@.take(i + 1) =~= blocks@.take(i as int).push(blocks@[i as int]));
            assert(blocks@.take(i as int) =~= blocks_before.take(i as int));
            assert(views(blocks@.take(i + 1)) =~= views(blocks@.take(i as int)).push(
                blocks@[i as int]@,
            ));
        }
        i += 1;
    }
    assert(blocks@.take(n as int) =~= blocks@);
    assert(before.take(n as int) =~= before);
}

/// Moves `blocks` so that they start below text that ends on `above`.
fn settle(blocks: &mut Vec<Block>, above: Option<usize>)
    ensures
        views(final(blocks)@) == settled(views(old(blocks)@), above),
{
    if blocks.len() > 0 {
        if let Some(span) = blocks[0].span {
            let to = match above {
                Some(l) => line_two_below(l),
                None => 1,
            };
            shift_top_level_positions(blocks, span.start_line, to);
        }
    }
}

fn last_line(blocks: &Vec<Block>) -> (r: Option<usize>)
    ensures
        r == end_line(views(blocks@)),
{
    let n = blocks.len();
    if n == 0 {
        return None;
    }
    match blocks[n - 1].span {
        Some(span) => Some(span.end_line),
        None => None,
    }
}

/// Replaces the blocks `start..end` by `new_blocks`, touching line numbers only at the two seams,
/// and returns the blocks that were taken out.
pub fn splice_with_reflow(
    blocks: &mut Vec<Block>,
    start: usize,
    end: usize,
    new_blocks: Vec<Block>,
) -> (removed: Vec<Block>)
    requires
        start <= end <= old(blocks)@.len(),
    ensures
        views(final(blocks)@) == reflowed(
            views(old(blocks)@),
            start as int,
            end as int,
            views(new_blocks@),
        ),
        removed@ == old(blocks)@.subrange(start as int, end as int),
{
    broadcast use group_views;

    let ghost bs = views(blocks@);
    let mut tail = blocks.split_off(end);
    let removed = blocks.split_off(start);
    let mut middle = new_blocks;
    normalize_missing_positions(&mut middle);
    let above = last_line(blocks);
    settle(&mut middle, above);
    let anchor = if middle.len() > 0 {
        last_line(&middle)
    } else {
        above
    };
    if anchor.is_some() {
        settle(&mut tail, anchor);
    }
    blocks.append(&mut middle);
    blocks.append(&mut tail);
    removed
}

/// Whether a document is short enough for its line numbers to be counted: no line that a splice
/// could move reaches the limit.
pub open spec fn countable(bs: Seq<BlockView>, limit: nat) -> bool {
    forall|i: int|
        0 <= i < bs.len() && (#[trigger] bs[i]).span is Some ==> bs[i].span->0.start_line + limit
            <= usize::MAX && bs[i].span->0.end_line + limit <= usize::MAX
}

/// A splice leaves exactly one blank line between the blocks before it and the new blocks, and
/// between those and the blocks behind.
pub proof fn law_splice_leaves_one_blank_line(
    bs: Seq<BlockView>,
    start: int,
    end: int,
    new: Seq<BlockView>,
)
    requires
        0 < start <= end < bs.len(),
        new.len() > 0,
        bs[start - 1].span is Some,
        bs[start - 1].span->0.end_line + 2 <= usize::MAX,
        bs[end].span is Some,
        end_line(spliced_in(bs.take(start), new))->0 + 2 <= usize::MAX,
    ensures
        ({
            let after = reflowed(bs, start, end, new);
            let n = start + new.len();
            &&& after[start - 1] == bs[start - 1]
            &&& after[start].span is Some
            &&& after[start].span->0.start_line == bs[start - 1].span->0.end_line + 2
            &&& after[n - 1].span is Some
            &&& after[n].span is Some
            &&& after[n].span->0.start_line == after[n - 1].span->0.end_line + 2
        }),
{
    lemma_placed_len(new);
    let left = bs.take(start);
    assert(left.last() == bs[start - 1]);
    let middle = spliced_in(left, new);
    let right = bs.skip(end);
    let after = reflowed(bs, start, end, new);
    let n = start + new.len();
    assert(middle.len() == new.len());
    assert(placed(new)[0].span is Some);
    assert(placed(new)[new.len() - 1].span is Some);
    assert(after[start] == middle[0]);
    assert(after[n - 1] == middle.last());
    assert(right[0] == bs[end]);
    assert(after[n] == pushed_below(right, end_line(middle))[0]);
}

proof fn lemma_placed_len(bs: Seq<BlockView>)
    ensures
        placed(bs).len() == bs.len(),
        forall|i: int| 0 <= i < bs.len() ==> (#[trigger] placed(bs)[i]).span is Some,
    decreases bs.len(),
{
    if bs.len() > 0 {
        lemma_placed_len(bs.drop_last());
        let before = placed(bs.drop_last());
        assert forall|i: int| 0 <= i < bs.len() implies (#[trigger] placed(bs)[i]).span is Some by {
            if i < bs.len() - 1 {
                assert(placed(bs)[i] == before[i]);
            }
        }
    }
}

/// Blocks are moved as a whole: the lines between them stay what they were, and so do their columns.
pub proof fn law_moved_blocks_keep_their_distances(
    bs: Seq<BlockView>,
    from: usize,
    to: usize,
    i: int,
    j: int,
)
    requires
        0 <= i < bs.len(),
        0 <= j < bs.len(),
        bs[i].span is Some,
        bs[j].span is Some,
        from <= bs[i].span->0.end_line,
        from <= bs[j].span->0.start_line,
        countable(bs, to as nat),
    ensures
        moved(bs, from, to)[i].span is Some,
        moved(bs, from, to)[j].span is Some,
        moved(bs, from, to)[j].span->0.start_line - moved(bs, from, to)[i].span->0.end_line
            == bs[j].span->0.start_line - bs[i].span->0.end_line,
        moved(bs, from, to)[i].span->0.start_column == bs[i].span->0.start_column,
        moved(bs, from, to)[i].span->0.end_column == bs[i].span->0.end_column,
        moved(bs, from, to)[i].content == bs[i].content,
{
}

} // verus!
