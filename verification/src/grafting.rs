//! What a subtree that is put among the headings of a document does to the directory tree.
use vstd::prelude::*;

use crate::block::BlockView;
use crate::inode::section_names;
use crate::names::{is_first_free, lemma_first_free, lemma_only_first_free, seen_after, slug, unique};
use crate::outline::lemma_closing_heading_first;
use crate::section::{
    closing_heading, heading_section, lemma_closing_heading, next_heading, sections, SectionView,
};
use crate::shifting::{alike, all_shifted, shifted};

verus! {

/// Whether `bs2` is `bs` with the `m` blocks of one subtree in front of the block at `a`, which is a
/// heading unless it is the end. The heading of the subtree is `depth` deep.
pub open spec fn grafted(bs: Seq<BlockView>, bs2: Seq<BlockView>, a: int, m: int, depth: u8) -> bool {
    &&& 0 <= a <= bs.len()
    &&& m >= 1
    &&& bs2.len() == bs.len() + m
    &&& forall|j: int| 0 <= j < a ==> alike(#[trigger] bs[j], bs2[j])
    &&& forall|j: int| a <= j < bs.len() ==> alike(#[trigger] bs[j], bs2[j + m])
    &&& a < bs.len() ==> bs[a].is_heading()
    &&& bs2[a].is_heading()
    &&& bs2[a].depth() == depth
    &&& forall|j: int|
        a < j < a + m && (#[trigger] bs2[j]).is_heading() ==> depth < bs2[j].depth()
}

/// Whether all headings in `x..a` are more than `depth` deep, and the one at `a`, if there is one, is
/// not.
pub open spec fn deeper_up_to(bs: Seq<BlockView>, x: int, a: int, depth: u8) -> bool {
    &&& 0 <= x <= a <= bs.len()
    &&& forall|j: int| x <= j < a && (#[trigger] bs[j]).is_heading() ==> depth < bs[j].depth()
    &&& a < bs.len() ==> bs[a].is_heading() && bs[a].depth() <= depth
}

/// The names `seen` together with those of `f`.
pub open spec fn seen_through(seen: Set<Seq<char>>, f: Seq<SectionView>) -> Set<Seq<char>> {
    seen.union(section_names(f).to_set())
}

proof fn lemma_moved_closing(
    bs: Seq<BlockView>,
    bs2: Seq<BlockView>,
    a: int,
    m: int,
    d: u8,
    x: int,
    to: int,
    depth: u8,
)
    requires
        grafted(bs, bs2, a, m, d),
        a <= x <= to <= bs.len(),
    ensures
        closing_heading(bs2, x + m, to + m, depth) == closing_heading(bs, x, to, depth) + m,
    decreases to - x,
{
    if x < to {
        assert(alike(bs[x], bs2[x + m]));
        if !(bs[x].is_heading() && bs[x].depth() <= depth) {
            lemma_moved_closing(bs, bs2, a, m, d, x + 1, to, depth);
        }
    }
}

proof fn lemma_moved_next(bs: Seq<BlockView>, bs2: Seq<BlockView>, a: int, m: int, d: u8, x: int)
    requires
        grafted(bs, bs2, a, m, d),
        a <= x <= bs.len(),
    ensures
        next_heading(bs2, x + m) == next_heading(bs, x) + m,
        next_heading(bs, x) >= x,
    decreases bs.len() - x,
{
    if x < bs.len() {
        assert(alike(bs[x], bs2[x + m]));
        if !bs[x].is_heading() {
            lemma_moved_next(bs, bs2, a, m, d, x + 1);
        }
    }
}

/// The directories behind the subtree have moved.
pub proof fn lemma_moved_sections(
    bs: Seq<BlockView>,
    bs2: Seq<BlockView>,
    a: int,
    m: int,
    d: u8,
    x: int,
    to: int,
    seen: Set<Seq<char>>,
)
    requires
        grafted(bs, bs2, a, m, d),
        a <= x <= to <= bs.len(),
    ensures
        sections(bs2, x + m, to + m, seen) == all_shifted(sections(bs, x, to, seen), a, m),
    decreases to - x,
{
    if x >= to {
        assert(all_shifted(sections(bs, x, to, seen), a, m) =~= Seq::empty());
    } else {
        assert(alike(bs[x], bs2[x + m]));
        if !bs[x].is_heading() {
            lemma_moved_sections(bs, bs2, a, m, d, x + 1, to, seen);
        } else {
            let depth = bs[x].depth();
            let title = bs[x].title();
            let end = closing_heading(bs, x + 1, to, depth);
            lemma_closing_heading(bs, x + 1, to, depth);
            lemma_moved_closing(bs, bs2, a, m, d, x + 1, to, depth);
            lemma_moved_next(bs, bs2, a, m, d, x + 1);
            lemma_moved_sections(bs, bs2, a, m, d, x + 1, end, Set::empty());
            lemma_moved_sections(bs, bs2, a, m, d, end, to, seen_after(seen, title));
            let children = sections(bs, x + 1, end, Set::empty());
            let rest = sections(bs, end, to, seen_after(seen, title));
            let top = heading_section(bs, x, unique(seen, title), children);
            let top2 = heading_section(
                bs2,
                x + m,
                unique(seen, title),
                all_shifted(children, a, m),
            );
            assert(shifted(top, a, m).children =~= all_shifted(children, a, m));
            assert(shifted(top, a, m) == top2);
            assert(all_shifted(seq![top] + rest, a, m) =~= seq![top2] + all_shifted(rest, a, m));
        }
    }
}

proof fn lemma_same_closing(
    bs: Seq<BlockView>,
    bs2: Seq<BlockView>,
    a: int,
    m: int,
    d: u8,
    x: int,
    to: int,
    depth: u8,
)
    requires
        grafted(bs, bs2, a, m, d),
        0 <= x <= to <= a,
    ensures
        closing_heading(bs2, x, to, depth) == closing_heading(bs, x, to, depth),
    decreases to - x,
{
    if x < to {
        assert(alike(bs[x], bs2[x]));
        lemma_same_closing(bs, bs2, a, m, d, x + 1, to, depth);
    }
}

proof fn lemma_same_next(bs: Seq<BlockView>, bs2: Seq<BlockView>, a: int, m: int, d: u8, x: int)
    requires
        grafted(bs, bs2, a, m, d),
        0 <= x <= a,
    ensures
        next_heading(bs2, x) == next_heading(bs, x),
    decreases a - x,
{
    if x < a {
        assert(alike(bs[x], bs2[x]));
        lemma_same_next(bs, bs2, a, m, d, x + 1);
    }
}

/// The directories before the subtree stay.
pub(crate) proof fn lemma_same_sections(
    bs: Seq<BlockView>,
    bs2: Seq<BlockView>,
    a: int,
    m: int,
    d: u8,
    x: int,
    to: int,
    seen: Set<Seq<char>>,
)
    requires
        grafted(bs, bs2, a, m, d),
        0 <= x <= to <= a,
    ensures
        sections(bs2, x, to, seen) == sections(bs, x, to, seen),
    decreases to - x,
{
    if x < to {
        assert(alike(bs[x], bs2[x]));
        if !bs[x].is_heading() {
            lemma_same_sections(bs, bs2, a, m, d, x + 1, to, seen);
        } else {
            let end = closing_heading(bs, x + 1, to, bs[x].depth());
            lemma_closing_heading(bs, x + 1, to, bs[x].depth());
            lemma_same_closing(bs, bs2, a, m, d, x + 1, to, bs[x].depth());
            lemma_same_next(bs, bs2, a, m, d, x + 1);
            lemma_same_sections(bs, bs2, a, m, d, x + 1, end, Set::empty());
            lemma_same_sections(bs, bs2, a, m, d, end, to, seen_after(seen, bs[x].title()));
        }
    }
}

proof fn lemma_split_closing(bs: Seq<BlockView>, x: int, a: int, to: int, depth: u8)
    requires
        0 <= x <= a <= to <= bs.len(),
        a < to ==> bs[a].is_heading() && bs[a].depth() <= depth,
    ensures
        closing_heading(bs, x, to, depth) == closing_heading(bs, x, a, depth),
    decreases a - x,
{
    if x < a {
        lemma_split_closing(bs, x + 1, a, to, depth);
    }
}

/// A range falls apart in front of a heading that is less deep than all before it.
pub proof fn lemma_split_sections(
    bs: Seq<BlockView>,
    x: int,
    a: int,
    to: int,
    depth: u8,
    seen: Set<Seq<char>>,
)
    requires
        deeper_up_to(bs, x, a, depth),
        a <= to <= bs.len(),
    ensures
        sections(bs, x, to, seen) == sections(bs, x, a, seen) + sections(
            bs,
            a,
            to,
            seen_through(seen, sections(bs, x, a, seen)),
        ),
    decreases a - x,
{
    let pre = sections(bs, x, a, seen);
    if x >= a {
        assert(section_names(pre) =~= Seq::empty());
        assert(seen_through(seen, pre) =~= seen);
        assert(pre + sections(bs, a, to, seen) =~= sections(bs, a, to, seen));
    } else if !bs[x].is_heading() {
        lemma_split_sections(bs, x + 1, a, to, depth, seen);
    } else {
        let title = bs[x].title();
        let seen2 = seen_after(seen, title);
        let end = closing_heading(bs, x + 1, a, bs[x].depth());
        lemma_closing_heading(bs, x + 1, a, bs[x].depth());
        lemma_split_closing(bs, x + 1, a, to, bs[x].depth());
        lemma_split_sections(bs, end, a, to, depth, seen2);
        let top = heading_section(
            bs,
            x,
            unique(seen, title),
            sections(bs, x + 1, end, Set::empty()),
        );
        let rest = sections(bs, end, a, seen2);
        assert(pre == seq![top] + rest);
        assert(seen_through(seen2, rest) =~= seen_through(seen, pre)) by {
            lemma_names_through(seen, top, rest);
        }
        let post = sections(bs, a, to, seen_through(seen, pre));
        assert(seq![top] + (rest + post) =~= pre + post);
    }
}

proof fn lemma_names_through(seen: Set<Seq<char>>, top: SectionView, rest: Seq<SectionView>)
    ensures
        seen_through(seen.insert(top.name), rest) == seen_through(seen, seq![top] + rest),
{
    let all = section_names(seq![top] + rest);
    let names = section_names(rest);
    assert(all =~= seq![top.name] + names);
    assert forall|n: Seq<char>|
        seen_through(seen.insert(top.name), rest).contains(n) == #[trigger] seen_through(
            seen,
            seq![top] + rest,
        ).contains(n) by {
        if names.contains(n) {
            let i = choose|i: int| 0 <= i < names.len() && names[i] == n;
            assert(all[i + 1] == n);
        }
        if all.contains(n) {
            let i = choose|i: int| 0 <= i < all.len() && all[i] == n;
            if i > 0 {
                assert(names[i - 1] == n);
            }
        }
        assert(all[0] == top.name);
    }
    assert(seen_through(seen.insert(top.name), rest) =~= seen_through(seen, seq![top] + rest));
}

/// The directories of a range with a grafted subtree: those before it, the subtree, and those behind.
pub proof fn lemma_graft_level(
    bs: Seq<BlockView>,
    bs2: Seq<BlockView>,
    a: int,
    m: int,
    d: u8,
    x: int,
    to2: int,
    seen: Set<Seq<char>>,
)
    requires
        grafted(bs, bs2, a, m, d),
        deeper_up_to(bs, x, a, d),
        a + m <= to2 <= bs2.len(),
    ensures
        ({
            let pre = sections(bs, x, a, seen);
            let seen2 = seen_through(seen, pre);
            let new = heading_section(
                bs2,
                a,
                unique(seen2, bs2[a].title()),
                sections(bs2, a + 1, a + m, Set::empty()),
            );
            sections(bs2, x, to2, seen) == pre + (seq![new] + sections(
                bs2,
                a + m,
                to2,
                seen_after(seen2, bs2[a].title()),
            ))
        }),
{
    assert forall|j: int| x <= j < a && (#[trigger] bs2[j]).is_heading() implies d
        < bs2[j].depth() by {
        assert(alike(bs[j], bs2[j]));
    }
    lemma_split_sections(bs2, x, a, to2, d, seen);
    lemma_same_sections(bs, bs2, a, m, d, x, a, seen);
    if a < bs.len() {
        assert(alike(bs[a], bs2[a + m]));
    }
    lemma_split_closing(bs2, a + 1, a + m, to2, d);
    lemma_closing_heading_first(bs2, a + 1, a + m, d);
}

/// A title gets the same name, whether or not another name was given out.
pub(crate) proof fn lemma_unique_without(seen: Set<Seq<char>>, extra: Seq<char>, title: Seq<char>)
    requires
        seen.finite(),
        unique(seen, title) != extra,
    ensures
        unique(seen.insert(extra), title) == unique(seen, title),
{
    let base = slug(title);
    if seen.contains(base) {
        lemma_first_free(seen, base, 2);
        let n = choose|n: nat| is_first_free(seen, base, n);
        assert(is_first_free(seen.insert(extra), base, n));
        let k = choose|k: nat| is_first_free(seen.insert(extra), base, k);
        lemma_only_first_free(seen.insert(extra), base, k, n);
    }
}

/// Siblings keep their names where another one that none of them has was given out.
pub proof fn lemma_sections_without(
    bs: Seq<BlockView>,
    x: int,
    to: int,
    seen: Set<Seq<char>>,
    extra: Seq<char>,
)
    requires
        0 <= x <= to <= bs.len(),
        seen.finite(),
        !section_names(sections(bs, x, to, seen)).contains(extra),
    ensures
        sections(bs, x, to, seen.insert(extra)) == sections(bs, x, to, seen),
    decreases to - x,
{
    if x < to {
        if !bs[x].is_heading() {
            lemma_sections_without(bs, x + 1, to, seen, extra);
        } else {
            let title = bs[x].title();
            let end = closing_heading(bs, x + 1, to, bs[x].depth());
            lemma_closing_heading(bs, x + 1, to, bs[x].depth());
            let f = sections(bs, x, to, seen);
            let rest = sections(bs, end, to, seen_after(seen, title));
            assert(section_names(f)[0] == unique(seen, title));
            lemma_unique_without(seen, extra, title);
            assert(!section_names(rest).contains(extra)) by {
                if section_names(rest).contains(extra) {
                    let i = choose|i: int|
                        0 <= i < section_names(rest).len() && section_names(rest)[i] == extra;
                    assert(f[i + 1] == rest[i]);
                    assert(section_names(f)[i + 1] == extra);
                }
            }
            lemma_sections_without(bs, end, to, seen_after(seen, title), extra);
            assert(seen_after(seen.insert(extra), title) =~= seen_after(seen, title).insert(extra));
        }
    }
}

} // verus!
