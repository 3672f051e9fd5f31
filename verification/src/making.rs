//! Edits leave the way to what stands before them as it was, so that a directory that was made is
//! found.
use vstd::prelude::*;

use crate::block::BlockView;
use crate::document::{depth_below, inserted, place_below, MAX_DEPTH};
use crate::editing::{
    law_inserted_heading_is_one_more_subdirectory, lemma_inserted_grafts, lemma_parent_place,
    one_more_child,
};
use crate::fs::lemma_found_child;
use crate::inode::{section_names, PathView};
use crate::mount::{dir_attr, lemma_child_index, lemma_found_occurs};
use crate::names::{seen_after, slug, unique};
use crate::naming::law_all_sibling_names_differ;
use crate::numbering::{in_step, law_synced_table_is_in_step};
use crate::outline::{
    closed_range, law_a_heading_is_one_directory, lemma_closed_parts, lemma_placed,
    lemma_sections_placed, occurs,
};
use crate::section::{
    body_start, child_index, closing_heading, find_below, heading_section, lemma_closing_heading,
    sections, tree_of, SectionView,
};
use crate::shifting::alike;
use crate::state::{FsView, NextView, Reply, StepView};
use crate::vfs::{Ino, Timestamp};
use crate::visibility::law_every_directory_has_numbers;

verus! {

/// Whether two documents are alike up to the heading at `h`.
pub open spec fn alike_up_to(bs: Seq<BlockView>, bs2: Seq<BlockView>, h: int) -> bool {
    &&& 0 <= h < bs.len()
    &&& h < bs2.len()
    &&& bs[h].is_heading()
    &&& forall|j: int| 0 <= j <= h ==> alike(#[trigger] bs[j], bs2[j])
}

/// A heading before `h` ends at the same place, or not before `h`.
proof fn lemma_alike_closing(
    bs: Seq<BlockView>,
    bs2: Seq<BlockView>,
    h: int,
    x: int,
    to: int,
    to2: int,
    depth: u8,
)
    requires
        alike_up_to(bs, bs2, h),
        0 <= x <= h + 1,
        h < to <= bs.len(),
        h < to2 <= bs2.len(),
    ensures
        ({
            let c = closing_heading(bs, x, to, depth);
            let c2 = closing_heading(bs2, x, to2, depth);
            if c <= h {
                c2 == c
            } else {
                h < c2 <= to2
            }
        }),
    decreases h + 1 - x,
{
    if x <= h {
        assert(alike(bs[x], bs2[x]));
        if !(bs[x].is_heading() && bs[x].depth() <= depth) {
            lemma_alike_closing(bs, bs2, h, x + 1, to, to2, depth);
        }
    } else {
        lemma_closing_heading(bs, x, to, depth);
        lemma_closing_heading(bs2, x, to2, depth);
    }
}

/// A path below a range that leads to the heading at `h` also does in a document that is alike up to
/// there.
proof fn lemma_alike_path(
    bs: Seq<BlockView>,
    bs2: Seq<BlockView>,
    h: int,
    x: int,
    to: int,
    to2: int,
    seen: Set<Seq<char>>,
    path: Seq<Seq<char>>,
)
    requires
        alike_up_to(bs, bs2, h),
        closed_range(bs, x, to),
        0 <= x <= h < to,
        h < to2 <= bs2.len(),
        path.len() > 0,
        ({
            let f = sections(bs, x, to, seen);
            let k = child_index(f, path[0]);
            &&& k is Some
            &&& find_below(f[k->0], path.drop_first()) is Some
            &&& (find_below(f[k->0], path.drop_first())->0).heading == Some(h)
        }),
    ensures
        ({
            let g = sections(bs2, x, to2, seen);
            let k = child_index(g, path[0]);
            &&& k is Some
            &&& find_below(g[k->0], path.drop_first()) is Some
            &&& (find_below(g[k->0], path.drop_first())->0).heading == Some(h)
        }),
    decreases to - x,
{
    assert(alike(bs[x], bs2[x]));
    if !bs[x].is_heading() {
        lemma_alike_path(bs, bs2, h, x + 1, to, to2, seen, path);
    } else {
        let depth = bs[x].depth();
        let title = bs[x].title();
        let seen2 = seen_after(seen, title);
        let c = closing_heading(bs, x + 1, to, depth);
        let c2 = closing_heading(bs2, x + 1, to2, depth);
        lemma_closed_parts(bs, x, to);
        lemma_alike_closing(bs, bs2, h, x + 1, to, to2, depth);
        let f = sections(bs, x, to, seen);
        let g = sections(bs2, x, to2, seen);
        let children = sections(bs, x + 1, c, Set::empty());
        let children2 = sections(bs2, x + 1, c2, Set::empty());
        let top = heading_section(bs, x, unique(seen, title), children);
        let top2 = heading_section(bs2, x, unique(seen, title), children2);
        let rest = sections(bs, c, to, seen2);
        let rest2 = sections(bs2, c2, to2, seen2);
        assert(f == seq![top] + rest);
        assert(g == seq![top2] + rest2);
        assert(f.drop_first() =~= rest);
        assert(g.drop_first() =~= rest2);
        lemma_child_index(f, path[0]);
        let k = child_index(f, path[0])->0;
        let s = find_below(f[k], path.drop_first())->0;
        lemma_found_occurs(f[k], path.drop_first());
        if k > 0 {
            assert(f[k] == rest[k - 1]);
            lemma_sections_placed(bs, c, to, seen2, k - 1, s);
            assert(c <= h);
            assert(child_index(rest, path[0]) == Some(k - 1));
            lemma_alike_path(bs, bs2, h, c, to, to2, seen2, path);
            let l = child_index(rest2, path[0])->0;
            lemma_child_index(rest2, path[0]);
            assert(child_index(g, path[0]) == Some(l + 1));
            assert(g[l + 1] == rest2[l]);
        } else if path.len() == 1 {
            assert(s == top);
        } else {
            let inner = path.drop_first();
            lemma_child_index(children, inner[0]);
            let m = child_index(children, inner[0])->0;
            lemma_found_occurs(children[m], inner.drop_first());
            lemma_sections_placed(bs, x + 1, c, Set::empty(), m, s);
            assert(x < h < c);
            lemma_alike_path(bs, bs2, h, x + 1, c, c2, Set::empty(), inner);
        }
    }
}

/// A path that leads to a heading still leads to it, whatever changes behind the heading.
pub proof fn law_changes_behind_a_heading_keep_its_path(
    bs: Seq<BlockView>,
    bs2: Seq<BlockView>,
    h: int,
    path: Seq<Seq<char>>,
)
    requires
        alike_up_to(bs, bs2, h),
        body_start(bs2) == body_start(bs),
        find_below(tree_of(bs).root, path) is Some,
        (find_below(tree_of(bs).root, path)->0).heading == Some(h),
    ensures
        find_below(tree_of(bs2).root, path) is Some,
        (find_below(tree_of(bs2).root, path)->0).heading == Some(h),
{
    let root = tree_of(bs).root;
    lemma_found_occurs(root, path);
    lemma_placed(bs, find_below(root, path)->0);
    lemma_alike_path(
        bs,
        bs2,
        h,
        body_start(bs),
        bs.len() as int,
        bs2.len() as int,
        Set::empty(),
        path,
    );
}

/// A heading that was inserted below the section at `path` is the directory at `path` and its name,
/// where the name is that of a directory. It is empty, and all other subdirectories of that section
/// stay.
pub proof fn law_inserted_heading_is_found(
    bs: Seq<BlockView>,
    path: Seq<Seq<char>>,
    name: Seq<char>,
)
    requires
        find_below(tree_of(bs).root, path) is Some,
        inserted(bs, find_below(tree_of(bs).root, path)->0, name) is Ok,
        slug(name) == name,
    ensures
        ({
            let parent = find_below(tree_of(bs).root, path)->0;
            let at = place_below(bs, parent.end, depth_below(parent));
            let after = inserted(bs, parent, name)->Ok_0;
            let s = find_below(tree_of(after).root, path);
            let found = find_below(tree_of(after).root, path.push(name));
            &&& s is Some
            &&& found is Some
            &&& one_more_child(parent, s->0, child_index((s->0).children, name)->0, at)
            &&& (found->0).heading == Some(at)
            &&& (found->0).start == (found->0).end
            &&& (found->0).children.len() == 0
        }),
{
    let root = tree_of(bs).root;
    let parent = find_below(root, path)->0;
    let at = place_below(bs, parent.end, depth_below(parent));
    let after = inserted(bs, parent, name)->Ok_0;
    let root2 = tree_of(after).root;
    lemma_found_occurs(root, path);
    let first = lemma_parent_place(bs, parent);
    lemma_inserted_grafts(bs, parent, name);
    law_inserted_heading_is_one_more_subdirectory(bs, parent, name);
    let (s, k) = choose|s: SectionView, k: int|
        #![trigger occurs(root2, s), one_more_child(parent, s, k, at)]
        {
            &&& occurs(root2, s)
            &&& s.heading == parent.heading
            &&& one_more_child(parent, s, k, at)
            &&& s.children[k].name == slug(name)
            &&& s.children[k].depth == parent.depth + 1
            &&& s.children[k].start == s.children[k].end
            &&& s.children[k].children.len() == 0
        };
    match parent.heading {
        None => {
            if path.len() > 0 {
                lemma_child_index(root.children, path[0]);
                let k = child_index(root.children, path[0])->0;
                lemma_found_occurs(root.children[k], path.drop_first());
                lemma_sections_placed(
                    bs,
                    body_start(bs),
                    bs.len() as int,
                    Set::empty(),
                    k,
                    parent,
                );
            }
            assert(occurs(root2, root2));
            law_a_heading_is_one_directory(after, root2, s);
            assert(find_below(root2, path) == Some(s));
        },
        Some(h) => {
            law_changes_behind_a_heading_keep_its_path(bs, after, h, path);
            let found = find_below(root2, path)->0;
            lemma_found_occurs(root2, path);
            law_a_heading_is_one_directory(after, found, s);
        },
    }
    lemma_found_child(root2, path, name);
    lemma_child_index(s.children, name);
    law_all_sibling_names_differ(after, s);
    let l = child_index(s.children, name)->0;
    assert(section_names(s.children)[k] == name);
    assert(section_names(s.children)[l] == name);
    assert(k == l);
}

/// Making a directory is answered with the new directory: it is found under its name, with an empty
/// `content.md` and no subdirectory, and all other subdirectories of its parent stay. The name must be
/// that of a directory; otherwise the heading is made, but its directory goes by the slug.
pub proof fn law_made_directory_is_found(
    fs: FsView,
    parent: Ino,
    name: Seq<char>,
    file: usize,
    path: Seq<Seq<char>>,
    now: Timestamp,
)
    requires
        fs.wf(),
        !fs.readonly,
        !fs.dirs.contains_key(parent),
        fs.dir_path(parent) == Some((file, path)),
        fs.files[file as int].section(path) is Some,
        (fs.files[file as int].section(path)->0).depth < MAX_DEPTH,
        fs.files[file as int].child_section(path, name) is None,
        slug(name) == name,
    ensures
        ({
            let (after, step) = fs.mkdir(parent, name, now);
            let f = after.files[file as int];
            let next = NextView::NewDir { path: path.push(name) };
            &&& step == (StepView::Save { file, next })
            &&& f.inodes.index.inos.contains_key(PathView::Dir(path.push(name)))
            &&& after.resumed(file, next, now) == (
                after,
                StepView::Finished(
                    Ok(
                        Reply::Entry(
                            f.inodes.index.inos[PathView::Dir(path.push(name))],
                            dir_attr(f.inodes.index.inos[PathView::Dir(path.push(name))], now),
                        ),
                    ),
                ),
            )
            &&& f.section(path.push(name)) is Some
            &&& (f.section(path.push(name))->0).start == (f.section(path.push(name))->0).end
            &&& (f.section(path.push(name))->0).children.len() == 0
            &&& f.section(path) is Some
            &&& one_more_child(
                fs.files[file as int].section(path)->0,
                f.section(path)->0,
                child_index((f.section(path)->0).children, name)->0,
                (f.section(path.push(name))->0).heading->0,
            )
        }),
{
    let f = fs.files[file as int];
    assert(fs.owner[parent] < fs.files.len());
    assert(f.shown is None);
    assert(in_step(f.inodes, f.tree));
    let s = f.section(path)->0;
    law_inserted_heading_is_found(f.document, path, name);
    let document = inserted(f.document, s, name)->Ok_0;
    law_synced_table_is_in_step(f.inodes, fs.next, tree_of(document));
    let after = fs.mkdir(parent, name, now).0;
    assert(after == fs.rebuilt(file, document));
    let g = after.files[file as int];
    law_every_directory_has_numbers(g.inodes, g.tree, path.push(name));
}

} // verus!
