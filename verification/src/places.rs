//! Every mounted file is reached from the root of the mount.
use vstd::prelude::*;

use crate::guarantees::one_file_changed;
use crate::inode::{empty_table, next_ino_after, ROOT_INO};
use crate::mount::{shown_tree, SourceView};
use crate::names::{seen_after, unique};
use crate::numbering::law_synced_table_is_in_step;
use crate::state::{
    bare_mount, leaves_of, mount_of, roots_of, super_dir_at, super_dir_below, with_all_unplaced,
    with_unplaced, FsView, StepView,
};
use crate::supers::{
    deeper_leaves, empty_dir, files_named, laid_out, leaves_size, lemma_deeper_smaller,
    lemma_laid_out_fresh, lemma_other_smaller, lemma_with_files_dirs, other_leaves, with_child,
    with_files, Layout, SuperView,
};
use crate::uniqueness::{lemma_all_unplaced_next, numbers_apart};
use crate::vfs::Ino;

verus! {

/// Whether `ino` is one of these entries.
pub open spec fn lists(children: Seq<(Seq<char>, Ino)>, ino: Ino) -> bool {
    exists|k: int| 0 <= k < children.len() && (#[trigger] children[k]).1 == ino
}

/// Whether `ino` is an entry of the directory `parent`.
pub open spec fn is_listed(dirs: Map<Ino, SuperView>, parent: Ino, ino: Ino) -> bool {
    dirs.contains_key(parent) && lists(dirs[parent].children, ino)
}

/// Whether the directory `d` is an entry of the directory above it, which was made before it.
pub open spec fn dir_placed(dirs: Map<Ino, SuperView>, d: Ino) -> bool {
    dirs[d].parent < d && is_listed(dirs, dirs[d].parent, d)
}

/// Whether the file at `i` is an entry of the directory above it.
pub open spec fn file_placed(fs: FsView, i: int) -> bool {
    &&& fs.file_parents.contains_key(i as u64)
    &&& is_listed(fs.dirs, fs.file_parents[i as u64], fs.files[i].inodes.shadow.dir)
}

/// Whether there is a root, and every other directory is an entry of the directory above it.
pub open spec fn dirs_placed(dirs: Map<Ino, SuperView>) -> bool {
    &&& dirs.contains_key(ROOT_INO)
    &&& forall|d: Ino| #[trigger] dirs.contains_key(d) && d != ROOT_INO ==> dir_placed(dirs, d)
}

/// Whether every file, and every directory above the files but the root, is an entry of the
/// directory above it. As that was made earlier, the root is reached from everywhere.
pub open spec fn all_placed(fs: FsView) -> bool {
    &&& dirs_placed(fs.dirs)
    &&& forall|i: int| 0 <= i < fs.files.len() ==> #[trigger] file_placed(fs, i)
}

/// The directories of a layout, where the one at hand has the number `at_hand`.
pub open spec fn with_at_hand(layout: Layout, at_hand: Ino) -> Map<Ino, SuperView> {
    layout.dirs.insert(
        at_hand,
        SuperView { parent: 0, children: layout.children, seen: layout.seen },
    )
}

/// Whether a file is an entry of the directory that a layout says it is in.
pub open spec fn leaf_placed(layout: Layout, at_hand: Ino, roots: Seq<Ino>, file: usize) -> bool {
    &&& layout.file_parents.contains_key(file as u64)
    &&& is_listed(
        with_at_hand(layout, at_hand),
        layout.file_parents[file as u64],
        roots[file as int],
    )
}

/// Whether `after` is `before` with more entries in the directory at hand and below it: whatever was
/// there is still there, and what is new is an entry of the directory above it.
pub open spec fn goes_on(before: Layout, after: Layout, at_hand: Ino, roots: Seq<Ino>) -> bool {
    &&& before.next <= after.next
    &&& before.children.is_prefix_of(after.children)
    &&& forall|d: Ino| #[trigger]
        before.dirs.contains_key(d) ==> after.dirs.contains_key(d) && after.dirs[d]
            == before.dirs[d]
    &&& forall|d: Ino| #[trigger]
        after.dirs.contains_key(d) && !before.dirs.contains_key(d) ==> {
            &&& before.next <= d < after.next
            &&& after.dirs[d].parent < d
            &&& is_listed(with_at_hand(after, at_hand), after.dirs[d].parent, d)
        }
    &&& forall|f: usize| #[trigger]
        leaf_placed(after, at_hand, roots, f) || after.file_parents.get(f as u64)
            == before.file_parents.get(f as u64)
}

proof fn lemma_still_listed(
    before: Layout,
    after: Layout,
    at_hand: Ino,
    roots: Seq<Ino>,
    parent: Ino,
    ino: Ino,
)
    requires
        goes_on(before, after, at_hand, roots),
        is_listed(with_at_hand(before, at_hand), parent, ino),
        !before.dirs.contains_key(at_hand),
    ensures
        is_listed(with_at_hand(after, at_hand), parent, ino),
{
    let a = with_at_hand(before, at_hand)[parent].children;
    let b = with_at_hand(after, at_hand)[parent].children;
    let k = choose|k: int| 0 <= k < a.len() && (#[trigger] a[k]).1 == ino;
    if parent != at_hand {
        assert(before.dirs.contains_key(parent));
    }
    assert(a.is_prefix_of(b));
    assert(b[k] == a[k]);
}

proof fn lemma_goes_on_twice(a: Layout, b: Layout, c: Layout, at_hand: Ino, roots: Seq<Ino>)
    requires
        goes_on(a, b, at_hand, roots),
        goes_on(b, c, at_hand, roots),
        at_hand < a.next,
        !a.dirs.contains_key(at_hand),
    ensures
        goes_on(a, c, at_hand, roots),
        forall|f: usize| #[trigger]
            leaf_placed(b, at_hand, roots, f) ==> leaf_placed(c, at_hand, roots, f),
{
    assert(!b.dirs.contains_key(at_hand));
    assert(a.children.is_prefix_of(c.children)) by {
        assert(c.children.subrange(0, b.children.len() as int).subrange(
            0,
            a.children.len() as int,
        ) =~= c.children.subrange(0, a.children.len() as int));
    }
    assert forall|d: Ino| #[trigger]
        c.dirs.contains_key(d) && !a.dirs.contains_key(d) implies a.next <= d < c.next
        && c.dirs[d].parent < d && is_listed(with_at_hand(c, at_hand), c.dirs[d].parent, d) by {
        if b.dirs.contains_key(d) {
            lemma_still_listed(b, c, at_hand, roots, b.dirs[d].parent, d);
        }
    }
    assert forall|f: usize| #[trigger] leaf_placed(b, at_hand, roots, f) implies leaf_placed(
        c,
        at_hand,
        roots,
        f,
    ) by {
        if c.file_parents.get(f as u64) == b.file_parents.get(f as u64) {
            lemma_still_listed(
                b,
                c,
                at_hand,
                roots,
                b.file_parents[f as u64],
                roots[f as int],
            );
        }
    }
    assert forall|f: usize| #[trigger]
        leaf_placed(c, at_hand, roots, f) || c.file_parents.get(f as u64) == a.file_parents.get(
            f as u64,
        ) by {
        assert(leaf_placed(b, at_hand, roots, f) || b.file_parents.get(f as u64)
            == a.file_parents.get(f as u64));
    }
}

proof fn lemma_with_files_placed(
    layout: Layout,
    files: Seq<usize>,
    name: Seq<char>,
    parent: Ino,
    roots: Seq<Ino>,
)
    requires
        parent < layout.next,
        !layout.dirs.contains_key(parent),
    ensures
        goes_on(layout, with_files(layout, files, name, parent, roots), parent, roots),
        forall|i: int|
            0 <= i < files.len() ==> leaf_placed(
                with_files(layout, files, name, parent, roots),
                parent,
                roots,
                #[trigger] files[i],
            ),
    decreases files.len(),
{
    let after = with_files(layout, files, name, parent, roots);
    if files.len() > 0 {
        let before = with_files(layout, files.drop_last(), name, parent, roots);
        let file = files.last();
        lemma_with_files_placed(layout, files.drop_last(), name, parent, roots);
        lemma_with_files_dirs(layout, files.drop_last(), name, parent, roots);
        let n = before.children.len() as int;
        assert(after.children[n].1 == roots[file as int]);
        assert(with_at_hand(after, parent)[parent].children[n].1 == roots[file as int]);
        assert(before.children =~= after.children.subrange(0, n));
        assert(leaf_placed(after, parent, roots, file));
        assert(goes_on(before, after, parent, roots));
        lemma_goes_on_twice(layout, before, after, parent, roots);
        assert forall|i: int| 0 <= i < files.len() implies leaf_placed(
            after,
            parent,
            roots,
            #[trigger] files[i],
        ) by {
            if i < files.len() - 1 {
                assert(files.drop_last()[i] == files[i]);
                assert(leaf_placed(before, parent, roots, files[i]));
            }
        }
    } else {
        assert(layout.children =~= layout.children.subrange(0, layout.children.len() as int));
    }
}

/// Whether `file` is one of `leaves`.
pub open spec fn has_leaf(leaves: Seq<(usize, Seq<Seq<char>>)>, file: usize) -> bool {
    exists|i: int| 0 <= i < leaves.len() && (#[trigger] leaves[i]).0 == file
}

/// Whether all `leaves` have a path.
pub open spec fn have_paths(leaves: Seq<(usize, Seq<Seq<char>>)>) -> bool {
    forall|i: int| 0 <= i < leaves.len() ==> (#[trigger] leaves[i]).1.len() > 0
}

/// Every leaf goes deeper, is a file of that name, or starts otherwise.
proof fn lemma_parts(leaves: Seq<(usize, Seq<Seq<char>>)>, name: Seq<char>, file: usize)
    requires
        have_paths(leaves),
    ensures
        have_paths(deeper_leaves(leaves, name)),
        have_paths(other_leaves(leaves, name)),
        has_leaf(leaves, file) ==> has_leaf(deeper_leaves(leaves, name), file) || files_named(
            leaves,
            name,
        ).contains(file) || has_leaf(other_leaves(leaves, name), file),
    decreases leaves.len(),
{
    if leaves.len() > 0 {
        let rest = leaves.drop_last();
        assert(have_paths(rest)) by {
            assert forall|i: int| 0 <= i < rest.len() implies (#[trigger] rest[i]).1.len() > 0 by {
                assert(rest[i] == leaves[i]);
            }
        }
        lemma_parts(rest, name, file);
        let (last, path) = leaves.last();
        assert(leaves[leaves.len() - 1].1.len() > 0);
        let d = deeper_leaves(rest, name);
        let n = files_named(rest, name);
        let o = other_leaves(rest, name);
        let d2 = deeper_leaves(leaves, name);
        let n2 = files_named(leaves, name);
        let o2 = other_leaves(leaves, name);
        assert forall|i: int| 0 <= i < d2.len() implies (#[trigger] d2[i]).1.len() > 0 by {
            if i < d.len() {
                assert(d2[i] == d[i]);
            }
        }
        assert forall|i: int| 0 <= i < o2.len() implies (#[trigger] o2[i]).1.len() > 0 by {
            if i < o.len() {
                assert(o2[i] == o[i]);
            }
        }
        if has_leaf(leaves, file) {
            let i = choose|i: int| 0 <= i < leaves.len() && (#[trigger] leaves[i]).0 == file;
            if i < rest.len() {
                assert(rest[i].0 == file);
                assert(has_leaf(rest, file));
                if has_leaf(d, file) {
                    let j = choose|j: int| 0 <= j < d.len() && (#[trigger] d[j]).0 == file;
                    assert(d2[j].0 == file);
                } else if n.contains(file) {
                    let j = choose|j: int| 0 <= j < n.len() && n[j] == file;
                    assert(n2[j] == file);
                } else {
                    let j = choose|j: int| 0 <= j < o.len() && (#[trigger] o[j]).0 == file;
                    assert(o2[j].0 == file);
                }
            } else if path[0] == name && path.len() > 1 {
                assert(d2[d.len() as int].0 == file);
            } else if path[0] == name {
                assert(n2[n.len() as int] == file);
            } else {
                assert(o2[o.len() as int].0 == file);
            }
        }
    }
}

/// The directory for what goes deeper is an entry of the directory at hand, and its own entries are
/// below it.
proof fn lemma_dir_placed(
    layout: Layout,
    below: Layout,
    name: Seq<char>,
    parent: Ino,
    roots: Seq<Ino>,
) -> (with_dir: Layout)
    requires
        parent < layout.next < u64::MAX,
        !layout.dirs.contains_key(parent),
        !layout.dirs.contains_key(layout.next),
        goes_on(
            Layout {
                children: Seq::empty(),
                seen: Set::empty(),
                next: next_ino_after(layout.next),
                ..layout
            },
            below,
            layout.next,
            roots,
        ),
    ensures
        with_dir == (Layout {
            children: layout.children.push((unique(layout.seen, name), layout.next)),
            seen: seen_after(layout.seen, name),
            dirs: below.dirs.insert(
                layout.next,
                SuperView { parent, children: below.children, seen: below.seen },
            ),
            ..below
        }),
        goes_on(layout, with_dir, parent, roots),
        forall|f: usize| #[trigger]
            leaf_placed(below, layout.next, roots, f) ==> leaf_placed(with_dir, parent, roots, f),
{
    let ino = layout.next;
    let dir = SuperView { parent, children: below.children, seen: below.seen };
    let with_dir = Layout {
        children: layout.children.push((unique(layout.seen, name), ino)),
        seen: seen_after(layout.seen, name),
        dirs: below.dirs.insert(ino, dir),
        ..below
    };
    let all = with_at_hand(with_dir, parent);
    let inner = with_at_hand(below, ino);
    assert(!below.dirs.contains_key(parent));
    assert(!below.dirs.contains_key(ino));
    assert(layout.children =~= with_dir.children.subrange(0, layout.children.len() as int));
    assert(with_dir.children[layout.children.len() as int].1 == ino);
    assert(all[parent].children[layout.children.len() as int].1 == ino);
    assert(is_listed(all, parent, ino));
    assert forall|p: Ino, x: Ino| #[trigger] is_listed(inner, p, x) implies is_listed(all, p, x) by {
        let a = inner[p].children;
        let k = choose|k: int| 0 <= k < a.len() && (#[trigger] a[k]).1 == x;
        assert(p != parent);
        assert(all[p].children[k].1 == x);
    }
    assert forall|d: Ino| #[trigger]
        with_dir.dirs.contains_key(d) && !layout.dirs.contains_key(d) implies layout.next <= d
        < with_dir.next && with_dir.dirs[d].parent < d && is_listed(
        all,
        with_dir.dirs[d].parent,
        d,
    ) by {
        if d != ino {
            assert(below.dirs.contains_key(d));
            assert(is_listed(inner, below.dirs[d].parent, d));
        }
    }
    assert forall|f: usize| #[trigger] leaf_placed(below, ino, roots, f) implies leaf_placed(
        with_dir,
        parent,
        roots,
        f,
    ) by {
        assert(is_listed(inner, below.file_parents[f as u64], roots[f as int]));
    }
    assert forall|f: usize| #[trigger]
        leaf_placed(with_dir, parent, roots, f) || with_dir.file_parents.get(f as u64)
            == layout.file_parents.get(f as u64) by {
        assert(leaf_placed(below, ino, roots, f) || below.file_parents.get(f as u64)
            == layout.file_parents.get(f as u64));
    }
    with_dir
}

proof fn lemma_laid_out_placed(
    layout: Layout,
    leaves: Seq<(usize, Seq<Seq<char>>)>,
    parent: Ino,
    roots: Seq<Ino>,
)
    requires
        have_paths(leaves),
        parent < layout.next,
        !layout.dirs.contains_key(parent),
        forall|d: Ino| #[trigger] layout.dirs.contains_key(d) ==> d < layout.next,
        laid_out(layout, leaves, parent, roots).next < u64::MAX,
    ensures
        goes_on(layout, laid_out(layout, leaves, parent, roots), parent, roots),
        forall|f: usize| #[trigger]
            has_leaf(leaves, f) ==> leaf_placed(
                laid_out(layout, leaves, parent, roots),
                parent,
                roots,
                f,
            ),
    decreases leaves_size(leaves),
{
    let after = laid_out(layout, leaves, parent, roots);
    if leaves.len() == 0 {
        assert(layout.children =~= layout.children.subrange(0, layout.children.len() as int));
    } else {
        let name = leaves[0].1[0];
        lemma_deeper_smaller(leaves, name);
        lemma_other_smaller(leaves, name);
        let deeper = deeper_leaves(leaves, name);
        let others = other_leaves(leaves, name);
        let files = files_named(leaves, name);
        let start = Layout {
            children: Seq::empty(),
            seen: Set::empty(),
            next: next_ino_after(layout.next),
            ..layout
        };
        let below = laid_out(start, deeper, layout.next, roots);
        let with_dir = if deeper.len() > 0 {
            Layout {
                children: layout.children.push((unique(layout.seen, name), layout.next)),
                seen: seen_after(layout.seen, name),
                dirs: below.dirs.insert(
                    layout.next,
                    SuperView { parent, children: below.children, seen: below.seen },
                ),
                ..below
            }
        } else {
            layout
        };
        let filled = with_files(with_dir, files, name, parent, roots);
        lemma_with_files_dirs(with_dir, files, name, parent, roots);
        lemma_laid_out_fresh(filled, others, parent, roots, parent);
        assert(after == laid_out(filled, others, parent, roots));
        lemma_parts(leaves, name, 0);
        if deeper.len() > 0 {
            lemma_laid_out_fresh(start, deeper, layout.next, roots, parent);
            assert(layout.next < u64::MAX);
            lemma_laid_out_placed(start, deeper, layout.next, roots);
            let made = lemma_dir_placed(layout, below, name, parent, roots);
            assert(made == with_dir);
        } else {
            assert(layout.children =~= layout.children.subrange(0, layout.children.len() as int));
        }
        assert(goes_on(layout, with_dir, parent, roots));
        assert(!with_dir.dirs.contains_key(parent));
        lemma_with_files_placed(with_dir, files, name, parent, roots);
        lemma_goes_on_twice(layout, with_dir, filled, parent, roots);
        assert forall|d: Ino| #[trigger] filled.dirs.contains_key(d) implies d < filled.next by {
            assert(with_dir.dirs.contains_key(d));
        }
        lemma_laid_out_placed(filled, others, parent, roots);
        lemma_goes_on_twice(layout, filled, after, parent, roots);
        assert forall|f: usize| #[trigger] has_leaf(leaves, f) implies leaf_placed(
            after,
            parent,
            roots,
            f,
        ) by {
            lemma_parts(leaves, name, f);
            if has_leaf(deeper, f) {
                assert(leaf_placed(below, layout.next, roots, f));
                assert(leaf_placed(with_dir, parent, roots, f));
                assert(leaf_placed(filled, parent, roots, f));
            } else if files.contains(f) {
                let j = choose|j: int| 0 <= j < files.len() && files[j] == f;
                assert(leaf_placed(filled, parent, roots, files[j]));
            }
        }
    }
}

/// In a fresh mount every file is reached from the root, as long as the numbers do not run out.
pub proof fn law_every_file_is_reached(
    sources: Seq<SourceView>,
    readonly: bool,
    allow_other: bool,
    uid: u32,
    gid: u32,
)
    requires
        forall|i: int| 0 <= i < sources.len() ==> (#[trigger] sources[i]).mount_path.len() > 0,
        sources.len() <= usize::MAX,
        mount_of(sources, readonly, allow_other, uid, gid).next < u64::MAX,
    ensures
        all_placed(mount_of(sources, readonly, allow_other, uid, gid)),
{
    let hidden = exists|i: int| 0 <= i < sources.len() && (#[trigger] sources[i]).shown is Some;
    let bare = bare_mount(readonly || hidden, allow_other, uid, gid);
    let fs = with_all_unplaced(bare, sources);
    let after = mount_of(sources, readonly, allow_other, uid, gid);
    let roots = roots_of(fs.files);
    let leaves = leaves_of(sources);
    let start = Layout {
        children: Seq::empty(),
        seen: Set::empty(),
        dirs: Map::empty(),
        file_parents: Map::empty(),
        next: fs.next,
    };
    let layout = laid_out(start, leaves, ROOT_INO, roots);
    lemma_all_unplaced_next(bare, sources);
    assert forall|i: int| 0 <= i < leaves.len() implies (#[trigger] leaves[i]).1.len() > 0 by {
        assert(sources[i].mount_path.len() > 0);
    }
    lemma_laid_out_placed(start, leaves, ROOT_INO, roots);
    let all = with_at_hand(layout, ROOT_INO);
    assert forall|p: Ino, x: Ino| #[trigger] is_listed(all, p, x) implies is_listed(
        after.dirs,
        p,
        x,
    ) by {
        let a = all[p].children;
        let k = choose|k: int| 0 <= k < a.len() && (#[trigger] a[k]).1 == x;
        assert(after.dirs[p].children[k].1 == x);
    }
    assert forall|d: Ino| #[trigger]
        after.dirs.contains_key(d) && d != ROOT_INO implies dir_placed(after.dirs, d) by {
        assert(layout.dirs.contains_key(d));
        assert(is_listed(all, layout.dirs[d].parent, d));
    }
    assert forall|i: int| 0 <= i < after.files.len() implies #[trigger] file_placed(after, i) by {
        assert(leaves[i].0 == i as usize);
        assert(has_leaf(leaves, i as usize));
        assert(leaf_placed(layout, ROOT_INO, roots, i as usize));
        assert(is_listed(all, layout.file_parents[i as u64], roots[i]));
    }
}

proof fn lemma_one_more_child(
    dirs: Map<Ino, SuperView>,
    parent: Ino,
    raw_name: Seq<char>,
    ino: Ino,
)
    requires
        dirs.contains_key(parent),
    ensures
        ({
            let after = dirs.insert(parent, with_child(dirs[parent], raw_name, ino));
            &&& is_listed(after, parent, ino)
            &&& after[parent].parent == dirs[parent].parent
            &&& forall|p: Ino, x: Ino| #[trigger] is_listed(dirs, p, x) ==> is_listed(after, p, x)
        }),
{
    let after = dirs.insert(parent, with_child(dirs[parent], raw_name, ino));
    let n = dirs[parent].children.len() as int;
    assert(after[parent].children[n].1 == ino);
    assert forall|p: Ino, x: Ino| #[trigger] is_listed(dirs, p, x) implies is_listed(after, p, x) by {
        let a = dirs[p].children;
        let k = choose|k: int| 0 <= k < a.len() && (#[trigger] a[k]).1 == x;
        assert(after[p].children[k].1 == x);
    }
}

proof fn lemma_made_dirs_placed(dirs: Map<Ino, SuperView>, next: Ino, names: Seq<Seq<char>>)
    requires
        dirs_placed(dirs),
        forall|d: Ino| #[trigger] dirs.contains_key(d) ==> d < next,
        super_dir_at(dirs, next, names).1 < u64::MAX,
    ensures
        ({
            let (after, free, found) = super_dir_at(dirs, next, names);
            &&& dirs_placed(after)
            &&& after.contains_key(found)
            &&& forall|d: Ino| #[trigger] after.contains_key(d) ==> d < free
            &&& forall|p: Ino, x: Ino| #[trigger] is_listed(dirs, p, x) ==> is_listed(after, p, x)
        }),
    decreases names.len(),
{
    if names.len() > 0 {
        let (before, free, parent) = super_dir_at(dirs, next, names.drop_last());
        let (after, free2, found) = super_dir_below(before, free, parent, names.last());
        lemma_made_dirs_placed(dirs, next, names.drop_last());
        if free != free2 {
            let made = before.insert(free, empty_dir(parent));
            assert forall|p: Ino, x: Ino| #[trigger] is_listed(before, p, x) implies is_listed(
                made,
                p,
                x,
            ) by {
                let a = before[p].children;
                let k = choose|k: int| 0 <= k < a.len() && (#[trigger] a[k]).1 == x;
                assert(made[p].children[k].1 == x);
            }
            lemma_one_more_child(made, parent, names.last(), free);
            assert forall|d: Ino| #[trigger]
                after.contains_key(d) && d != ROOT_INO implies dir_placed(after, d) by {
                if d != free {
                    assert(before.contains_key(d));
                    assert(is_listed(before, before[d].parent, d));
                    assert(is_listed(made, before[d].parent, d));
                }
            }
            assert forall|p: Ino, x: Ino| #[trigger] is_listed(dirs, p, x) implies is_listed(
                after,
                p,
                x,
            ) by {
                assert(is_listed(before, p, x));
                assert(is_listed(made, p, x));
            }
        }
    }
}

/// A file that is added to a mount is reached from the root, and all others still are, as long as
/// the numbers do not run out.
pub proof fn law_added_file_is_reached(fs: FsView, source: SourceView)
    requires
        fs.wf(),
        numbers_apart(fs),
        all_placed(fs),
        fs.files.len() < usize::MAX,
        fs.with_file(source).next < u64::MAX,
    ensures
        all_placed(fs.with_file(source)),
        source.mount_path.len() > 0 && !fs.mounted.contains(source.path) ==> fs.with_file(
            source,
        ).files.len() == fs.files.len() + 1,
{
    if source.mount_path.len() > 0 && !fs.mounted.contains(source.path) {
        let opened_fs = with_unplaced(fs, source);
        let after = fs.with_file(source);
        let names = source.mount_path.drop_last();
        let root = opened_fs.files.last().inodes.shadow.dir;
        law_synced_table_is_in_step(
            empty_table(),
            fs.next,
            shown_tree(source.document, source.shown),
        );
        lemma_made_dirs_placed(opened_fs.dirs, opened_fs.next, names);
        let (dirs, free, parent) = super_dir_at(opened_fs.dirs, opened_fs.next, names);
        lemma_one_more_child(dirs, parent, source.mount_path.last(), root);
        assert forall|d: Ino| #[trigger]
            after.dirs.contains_key(d) && d != ROOT_INO implies dir_placed(after.dirs, d) by {
            assert(dirs.contains_key(d));
            assert(dir_placed(dirs, d));
            assert(is_listed(dirs, dirs[d].parent, d));
        }
        assert forall|i: int| 0 <= i < after.files.len() implies #[trigger] file_placed(
            after,
            i,
        ) by {
            if i < fs.files.len() {
                assert(file_placed(fs, i));
                let p = fs.file_parents[i as u64];
                let x = fs.files[i].inodes.shadow.dir;
                assert(is_listed(fs.dirs, p, x));
                assert(is_listed(dirs, p, x));
            }
        }
    }
}

/// A request leaves every file where it is reached.
pub proof fn law_requests_leave_files_in_place(fs: FsView, after: FsView, step: StepView)
    requires
        all_placed(fs),
        one_file_changed(fs, after, step),
    ensures
        all_placed(after),
{
    assert forall|i: int| 0 <= i < after.files.len() implies #[trigger] file_placed(after, i) by {
        assert(file_placed(fs, i));
        assert(after.files[i].inodes.shadow.dir == fs.files[i].inodes.shadow.dir);
    }
}

} // verus!
