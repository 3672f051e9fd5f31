//! Every directory leads back to the directory that it is an entry of.
use vstd::prelude::*;

use crate::guarantees::one_file_changed;
use crate::inode::{empty_table, next_ino_after, PathView, ROOT_INO};
use crate::mount::{shown_tree, SourceView};
use crate::names::{seen_after, unique};
use crate::numbering::{law_synced_table_is_in_step, proper_table, table_uses, uses};
use crate::places::{has_leaf, have_paths};
use crate::reading::law_numbers_stand_for_their_section;
use crate::state::{
    bare_mount, leaves_of, mount_of, roots_of, super_dir_at, super_dir_below, with_all_unplaced,
    with_unplaced, FsView, StepView,
};
use crate::supers::{
    child_ino, deeper_leaves, files_named, laid_out, leaves_size, lemma_deeper_smaller,
    lemma_laid_out_fresh, lemma_other_smaller, lemma_with_files_dirs, other_leaves, with_files,
    Layout, SuperView,
};
use crate::uniqueness::{in_files, lemma_all_unplaced_next, numbers_apart};
use crate::vfs::{Ino, VfsError};

verus! {

/// Whether the file `f` is in the directory `p`, and its own directory has the number `c`.
pub open spec fn is_file_in(
    file_parents: Map<u64, Ino>,
    roots: Seq<Ino>,
    p: Ino,
    c: Ino,
    f: u64,
) -> bool {
    &&& f < roots.len()
    &&& roots[f as int] == c
    &&& file_parents.contains_key(f)
    &&& file_parents[f] == p
}

/// Whether `c` is the number of a directory, above the files or that of a file, whose parent is `p`.
pub open spec fn leads_to(
    dirs: Map<Ino, SuperView>,
    file_parents: Map<u64, Ino>,
    roots: Seq<Ino>,
    p: Ino,
    c: Ino,
) -> bool {
    ||| dirs.contains_key(c) && c != ROOT_INO && dirs[c].parent == p
    ||| exists|f: u64| #[trigger] is_file_in(file_parents, roots, p, c, f)
}

/// Whether the entries `children` all lead to `p`.
pub open spec fn all_lead_to(
    dirs: Map<Ino, SuperView>,
    file_parents: Map<u64, Ino>,
    roots: Seq<Ino>,
    p: Ino,
    children: Seq<(Seq<char>, Ino)>,
) -> bool {
    forall|k: int|
        0 <= k < children.len() ==> leads_to(
            dirs,
            file_parents,
            roots,
            p,
            (#[trigger] children[k]).1,
        )
}

/// Whether the entries of every directory lead to it.
pub open spec fn entries_lead_up(
    dirs: Map<Ino, SuperView>,
    file_parents: Map<u64, Ino>,
    roots: Seq<Ino>,
) -> bool {
    forall|p: Ino| #[trigger]
        dirs.contains_key(p) ==> all_lead_to(dirs, file_parents, roots, p, dirs[p].children)
}

/// Whether every directory of a mount leads to the one that it is an entry of.
pub open spec fn all_lead_up(fs: FsView) -> bool {
    &&& fs.dirs.contains_key(ROOT_INO)
    &&& fs.dirs[ROOT_INO].parent == ROOT_INO
    &&& entries_lead_up(fs.dirs, fs.file_parents, roots_of(fs.files))
    &&& forall|f: u64| #[trigger] fs.file_parents.contains_key(f) ==> f < fs.files.len()
}

/// Whether all directories and files stay where they are.
spec fn extends(
    dirs: Map<Ino, SuperView>,
    file_parents: Map<u64, Ino>,
    dirs2: Map<Ino, SuperView>,
    file_parents2: Map<u64, Ino>,
) -> bool {
    &&& forall|d: Ino| #[trigger]
        dirs.contains_key(d) ==> dirs2.contains_key(d) && dirs2[d].parent == dirs[d].parent
    &&& forall|f: u64| #[trigger]
        file_parents.contains_key(f) ==> file_parents2.contains_key(f) && file_parents2[f]
            == file_parents[f]
}

proof fn lemma_still_lead_to(
    dirs: Map<Ino, SuperView>,
    file_parents: Map<u64, Ino>,
    dirs2: Map<Ino, SuperView>,
    file_parents2: Map<u64, Ino>,
    roots: Seq<Ino>,
    p: Ino,
    children: Seq<(Seq<char>, Ino)>,
)
    requires
        extends(dirs, file_parents, dirs2, file_parents2),
        all_lead_to(dirs, file_parents, roots, p, children),
    ensures
        all_lead_to(dirs2, file_parents2, roots, p, children),
{
    assert forall|k: int| 0 <= k < children.len() implies leads_to(
        dirs2,
        file_parents2,
        roots,
        p,
        (#[trigger] children[k]).1,
    ) by {
        let c = children[k].1;
        if !(dirs.contains_key(c) && c != ROOT_INO && dirs[c].parent == p) {
            let f = choose|f: u64| #[trigger] is_file_in(file_parents, roots, p, c, f);
            assert(is_file_in(file_parents2, roots, p, c, f));
        }
    }
}

/// Whether the entries of all directories of a layout lead to them, and those of the one at hand,
/// which has the number `at_hand`.
spec fn layout_leads_up(layout: Layout, at_hand: Ino, roots: Seq<Ino>) -> bool {
    &&& entries_lead_up(layout.dirs, layout.file_parents, roots)
    &&& all_lead_to(layout.dirs, layout.file_parents, roots, at_hand, layout.children)
}

/// Whether no file is named twice, and none has a place yet.
spec fn are_new(leaves: Seq<(usize, Seq<Seq<char>>)>, file_parents: Map<u64, Ino>, n: nat) -> bool {
    &&& forall|i: int, j: int|
        0 <= i < j < leaves.len() ==> (#[trigger] leaves[i]).0 != (#[trigger] leaves[j]).0
    &&& forall|i: int|
        0 <= i < leaves.len() ==> (#[trigger] leaves[i]).0 < n && !file_parents.contains_key(
            leaves[i].0 as u64,
        )
}

/// Whether only the files of `leaves` got a place.
spec fn only_placed(
    leaves: Seq<(usize, Seq<Seq<char>>)>,
    before: Map<u64, Ino>,
    after: Map<u64, Ino>,
) -> bool {
    forall|f: u64| #[trigger]
        after.contains_key(f) ==> before.contains_key(f) || (f <= usize::MAX && has_leaf(
            leaves,
            f as usize,
        ))
}

proof fn lemma_with_files_lead_up(
    layout: Layout,
    files: Seq<usize>,
    name: Seq<char>,
    parent: Ino,
    roots: Seq<Ino>,
)
    requires
        layout_leads_up(layout, parent, roots),
        files.no_duplicates(),
        forall|i: int|
            0 <= i < files.len() ==> (#[trigger] files[i]) < roots.len()
                && !layout.file_parents.contains_key(files[i] as u64),
    ensures
        ({
            let after = with_files(layout, files, name, parent, roots);
            &&& layout_leads_up(after, parent, roots)
            &&& extends(layout.dirs, layout.file_parents, after.dirs, after.file_parents)
            &&& forall|f: u64| #[trigger]
                after.file_parents.contains_key(f) ==> layout.file_parents.contains_key(f) || (f
                    <= usize::MAX && files.contains(f as usize))
        }),
    decreases files.len(),
{
    if files.len() > 0 {
        let fewer = files.drop_last();
        let before = with_files(layout, fewer, name, parent, roots);
        let after = with_files(layout, files, name, parent, roots);
        let file = files.last();
        assert forall|i: int| 0 <= i < fewer.len() implies (#[trigger] fewer[i]) < roots.len()
            && !layout.file_parents.contains_key(fewer[i] as u64) by {
            assert(fewer[i] == files[i]);
        }
        lemma_with_files_lead_up(layout, fewer, name, parent, roots);
        lemma_with_files_dirs(layout, fewer, name, parent, roots);
        assert(files[files.len() - 1] == file);
        assert(!before.file_parents.contains_key(file as u64)) by {
            if fewer.contains(file) {
                let i = choose|i: int| 0 <= i < fewer.len() && fewer[i] == file;
                assert(files[i] == file);
            }
        }
        assert(extends(before.dirs, before.file_parents, after.dirs, after.file_parents));
        assert forall|p: Ino| #[trigger] after.dirs.contains_key(p) implies all_lead_to(
            after.dirs,
            after.file_parents,
            roots,
            p,
            after.dirs[p].children,
        ) by {
            assert(before.dirs.contains_key(p));
            lemma_still_lead_to(
                before.dirs,
                before.file_parents,
                after.dirs,
                after.file_parents,
                roots,
                p,
                before.dirs[p].children,
            );
        }
        lemma_still_lead_to(
            before.dirs,
            before.file_parents,
            after.dirs,
            after.file_parents,
            roots,
            parent,
            before.children,
        );
        assert(is_file_in(after.file_parents, roots, parent, roots[file as int], file as u64));
        assert forall|k: int| 0 <= k < after.children.len() implies leads_to(
            after.dirs,
            after.file_parents,
            roots,
            parent,
            (#[trigger] after.children[k]).1,
        ) by {
            if k < before.children.len() {
                assert(after.children[k] == before.children[k]);
            }
        }
        assert forall|f: u64| #[trigger]
            after.file_parents.contains_key(f) implies layout.file_parents.contains_key(f) || (f
            <= usize::MAX && files.contains(f as usize)) by {
            if f != file as u64 {
                assert(before.file_parents.contains_key(f));
                if fewer.contains(f as usize) {
                    let i = choose|i: int| 0 <= i < fewer.len() && fewer[i] == f as usize;
                    assert(files[i] == f as usize);
                }
            }
        }
    }
}

/// Whether a file is in at most one part of the leaves, and only if it is one of them.
spec fn in_one_part(leaves: Seq<(usize, Seq<Seq<char>>)>, name: Seq<char>, f: usize) -> bool {
    let deeper = has_leaf(deeper_leaves(leaves, name), f);
    let named = files_named(leaves, name).contains(f);
    let other = has_leaf(other_leaves(leaves, name), f);
    &&& deeper || named || other ==> has_leaf(leaves, f)
    &&& !(deeper && named)
    &&& !(deeper && other)
    &&& !(named && other)
}

/// Every leaf is in one of three parts, and each part names no file twice.
proof fn lemma_parts_apart(
    leaves: Seq<(usize, Seq<Seq<char>>)>,
    name: Seq<char>,
    file_parents: Map<u64, Ino>,
    n: nat,
)
    requires
        have_paths(leaves),
        are_new(leaves, file_parents, n),
    ensures
        have_paths(deeper_leaves(leaves, name)),
        have_paths(other_leaves(leaves, name)),
        are_new(deeper_leaves(leaves, name), file_parents, n),
        are_new(other_leaves(leaves, name), file_parents, n),
        files_named(leaves, name).no_duplicates(),
        forall|f: usize| #[trigger] in_one_part(leaves, name, f),
    decreases leaves.len(),
{
    let d2 = deeper_leaves(leaves, name);
    let n2 = files_named(leaves, name);
    let o2 = other_leaves(leaves, name);
    if leaves.len() > 0 {
        let rest = leaves.drop_last();
        assert forall|i: int| 0 <= i < rest.len() implies (#[trigger] rest[i]) == leaves[i] by {}
        assert(have_paths(rest));
        assert(are_new(rest, file_parents, n));
        lemma_parts_apart(rest, name, file_parents, n);
        let d = deeper_leaves(rest, name);
        let m = files_named(rest, name);
        let o = other_leaves(rest, name);
        let (last, path) = leaves.last();
        assert(leaves[leaves.len() - 1] == (last, path));
        assert(!has_leaf(rest, last)) by {
            if has_leaf(rest, last) {
                let i = choose|i: int| 0 <= i < rest.len() && (#[trigger] rest[i]).0 == last;
                assert(leaves[i].0 == last);
            }
        }
        assert(in_one_part(rest, name, last));
        assert(d.push((last, path.drop_first())).drop_last() =~= d);
        assert(o.push((last, path)).drop_last() =~= o);
        assert(m.push(last).drop_last() =~= m);
        assert forall|i: int| 0 <= i < d.len() implies (#[trigger] d[i]).0 != last by {}
        assert forall|i: int| 0 <= i < o.len() implies (#[trigger] o[i]).0 != last by {}
        assert forall|i: int| 0 <= i < d2.len() implies (#[trigger] d2[i]).1.len() > 0 && (i
            < d.len() ==> d2[i] == d[i]) by {
            if i < d.len() {
                assert(d2[i] == d[i]);
            }
        }
        assert forall|i: int| 0 <= i < o2.len() implies (#[trigger] o2[i]).1.len() > 0 && (i
            < o.len() ==> o2[i] == o[i]) by {
            if i < o.len() {
                assert(o2[i] == o[i]);
            }
        }
        assert(are_new(d2, file_parents, n));
        assert(are_new(o2, file_parents, n));
        assert(n2.no_duplicates());
        assert forall|f: usize| #[trigger] in_one_part(leaves, name, f) by {
            assert(in_one_part(rest, name, f));
            lemma_part_of(d, d2, f, last);
            lemma_part_of(o, o2, f, last);
            lemma_part_of(rest, leaves, f, last);
            assert(n2.contains(f) ==> m.contains(f) || f == last);
            if path[0] == name && path.len() > 1 {
                assert(n2 == m && o2 == o);
            } else if path[0] == name {
                assert(d2 == d && o2 == o);
            } else {
                assert(d2 == d && n2 == m);
            }
        }
    }
}

proof fn lemma_part_of(
    a: Seq<(usize, Seq<Seq<char>>)>,
    b: Seq<(usize, Seq<Seq<char>>)>,
    f: usize,
    last: usize,
)
    requires
        b == a || (b.len() == a.len() + 1 && b.drop_last() == a && b.last().0 == last),
    ensures
        b != a ==> has_leaf(b, f) == (has_leaf(a, f) || f == last),
{
    if b != a {
        if has_leaf(a, f) {
            let i = choose|i: int| 0 <= i < a.len() && (#[trigger] a[i]).0 == f;
            assert(b.drop_last()[i] == b[i]);
            assert(b[i].0 == f);
        }
        if f == last {
            assert(b[b.len() - 1].0 == f);
        }
        if has_leaf(b, f) && f != last {
            let i = choose|i: int| 0 <= i < b.len() && (#[trigger] b[i]).0 == f;
            assert(b.drop_last()[i] == b[i]);
            assert(a[i].0 == f);
        }
    }
}

proof fn lemma_leaf_is_new(
    leaves: Seq<(usize, Seq<Seq<char>>)>,
    file_parents: Map<u64, Ino>,
    n: nat,
    f: usize,
)
    requires
        are_new(leaves, file_parents, n),
        has_leaf(leaves, f),
    ensures
        f < n,
        !file_parents.contains_key(f as u64),
{
    let i = choose|i: int| 0 <= i < leaves.len() && (#[trigger] leaves[i]).0 == f;
    assert(leaves[i].0 == f);
}

/// Leaves stay new where only other ones got a place.
proof fn lemma_still_new(
    leaves: Seq<(usize, Seq<Seq<char>>)>,
    before: Map<u64, Ino>,
    after: Map<u64, Ino>,
    n: nat,
)
    requires
        are_new(leaves, before, n),
        forall|f: usize| #[trigger]
            after.contains_key(f as u64) ==> before.contains_key(f as u64) || !has_leaf(leaves, f),
    ensures
        are_new(leaves, after, n),
{
    assert forall|i: int| 0 <= i < leaves.len() implies (#[trigger] leaves[i]).0 < n
        && !after.contains_key(leaves[i].0 as u64) by {
        assert(has_leaf(leaves, leaves[i].0));
    }
}

/// The directory for what goes deeper leads to the directory at hand.
proof fn lemma_dir_leads_up(
    layout: Layout,
    below: Layout,
    name: Seq<char>,
    parent: Ino,
    roots: Seq<Ino>,
) -> (with_dir: Layout)
    requires
        ROOT_INO < layout.next,
        layout_leads_up(layout, parent, roots),
        layout_leads_up(below, layout.next, roots),
        extends(layout.dirs, layout.file_parents, below.dirs, below.file_parents),
        !below.dirs.contains_key(layout.next),
    ensures
        with_dir == (Layout {
            children: layout.children.push((unique(layout.seen, name), layout.next)),
            seen: seen_after(layout.seen, name),
            dirs: below.dirs.insert(
                layout.next,
                SuperView { parent, children: below.children, seen: below.seen },
            ),
            ..below
        }),
        layout_leads_up(with_dir, parent, roots),
        extends(layout.dirs, layout.file_parents, with_dir.dirs, with_dir.file_parents),
{
    let ino = layout.next;
    let with_dir = Layout {
        children: layout.children.push((unique(layout.seen, name), ino)),
        seen: seen_after(layout.seen, name),
        dirs: below.dirs.insert(
            ino,
            SuperView { parent, children: below.children, seen: below.seen },
        ),
        ..below
    };
    assert(extends(below.dirs, below.file_parents, with_dir.dirs, with_dir.file_parents));
    assert forall|p: Ino| #[trigger] with_dir.dirs.contains_key(p) implies all_lead_to(
        with_dir.dirs,
        with_dir.file_parents,
        roots,
        p,
        with_dir.dirs[p].children,
    ) by {
        lemma_still_lead_to(
            below.dirs,
            below.file_parents,
            with_dir.dirs,
            with_dir.file_parents,
            roots,
            p,
            with_dir.dirs[p].children,
        );
    }
    lemma_still_lead_to(
        layout.dirs,
        layout.file_parents,
        with_dir.dirs,
        with_dir.file_parents,
        roots,
        parent,
        layout.children,
    );
    assert forall|k: int| 0 <= k < with_dir.children.len() implies leads_to(
        with_dir.dirs,
        with_dir.file_parents,
        roots,
        parent,
        (#[trigger] with_dir.children[k]).1,
    ) by {
        if k < layout.children.len() {
            assert(with_dir.children[k] == layout.children[k]);
        }
    }
    with_dir
}

proof fn lemma_laid_out_leads_up(
    layout: Layout,
    leaves: Seq<(usize, Seq<Seq<char>>)>,
    parent: Ino,
    roots: Seq<Ino>,
)
    requires
        have_paths(leaves),
        are_new(leaves, layout.file_parents, roots.len()),
        ROOT_INO < layout.next,
        forall|d: Ino| #[trigger] layout.dirs.contains_key(d) ==> d < layout.next,
        layout_leads_up(layout, parent, roots),
        laid_out(layout, leaves, parent, roots).next < u64::MAX,
    ensures
        ({
            let after = laid_out(layout, leaves, parent, roots);
            &&& layout_leads_up(after, parent, roots)
            &&& extends(layout.dirs, layout.file_parents, after.dirs, after.file_parents)
            &&& only_placed(leaves, layout.file_parents, after.file_parents)
        }),
    decreases leaves_size(leaves),
{
    let after = laid_out(layout, leaves, parent, roots);
    if leaves.len() > 0 {
        let n = roots.len();
        let name = leaves[0].1[0];
        lemma_deeper_smaller(leaves, name);
        lemma_other_smaller(leaves, name);
        lemma_parts_apart(leaves, name, layout.file_parents, n);
        let deeper = deeper_leaves(leaves, name);
        let others = other_leaves(leaves, name);
        let files = files_named(leaves, name);
        let start = Layout {
            children: Seq::empty(),
            seen: Set::empty(),
            next: next_ino_after(layout.next),
            ..layout
        };
        let below = laid_out(start, deeper, layout.next, roots);
        let with_dir = if deeper.len() > 0 {
            Layout {
                children: layout.children.push((unique(layout.seen, name), layout.next)),
                seen: seen_after(layout.seen, name),
                dirs: below.dirs.insert(
                    layout.next,
                    SuperView { parent, children: below.children, seen: below.seen },
                ),
                ..below
            }
        } else {
            layout
        };
        let filled = with_files(with_dir, files, name, parent, roots);
        lemma_with_files_dirs(with_dir, files, name, parent, roots);
        lemma_laid_out_fresh(filled, others, parent, roots, parent);
        assert(after == laid_out(filled, others, parent, roots));
        if deeper.len() > 0 {
            lemma_laid_out_fresh(start, deeper, layout.next, roots, layout.next);
            lemma_laid_out_leads_up(start, deeper, layout.next, roots);
            let made = lemma_dir_leads_up(layout, below, name, parent, roots);
            assert(made == with_dir);
            assert forall|d: Ino| #[trigger] with_dir.dirs.contains_key(d) implies d
                < with_dir.next by {
                if d != layout.next {
                    lemma_laid_out_fresh(start, deeper, layout.next, roots, d);
                }
            }
        }
        assert forall|i: int| 0 <= i < files.len() implies (#[trigger] files[i]) < roots.len()
            && !with_dir.file_parents.contains_key(files[i] as u64) by {
            assert(files.contains(files[i]));
            assert(in_one_part(leaves, name, files[i]));
            lemma_leaf_is_new(leaves, layout.file_parents, n, files[i]);
        }
        lemma_with_files_lead_up(with_dir, files, name, parent, roots);
        assert forall|f: usize| #[trigger]
            filled.file_parents.contains_key(f as u64) implies layout.file_parents.contains_key(
            f as u64,
        ) || !has_leaf(others, f) by {
            assert(in_one_part(leaves, name, f));
        }
        lemma_still_new(others, layout.file_parents, filled.file_parents, n);
        lemma_laid_out_leads_up(filled, others, parent, roots);
        assert forall|f: u64| #[trigger]
            after.file_parents.contains_key(f) implies layout.file_parents.contains_key(f) || (f
            <= usize::MAX && has_leaf(leaves, f as usize)) by {
            assert(in_one_part(leaves, name, f as usize));
            assert(filled.file_parents.contains_key(f) || has_leaf(others, f as usize));
        }
    }
}

/// In a fresh mount every directory leads to the one that it is an entry of, as long as the numbers
/// do not run out.
pub proof fn law_fresh_mount_leads_up(
    sources: Seq<SourceView>,
    readonly: bool,
    allow_other: bool,
    uid: u32,
    gid: u32,
)
    requires
        forall|i: int| 0 <= i < sources.len() ==> (#[trigger] sources[i]).mount_path.len() > 0,
        sources.len() <= usize::MAX,
        mount_of(sources, readonly, allow_other, uid, gid).next < u64::MAX,
    ensures
        all_lead_up(mount_of(sources, readonly, allow_other, uid, gid)),
{
    let hidden = exists|i: int| 0 <= i < sources.len() && (#[trigger] sources[i]).shown is Some;
    let bare = bare_mount(readonly || hidden, allow_other, uid, gid);
    let fs = with_all_unplaced(bare, sources);
    let after = mount_of(sources, readonly, allow_other, uid, gid);
    let roots = roots_of(fs.files);
    let leaves = leaves_of(sources);
    let start = Layout {
        children: Seq::empty(),
        seen: Set::empty(),
        dirs: Map::empty(),
        file_parents: Map::empty(),
        next: fs.next,
    };
    let layout = laid_out(start, leaves, ROOT_INO, roots);
    lemma_all_unplaced_next(bare, sources);
    assert forall|i: int| 0 <= i < leaves.len() implies (#[trigger] leaves[i]).1.len() > 0 by {
        assert(sources[i].mount_path.len() > 0);
    }
    lemma_laid_out_leads_up(start, leaves, ROOT_INO, roots);
    lemma_laid_out_fresh(start, leaves, ROOT_INO, roots, ROOT_INO);
    assert(extends(layout.dirs, layout.file_parents, after.dirs, after.file_parents));
    assert forall|p: Ino| #[trigger] after.dirs.contains_key(p) implies all_lead_to(
        after.dirs,
        after.file_parents,
        roots,
        p,
        after.dirs[p].children,
    ) by {
        lemma_still_lead_to(
            layout.dirs,
            layout.file_parents,
            after.dirs,
            after.file_parents,
            roots,
            p,
            after.dirs[p].children,
        );
    }
    assert forall|f: u64| #[trigger] after.file_parents.contains_key(f) implies f
        < after.files.len() by {
        let i = choose|i: int| 0 <= i < leaves.len() && (#[trigger] leaves[i]).0 == f as usize;
        assert(leaves[i].0 == i as usize);
    }
}

proof fn lemma_made_dirs_lead_up(
    dirs: Map<Ino, SuperView>,
    file_parents: Map<u64, Ino>,
    roots: Seq<Ino>,
    next: Ino,
    names: Seq<Seq<char>>,
)
    requires
        dirs.contains_key(ROOT_INO),
        entries_lead_up(dirs, file_parents, roots),
        forall|d: Ino| #[trigger] dirs.contains_key(d) ==> d < next,
        super_dir_at(dirs, next, names).1 < u64::MAX,
    ensures
        ({
            let (after, free, found) = super_dir_at(dirs, next, names);
            &&& entries_lead_up(after, file_parents, roots)
            &&& extends(dirs, file_parents, after, file_parents)
            &&& after.contains_key(found)
            &&& forall|d: Ino| #[trigger] after.contains_key(d) ==> d < free
        }),
    decreases names.len(),
{
    if names.len() > 0 {
        let (before, free, parent) = super_dir_at(dirs, next, names.drop_last());
        let (after, free2, found) = super_dir_below(before, free, parent, names.last());
        lemma_made_dirs_lead_up(dirs, file_parents, roots, next, names.drop_last());
        if free != free2 {
            assert(extends(before, file_parents, after, file_parents));
            assert forall|p: Ino| #[trigger] after.contains_key(p) implies all_lead_to(
                after,
                file_parents,
                roots,
                p,
                after[p].children,
            ) by {
                if p != free {
                    lemma_still_lead_to(
                        before,
                        file_parents,
                        after,
                        file_parents,
                        roots,
                        p,
                        before[p].children,
                    );
                    if p == parent {
                        assert(after[p].children.drop_last() =~= before[p].children);
                        lemma_one_more_leads_to(
                            after,
                            file_parents,
                            roots,
                            p,
                            before[p].children,
                            after[p].children,
                        );
                    }
                }
            }
        }
    }
}

proof fn lemma_one_more_leads_to(
    dirs: Map<Ino, SuperView>,
    file_parents: Map<u64, Ino>,
    roots: Seq<Ino>,
    p: Ino,
    children: Seq<(Seq<char>, Ino)>,
    more: Seq<(Seq<char>, Ino)>,
)
    requires
        all_lead_to(dirs, file_parents, roots, p, children),
        more.len() == children.len() + 1,
        more.drop_last() == children,
        leads_to(dirs, file_parents, roots, p, more.last().1),
    ensures
        all_lead_to(dirs, file_parents, roots, p, more),
{
    assert forall|k: int| 0 <= k < more.len() implies leads_to(
        dirs,
        file_parents,
        roots,
        p,
        (#[trigger] more[k]).1,
    ) by {
        if k < children.len() {
            assert(more.drop_last()[k] == children[k]);
        }
    }
}

/// Adding a file leaves every directory leading to the one that it is an entry of, as long as the
/// numbers do not run out.
pub proof fn law_added_file_leads_up(fs: FsView, source: SourceView)
    requires
        fs.wf(),
        numbers_apart(fs),
        all_lead_up(fs),
        fs.files.len() < usize::MAX,
        fs.with_file(source).next < u64::MAX,
    ensures
        all_lead_up(fs.with_file(source)),
{
    if source.mount_path.len() > 0 && !fs.mounted.contains(source.path) {
        let opened_fs = with_unplaced(fs, source);
        let after = fs.with_file(source);
        let names = source.mount_path.drop_last();
        let root = opened_fs.files.last().inodes.shadow.dir;
        let roots = roots_of(fs.files);
        let roots2 = roots_of(after.files);
        let file = fs.files.len() as u64;
        law_synced_table_is_in_step(
            empty_table(),
            fs.next,
            shown_tree(source.document, source.shown),
        );
        assert forall|p: Ino| #[trigger] fs.dirs.contains_key(p) implies all_lead_to(
            fs.dirs,
            fs.file_parents,
            roots2,
            p,
            fs.dirs[p].children,
        ) by {
            let children = fs.dirs[p].children;
            assert forall|k: int| 0 <= k < children.len() implies leads_to(
                fs.dirs,
                fs.file_parents,
                roots2,
                p,
                (#[trigger] children[k]).1,
            ) by {
                let c = children[k].1;
                assert(leads_to(fs.dirs, fs.file_parents, roots, p, c));
                if !(fs.dirs.contains_key(c) && c != ROOT_INO && fs.dirs[c].parent == p) {
                    let f = choose|f: u64| #[trigger] is_file_in(fs.file_parents, roots, p, c, f);
                    assert(is_file_in(fs.file_parents, roots2, p, c, f));
                }
            }
        }
        lemma_made_dirs_lead_up(fs.dirs, fs.file_parents, roots2, opened_fs.next, names);
        let (dirs, free, parent) = super_dir_at(opened_fs.dirs, opened_fs.next, names);
        assert(extends(dirs, fs.file_parents, after.dirs, after.file_parents));
        assert(is_file_in(after.file_parents, roots2, parent, root, file));
        assert forall|p: Ino| #[trigger] after.dirs.contains_key(p) implies all_lead_to(
            after.dirs,
            after.file_parents,
            roots2,
            p,
            after.dirs[p].children,
        ) by {
            lemma_still_lead_to(
                dirs,
                fs.file_parents,
                after.dirs,
                after.file_parents,
                roots2,
                p,
                dirs[p].children,
            );
            if p == parent {
                let more = after.dirs[p].children;
                assert(more.drop_last() =~= dirs[p].children);
                lemma_one_more_leads_to(
                    after.dirs,
                    after.file_parents,
                    roots2,
                    p,
                    dirs[p].children,
                    more,
                );
            }
        }
    }
}

/// A request leaves every directory leading to the one that it is an entry of.
pub proof fn law_requests_leave_directories_leading_up(fs: FsView, after: FsView, step: StepView)
    requires
        all_lead_up(fs),
        one_file_changed(fs, after, step),
    ensures
        all_lead_up(after),
{
    assert(roots_of(after.files) =~= roots_of(fs.files)) by {
        assert forall|i: int| 0 <= i < fs.files.len() implies roots_of(after.files)[i] == roots_of(
            fs.files,
        )[i] by {
            assert(after.files[i].inodes.shadow.dir == fs.files[i].inodes.shadow.dir);
        }
    }
}

proof fn lemma_found_entry(children: Seq<(Seq<char>, Ino)>, name: Seq<char>) -> (k: int)
    requires
        child_ino(children, name) is Some,
    ensures
        0 <= k < children.len(),
        children[k].0 == name,
        children[k].1 == child_ino(children, name)->0,
    decreases children.len(),
{
    if children[0].0 == name {
        0
    } else {
        let k = lemma_found_entry(children.drop_first(), name);
        assert(children.drop_first()[k] == children[k + 1]);
        k + 1
    }
}

/// The directory above a directory that was looked up above the files, be it another such directory or
/// the top directory of a file, is the one it was looked up in.
pub proof fn law_directory_above_the_files_is_where_it_was_looked_up(
    fs: FsView,
    parent: Ino,
    name: Seq<char>,
)
    requires
        fs.wf(),
        numbers_apart(fs),
        all_lead_up(fs),
        fs.dirs.contains_key(parent),
        fs.lookup(parent, name) is Ok,
    ensures
        fs.parent_of(fs.lookup(parent, name)->Ok_0) == Ok::<Ino, VfsError>(parent),
{
    let children = fs.dirs[parent].children;
    let roots = roots_of(fs.files);
    let c = fs.lookup(parent, name)->Ok_0;
    let k = lemma_found_entry(children, name);
    assert(leads_to(fs.dirs, fs.file_parents, roots, parent, children[k].1));
    if !(fs.dirs.contains_key(c) && c != ROOT_INO && fs.dirs[c].parent == parent) {
        let f = choose|f: u64| #[trigger] is_file_in(fs.file_parents, roots, parent, c, f);
        let file = fs.files[f as int];
        assert(uses(file.inodes.shadow, c));
        assert(table_uses(fs.files[f as int].inodes, c));
        assert(in_files(fs.files, c));
        assert(!fs.dirs.contains_key(c));
        assert(fs.owner.contains_key(c));
        assert(table_uses(fs.files[fs.owner[c] as int].inodes, c));
        assert(fs.owner[c] == f);
        assert(proper_table(file.inodes));
        law_numbers_stand_for_their_section(file.inodes, file.tree, Seq::empty());
        assert(fs.path_for_ino(c) == Some((f as usize, PathView::Dir(Seq::empty()))));
    }
}

} // verus!
